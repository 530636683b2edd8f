use vstd::prelude::*;

use crate::search::{lemma_filter_skip, lemma_filter_step};

verus! {

broadcast use vstd::seq_lib::group_to_multiset_ensures;

/// Whether a candidate's key is under the bound, when there is one.
pub open spec fn under<T>(max_key: Option<u64>) -> spec_fn((T, u64)) -> bool {
    |c: (T, u64)|
        match max_key {
            Some(m) => c.1 < m,
            None => true,
        }
}

/// Keys never decrease along `s`.
pub open spec fn keys_ascending<T>(s: Seq<(T, u64)>) -> bool {
    forall|i: int, j: int| 0 <= i < j < s.len() ==> s[i].1 <= s[j].1
}

/// How many leading elements of `s` have a key of at most `key`: where a
/// stable insertion puts a candidate with that key.
pub open spec fn insert_pos<T>(s: Seq<(T, u64)>, key: u64) -> int
    decreases s.len(),
{
    if s.len() == 0 {
        0
    } else if s[0].1 <= key {
        1 + insert_pos(s.drop_first(), key)
    } else {
        0
    }
}

/// `s` sorted by key, candidates with equal keys kept in the order of `s`.
pub open spec fn stable_sorted<T>(s: Seq<(T, u64)>) -> Seq<(T, u64)>
    decreases s.len(),
{
    if s.len() == 0 {
        s
    } else {
        let t = stable_sorted(s.drop_last());
        t.insert(insert_pos(t, s.last().1), s.last())
    }
}

proof fn lemma_insert_pos<T>(s: Seq<(T, u64)>, key: u64, pos: int)
    requires
        0 <= pos <= s.len(),
        forall|j: int| 0 <= j < pos ==> (#[trigger] s[j]).1 <= key,
        pos < s.len() ==> s[pos].1 > key,
    ensures
        insert_pos(s, key) == pos,
    decreases pos,
{
    if pos > 0 {
        let d = s.drop_first();
        assert forall|j: int| 0 <= j < pos - 1 implies (#[trigger] d[j]).1 <= key by {
            assert(d[j] == s[j + 1]);
        }
        if pos - 1 < d.len() {
            assert(d[pos - 1] == s[pos]);
        }
        lemma_insert_pos(d, key, pos - 1);
        assert(s[0].1 <= key);
    }
}

/// Picks the (at most) `n` candidates with the smallest keys, smallest first,
/// leaving out those whose key is not under `max_key`. Among equal keys the
/// earlier candidate comes first. A key orders candidates by distance: the
/// smaller, the closer.
pub fn select_closest<T: Copy>(cands: &Vec<(T, u64)>, n: usize, max_key: Option<u64>) -> (r: Vec<
    (T, u64),
>)
    ensures
        keys_ascending(r@),
        forall|i: int| 0 <= i < r@.len() ==> under::<T>(max_key)(#[trigger] r@[i]),
        r@.len() == if n < cands@.filter(under::<T>(max_key)).len() {
            n as nat
        } else {
            cands@.filter(under::<T>(max_key)).len()
        },
        r@ == stable_sorted(cands@.filter(under::<T>(max_key))).take(r@.len() as int),
        r@.to_multiset().subset_of(cands@.filter(under::<T>(max_key)).to_multiset()),
        forall|c: (T, u64)|
            cands@.filter(under::<T>(max_key)).to_multiset().count(c) > r@.to_multiset().count(c)
                ==> forall|i: int| 0 <= i < r@.len() ==> (#[trigger] r@[i]).1 <= c.1,
{
    let ghost p = under::<T>(max_key);
    let mut s: Vec<(T, u64)> = Vec::new();
    let mut i: usize = 0;
    proof {
        assert(cands@.take(0) =~= Seq::<(T, u64)>::empty());
        reveal(Seq::filter);
    }
    while i < cands.len()
        invariant
            i <= cands@.len(),
            p == under::<T>(max_key),
            keys_ascending(s@),
            forall|j: int| 0 <= j < s@.len() ==> p(#[trigger] s@[j]),
            s@.to_multiset() == cands@.take(i as int).filter(p).to_multiset(),
            s@ == stable_sorted(cands@.take(i as int).filter(p)),
        decreases cands@.len() - i,
    {
        let c = cands[i];
        let keep = match max_key {
            Some(m) => c.1 < m,
            None => true,
        };
        if keep {
            let mut pos: usize = 0;
            while pos < s.len() && s[pos].1 <= c.1
                invariant
                    pos <= s@.len(),
                    forall|j: int| 0 <= j < pos ==> (#[trigger] s@[j]).1 <= c.1,
                decreases s@.len() - pos,
            {
                pos = pos + 1;
            }
            proof {
                lemma_filter_step(cands@, p, i as int);
                let t = s@.insert(pos as int, c);
                s@.insert_ensures(pos as int, c);
                assert(pos < s@.len() ==> s@[pos as int].1 > c.1);
                lemma_insert_pos(s@, c.1, pos as int);
                let f = cands@.take(i as int).filter(p);
                assert(f.push(c).drop_last() =~= f);
                assert(f.push(c).last() == c);
                assert(cands@[i as int] == c);
                assert forall|a: int, b: int| 0 <= a < b < t.len() implies t[a].1 <= t[b].1 by {
                    if b < pos {
                    } else if b == pos {
                    } else if a < pos {
                        assert(t[b] == s@[b - 1]);
                        if a < b - 1 && pos < b - 1 {
                            assert(s@[a].1 <= s@[pos as int].1);
                        }
                    } else if a == pos {
                        assert(t[b] == s@[b - 1]);
                        if b - 1 > pos {
                            assert(s@[pos as int].1 <= s@[b - 1].1);
                        }
                    } else {
                        assert(t[a] == s@[a - 1]);
                        assert(t[b] == s@[b - 1]);
                    }
                }
                assert forall|j: int| 0 <= j < t.len() implies p(#[trigger] t[j]) by {
                    if j < pos {
                    } else if j > pos {
                        assert(t[j] == s@[j - 1]);
                    }
                }
            }
            s.insert(pos, c);
        } else {
            proof {
                lemma_filter_skip(cands@, p, i as int, i as int + 1);
            }
        }
        i = i + 1;
    }
    proof {
        assert(cands@.take(cands@.len() as int) =~= cands@);
    }
    let ghost full = s@;
    s.truncate(n);
    proof {
        let passing = cands@.filter(p);
        let k = s@.len() as int;
        let rest = full.subrange(k, full.len() as int);
        assert(full.to_multiset() == passing.to_multiset());
        assert(full.len() == full.to_multiset().len());
        assert(passing.len() == passing.to_multiset().len());
        assert(full =~= s@ + rest);
        vstd::seq_lib::lemma_multiset_commutative(s@, rest);
        assert(full.to_multiset() =~= s@.to_multiset().add(rest.to_multiset()));
        assert forall|c: (T, u64)|
            passing.to_multiset().count(c) > s@.to_multiset().count(c) implies forall|i: int|
            0 <= i < s@.len() ==> (#[trigger] s@[i]).1 <= c.1 by {
            assert(rest.to_multiset().count(c) > 0);
            assert(rest.contains(c));
            let j = choose|j: int| 0 <= j < rest.len() && rest[j] == c;
            assert(full[k + j] == c);
            assert forall|i: int| 0 <= i < s@.len() implies (#[trigger] s@[i]).1 <= c.1 by {
                assert(full[i] == s@[i]);
            }
        }
        assert forall|i: int| 0 <= i < s@.len() implies p(#[trigger] s@[i]) by {
            assert(full[i] == s@[i]);
        }
    }
    s
}

} // verus!
