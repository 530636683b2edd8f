use vstd::prelude::*;

use std::collections::HashMap;

use crate::range::TraceHandle;

verus! {

broadcast use vstd::std_specs::hash::group_hash_axioms;

/// Index of the last occurrence of `h` in `s`, or -1 when `h` does not occur.
/// A handle listed twice is looked up at its last position.
pub open spec fn last_index_of(s: Seq<TraceHandle>, h: TraceHandle) -> int
    decreases s.len(),
{
    if s.len() == 0 {
        -1
    } else if s.last() == h {
        s.len() - 1
    } else {
        last_index_of(s.drop_last(), h)
    }
}

pub proof fn lemma_last_index_of(s: Seq<TraceHandle>, h: TraceHandle, k: int)
    requires
        -1 <= k < s.len(),
        k >= 0 ==> s[k] == h,
        forall|j: int| k < j < s.len() ==> s[j] != h,
    ensures
        last_index_of(s, h) == k,
    decreases s.len(),
{
    if s.len() > 0 && s.last() != h {
        lemma_last_index_of(s.drop_last(), h, k);
    }
}

pub proof fn lemma_last_index_of_range(s: Seq<TraceHandle>, h: TraceHandle)
    ensures
        -1 <= last_index_of(s, h) < s.len(),
        last_index_of(s, h) >= 0 ==> s[last_index_of(s, h)] == h,
        last_index_of(s, h) < 0 <==> !s.contains(h),
    decreases s.len(),
{
    if s.len() > 0 {
        lemma_last_index_of_range(s.drop_last(), h);
        if s.last() != h {
            if s.contains(h) {
                let j = choose|j: int| 0 <= j < s.len() && s[j] == h;
                assert(s.drop_last()[j] == h);
            }
            if s.drop_last().contains(h) {
                let j = choose|j: int| 0 <= j < s.len() - 1 && s.drop_last()[j] == h;
                assert(s[j] == h);
            }
        } else {
            assert(s[s.len() - 1] == h);
        }
    }
}

/// `m` maps each handle of `handles` to its last position there, and holds
/// no other handle.
pub open spec fn indexes_last(m: Map<TraceHandle, usize>, handles: Seq<TraceHandle>) -> bool {
    forall|h: TraceHandle|
        (#[trigger] m.contains_key(h) <==> last_index_of(handles, h) >= 0) && (m.contains_key(h)
            ==> m[h] == last_index_of(handles, h))
}

/// The map from each handle of `handles` to its last position there.
pub fn index_map(handles: &Vec<TraceHandle>) -> (r: HashMap<TraceHandle, usize>)
    ensures
        indexes_last(r@, handles@),
{
    let mut m: HashMap<TraceHandle, usize> = HashMap::new();
    let mut i: usize = 0;
    assert(handles@.take(0) =~= Seq::<TraceHandle>::empty());
    while i < handles.len()
        invariant
            i <= handles@.len(),
            indexes_last(m@, handles@.take(i as int)),
        decreases handles@.len() - i,
    {
        let h = handles[i];
        m.insert(h, i);
        proof {
            let t = handles@.take(i as int + 1);
            assert(t.drop_last() =~= handles@.take(i as int));
            assert(t.last() == h);
            assert forall|g: TraceHandle| #[trigger] m@.contains_key(g) <==> last_index_of(t, g) >= 0
                by {}
        }
        i = i + 1;
    }
    assert(handles@.take(handles@.len() as int) =~= handles@);
    m
}

/// The last position of `h` in the handles that `m` indexes.
pub fn lookup_last(m: &HashMap<TraceHandle, usize>, Ghost(handles): Ghost<Seq<TraceHandle>>, h: TraceHandle) -> (r: Option<usize>)
    requires
        indexes_last(m@, handles),
    ensures
        match r {
            Some(k) => k == last_index_of(handles, h) && k < handles.len(),
            None => last_index_of(handles, h) == -1,
        },
{
    proof {
        lemma_last_index_of_range(handles, h);
    }
    match m.get(&h) {
        Some(k) => Some(*k),
        None => None,
    }
}

/// Position of the last occurrence of `h` in `handles`.
pub fn find_last(handles: &Vec<TraceHandle>, h: TraceHandle) -> (r: Option<usize>)
    ensures
        match r {
            Some(k) => k == last_index_of(handles@, h) && k < handles@.len(),
            None => last_index_of(handles@, h) == -1,
        },
{
    let mut i: usize = handles.len();
    while i > 0
        invariant
            i <= handles@.len(),
            forall|j: int| i <= j < handles@.len() ==> handles@[j] != h,
        decreases i,
    {
        i = i - 1;
        if handles[i] == h {
            proof {
                lemma_last_index_of(handles@, h, i as int);
            }
            return Some(i);
        }
    }
    proof {
        lemma_last_index_of(handles@, h, -1);
    }
    None
}

/// The handles of `handles`, each once, in order of first occurrence.
pub fn distinct(handles: &Vec<TraceHandle>) -> (r: Vec<TraceHandle>)
    ensures
        r@.no_duplicates(),
        forall|h: TraceHandle| r@.contains(h) <==> handles@.contains(h),
{
    let mut r: Vec<TraceHandle> = Vec::new();
    let mut i: usize = 0;
    while i < handles.len()
        invariant
            i <= handles@.len(),
            r@.no_duplicates(),
            forall|h: TraceHandle| r@.contains(h) <==> handles@.take(i as int).contains(h),
        decreases handles@.len() - i,
    {
        let h = handles[i];
        let seen = find_last(&r, h);
        proof {
            lemma_last_index_of_range(r@, h);
            assert(handles@.take(i as int + 1) == handles@.take(i as int).push(h));
        }
        if seen.is_none() {
            let ghost old_r = r@;
            r.push(h);
            proof {
                assert(r@ == old_r.push(h));
                assert forall|g: TraceHandle| r@.contains(g) implies handles@.take(
                    i as int + 1,
                ).contains(g) by {
                    let j = choose|j: int| 0 <= j < r@.len() && r@[j] == g;
                    if j < r@.len() - 1 {
                        assert(old_r[j] == g);
                        assert(old_r.contains(g));
                    } else {
                        assert(handles@.take(i as int + 1)[i as int] == h);
                    }
                }
                assert forall|g: TraceHandle| handles@.take(i as int + 1).contains(g) implies r@.contains(g) by {
                    if g == h {
                        assert(r@[r@.len() - 1] == h);
                    } else {
                        let t = handles@.take(i as int + 1);
                        let j = choose|j: int| 0 <= j < t.len() && t[j] == g;
                        assert(handles@.take(i as int)[j] == g);
                        assert(old_r.contains(g));
                        let k = choose|k: int| 0 <= k < old_r.len() && old_r[k] == g;
                        assert(r@[k] == g);
                    }
                }
            }
        } else {
            proof {
                assert forall|g: TraceHandle| handles@.take(i as int + 1).contains(g) implies r@.contains(g) by {
                    if g != h {
                        let t = handles@.take(i as int + 1);
                        let j = choose|j: int| 0 <= j < t.len() && t[j] == g;
                        assert(handles@.take(i as int)[j] == g);
                    }
                }
                assert forall|g: TraceHandle| r@.contains(g) implies handles@.take(i as int + 1).contains(g) by {
                    let t = handles@.take(i as int);
                    let j = choose|j: int| 0 <= j < t.len() && t[j] == g;
                    assert(handles@.take(i as int + 1)[j] == g);
                }
            }
        }
        i = i + 1;
    }
    assert(handles@.take(handles@.len() as int) == handles@);
    r
}

} // verus!
