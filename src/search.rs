use vstd::prelude::*;

verus! {

/// Every element is smaller than the next one.
pub open spec fn strictly_ascending(s: Seq<i64>) -> bool {
    forall|i: int, j: int| 0 <= i < j < s.len() ==> s[i] < s[j]
}

/// How many elements of `s` are smaller than `v`; in an ascending sequence,
/// the index of the first element that is at least `v`.
pub open spec fn count_below(s: Seq<i64>, v: int) -> int
    decreases s.len(),
{
    if s.len() == 0 {
        0
    } else {
        count_below(s.drop_last(), v) + if s.last() < v {
            1int
        } else {
            0int
        }
    }
}

/// In an ascending sequence, a split point with everything before it below `v`
/// and everything from it on at least `v` is `count_below(s, v)`.
pub proof fn lemma_count_below_split(s: Seq<i64>, v: int, k: int)
    requires
        0 <= k <= s.len(),
        forall|j: int| 0 <= j < k ==> s[j] < v,
        forall|j: int| k <= j < s.len() ==> s[j] >= v,
    ensures
        count_below(s, v) == k,
    decreases s.len(),
{
    if s.len() > 0 {
        let p = s.drop_last();
        if k == s.len() {
            lemma_count_below_split(p, v, k - 1);
        } else {
            lemma_count_below_split(p, v, k);
        }
    }
}

/// The split point of an ascending sequence at `v`.
pub proof fn lemma_count_below_bounds(s: Seq<i64>, v: int)
    requires
        strictly_ascending(s),
    ensures
        0 <= count_below(s, v) <= s.len(),
        forall|j: int| 0 <= j < count_below(s, v) ==> s[j] < v,
        forall|j: int| count_below(s, v) <= j < s.len() ==> s[j] >= v,
    decreases s.len(),
{
    if s.len() > 0 {
        let p = s.drop_last();
        assert forall|i: int, j: int| 0 <= i < j < p.len() implies p[i] < p[j] by {
            assert(s[i] < s[j]);
        }
        lemma_count_below_bounds(p, v);
        let c = count_below(p, v);
        assert(forall|j: int| 0 <= j < p.len() ==> p[j] == s[j]);
        if s.last() < v {
            if c < p.len() {
                assert(s[c] < s[s.len() - 1]);
            }
            assert(c == p.len());
            assert(count_below(s, v) == s.len());
        } else {
            assert(count_below(s, v) == c);
        }
    }
}

/// Binary search over an ascending sequence: `Ok(i)` where `s[i] == v`, else
/// `Err(i)` with `i` the position where `v` would be inserted. Either way the
/// index is `count_below(s, v)`.
pub fn binary_search(s: &Vec<i64>, v: i64) -> (r: Result<usize, usize>)
    requires
        strictly_ascending(s@),
    ensures
        match r {
            Ok(i) => i < s@.len() && s@[i as int] == v && i == count_below(s@, v as int),
            Err(i) => i <= s@.len() && i == count_below(s@, v as int) && (i < s@.len()
                ==> s@[i as int] > v),
        },
{
    let mut lo: usize = 0;
    let mut hi: usize = s.len();
    while lo < hi
        invariant
            0 <= lo <= hi <= s@.len(),
            strictly_ascending(s@),
            forall|j: int| 0 <= j < lo ==> s@[j] < v,
            forall|j: int| hi <= j < s@.len() ==> s@[j] > v,
        decreases hi - lo,
    {
        let mid = lo + (hi - lo) / 2;
        if s[mid] < v {
            proof {
                assert forall|j: int| 0 <= j <= mid implies s@[j] < v by {
                    if j < mid {
                        assert(s@[j] < s@[mid as int]);
                    }
                }
            }
            lo = mid + 1;
        } else if s[mid] > v {
            proof {
                assert forall|j: int| mid <= j < s@.len() implies s@[j] > v by {
                    if j > mid {
                        assert(s@[mid as int] < s@[j]);
                    }
                }
            }
            hi = mid;
        } else {
            proof {
                assert forall|j: int| mid <= j < s@.len() implies s@[j] >= v by {
                    if j > mid {
                        assert(s@[mid as int] < s@[j]);
                    }
                }
                lemma_count_below_split(s@, v as int, mid as int);
            }
            return Ok(mid);
        }
    }
    proof {
        lemma_count_below_split(s@, v as int, lo as int);
    }
    Err(lo)
}


/// Dropping elements that fail `p` from a prefix leaves its filtered form unchanged.
pub proof fn lemma_filter_skip<A>(s: Seq<A>, p: spec_fn(A) -> bool, a: int, b: int)
    requires
        0 <= a <= b <= s.len(),
        forall|j: int| a <= j < b ==> !p(s[j]),
    ensures
        s.take(b).filter(p) == s.take(a).filter(p),
    decreases b - a,
{
    if b > a {
        lemma_filter_skip(s, p, a, b - 1);
        assert(s.take(b).drop_last() == s.take(b - 1));
        reveal(Seq::filter);
    }
}

/// Extending a prefix by one element that passes `p` appends it to the filtered form.
pub proof fn lemma_filter_step<A>(s: Seq<A>, p: spec_fn(A) -> bool, i: int)
    requires
        0 <= i < s.len(),
        p(s[i]),
    ensures
        s.take(i + 1).filter(p) == s.take(i).filter(p).push(s[i]),
{
    assert(s.take(i + 1).drop_last() == s.take(i));
    assert(s.take(i + 1).last() == s[i]);
    reveal(Seq::filter);
}


/// Filtering keeps a sequence whole when every element passes.
pub proof fn lemma_filter_all<A>(s: Seq<A>, p: spec_fn(A) -> bool)
    requires
        forall|j: int| 0 <= j < s.len() ==> p(s[j]),
    ensures
        s.filter(p) == s,
    decreases s.len(),
{
    reveal(Seq::filter);
    if s.len() > 0 {
        lemma_filter_all(s.drop_last(), p);
        assert(s.drop_last().push(s.last()) =~= s);
    }
}

} // verus!
