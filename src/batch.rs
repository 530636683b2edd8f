use vstd::prelude::*;

use crate::handles::{
    distinct, index_map, indexes_last, last_index_of, lemma_last_index_of,
    lemma_last_index_of_range, lookup_last,
};

use std::collections::HashMap;
use crate::range::{BundleRange, InterpolationStrategy, NumericRange, TraceHandle};
use crate::search::{
    binary_search, count_below, lemma_count_below_bounds, lemma_count_below_split, lemma_filter_all,
    lemma_filter_skip, lemma_filter_step,
    strictly_ascending,
};

verus! {

/// The answer to a point query.
#[derive(Clone, Copy, Debug, PartialEq)]
pub enum PointValue<Y> {
    /// The value `y` at coordinate `x`.
    Sample { x: i64, y: Y },
    /// The query `x` lies strictly between two samples; its value is on the
    /// straight line through them.
    Between { x: i64, left_x: i64, left_y: Y, right_x: i64, right_y: Y },
}

/// Keeps the samples whose x lies in `r`.
pub open spec fn within<Y>(r: NumericRange) -> spec_fn((i64, Y)) -> bool {
    |p: (i64, Y)| r.from <= p.0 && p.0 <= r.to
}

/// Column store: one ascending x sequence shared by several traces, and the
/// traces' values one after the other in `y` (trace `k` at `y[k * n .. (k + 1) * n]`).
pub struct Batch<Y> {
    x: Vec<i64>,
    y: Vec<Y>,
    handles: Vec<TraceHandle>,
    y_idx: HashMap<TraceHandle, usize>,
}

proof fn lemma_column_fits(c: int, n: int, h: int)
    requires
        0 <= c < h,
        0 <= n,
    ensures
        0 <= c * n,
        c * n + n <= n * h,
{
    assert(c * n + n <= n * h) by (nonlinear_arith)
        requires
            0 <= c < h,
            0 <= n,
    ;
    assert(0 <= c * n) by (nonlinear_arith)
        requires
            0 <= c,
            0 <= n,
    ;
}

impl<Y> Batch<Y> {
    /// The shared x coordinates.
    pub closed spec fn xs(&self) -> Seq<i64> {
        self.x@
    }

    /// All values, trace after trace.
    pub closed spec fn ys(&self) -> Seq<Y> {
        self.y@
    }

    /// The handles, in the order of their columns.
    pub closed spec fn handle_list(&self) -> Seq<TraceHandle> {
        self.handles@
    }

    /// Where each handle's column starts to be looked up.
    pub closed spec fn column_index(&self) -> Map<TraceHandle, usize> {
        self.y_idx@
    }

    pub open spec fn wf(&self) -> bool {
        &&& self.xs().len() > 0
        &&& strictly_ascending(self.xs())
        &&& self.ys().len() == self.xs().len() * self.handle_list().len()
        &&& indexes_last(self.column_index(), self.handle_list())
    }

    /// The column of trace `h`, or -1 when the batch does not hold it.
    pub open spec fn column(&self, h: TraceHandle) -> int {
        last_index_of(self.handle_list(), h)
    }

    /// The values of trace `h`, one for each x.
    pub open spec fn values(&self, h: TraceHandle) -> Seq<Y> {
        let n = self.xs().len() as int;
        let c = self.column(h);
        self.ys().subrange(c * n, c * n + n)
    }

    /// The samples `(x, y)` of trace `h`, in x order.
    pub open spec fn samples(&self, h: TraceHandle) -> Seq<(i64, Y)> {
        Seq::new(self.xs().len(), |i: int| (self.xs()[i], self.values(h)[i]))
    }

    /// What a point query at `x` returns.
    pub open spec fn spec_value_at(
        &self,
        h: TraceHandle,
        x: i64,
        strategy: InterpolationStrategy,
    ) -> Option<PointValue<Y>> {
        let xs = self.xs();
        let v = self.values(h);
        let n = xs.len() as int;
        let i = count_below(xs, x as int);
        if self.column(h) < 0 || x < xs[0] || x > xs[n - 1] {
            None
        } else if xs[i] == x {
            Some(PointValue::Sample { x, y: v[i] })
        } else {
            let left = PointValue::Sample { x: xs[i - 1], y: v[i - 1] };
            let right = PointValue::Sample { x: xs[i], y: v[i] };
            match strategy {
                InterpolationStrategy::Exact => None,
                InterpolationStrategy::Previous => Some(left),
                InterpolationStrategy::Next => Some(right),
                InterpolationStrategy::Nearest => if x - xs[i - 1] < xs[i] - x {
                    Some(left)
                } else {
                    Some(right)
                },
                InterpolationStrategy::Linear => Some(
                    PointValue::Between {
                        x,
                        left_x: xs[i - 1],
                        left_y: v[i - 1],
                        right_x: xs[i],
                        right_y: v[i],
                    },
                ),
            }
        }
    }

    /// The values at the `i`-th x of the traces of `hs` that the batch holds;
    /// a handle it does not hold gives no column.
    pub open spec fn row(&self, hs: Seq<TraceHandle>, i: int) -> Seq<Y> {
        Seq::new(self.present(hs).len(), |j: int| self.values(self.present(hs)[j])[i])
    }

    /// Whether the batch holds a trace.
    pub open spec fn holds(&self) -> spec_fn(TraceHandle) -> bool {
        |h: TraceHandle| self.column(h) >= 0
    }

    /// The handles of `hs` that the batch holds, in the order of `hs`.
    pub open spec fn present(&self, hs: Seq<TraceHandle>) -> Seq<TraceHandle> {
        hs.filter(self.holds())
    }

    /// `row` is the `k`-th row of a multi-trace walk over `hs` within `r`:
    /// the x that comes `k` places after the first one at least `r.from`,
    /// lying within `r`, and the values of the traces there.
    pub open spec fn row_ok(&self, hs: Seq<TraceHandle>, r: NumericRange, k: int, row: (
        i64,
        Vec<Y>,
    )) -> bool {
        let i = count_below(self.xs(), r.from as int) + k;
        &&& i < self.xs().len()
        &&& r.from <= self.xs()[i] <= r.to
        &&& row.0 == self.xs()[i]
        &&& row.1@ == self.row(hs, i)
    }

    /// The index window `[start, end)` of the samples that a range walk with
    /// neighbours yields: the samples in `r`, plus the last one before
    /// `r.from` and the first one after `r.to` where they exist.
    pub open spec fn neighbor_window(&self, r: NumericRange) -> (int, int) {
        let xs = self.xs();
        let n = xs.len() as int;
        let lo = count_below(xs, r.from as int);
        if lo == n {
            (0, 0)
        } else {
            let l = if lo > 0 && xs[lo] != r.from {
                lo - 1
            } else {
                lo
            };
            if r.to < xs[l] {
                (0, 0)
            } else {
                (l, if count_below(xs, r.to as int) + 1 < n {
                    count_below(xs, r.to as int) + 1
                } else {
                    n
                })
            }
        }
    }
}

impl<Y: Copy> Batch<Y> {
    /// Builds a batch from ascending `x`, the values of all traces one after the
    /// other in `y`, and the handles in the order of their values.
    pub fn new(x: Vec<i64>, y: Vec<Y>, handles: &Vec<TraceHandle>) -> (r: Batch<Y>)
        requires
            x@.len() > 0,
            strictly_ascending(x@),
            y@.len() == x@.len() * handles@.len(),
        ensures
            r.wf(),
            r.xs() == x@,
            r.ys() == y@,
            r.handle_list() == handles@,
    {
        let hs = handles.clone();
        assert(hs@ =~= handles@);
        let y_idx = index_map(handles);
        Batch { x, y, handles: hs, y_idx }
    }

    /// The distinct handles of the traces held.
    pub fn traces(&self) -> (r: Vec<TraceHandle>)
        ensures
            r@.no_duplicates(),
            forall|h: TraceHandle| r@.contains(h) <==> self.handle_list().contains(h),
    {
        distinct(&self.handles)
    }

    pub fn contains_trace(&self, h: TraceHandle) -> (r: bool)
        requires
            self.wf(),
        ensures
            r == (self.column(h) >= 0),
            r == self.handle_list().contains(h),
    {
        proof {
            lemma_last_index_of_range(self.handles@, h);
        }
        lookup_last(&self.y_idx, Ghost(self.handles@), h).is_some()
    }

    /// `Bounded` by the first and the last x.
    pub fn range(&self) -> (r: BundleRange)
        requires
            self.wf(),
        ensures
            r == (BundleRange::Bounded { from: self.xs()[0], to: self.xs().last() }),
    {
        BundleRange::Bounded { from: self.x[0], to: self.x[self.x.len() - 1] }
    }

    /// Number of x coordinates.
    pub fn point_count(&self) -> (r: usize)
        ensures
            r == self.xs().len(),
    {
        self.x.len()
    }

    pub fn contains_point(&self, point: i64) -> (r: bool)
        requires
            self.wf(),
        ensures
            r == (self.xs()[0] <= point <= self.xs().last()),
    {
        self.x[0] <= point && point <= self.x[self.x.len() - 1]
    }

    /// Whether `[x_from, x_to]` overlaps the batch's range.
    pub fn intersects(&self, x_from: i64, x_to: i64) -> (r: bool)
        requires
            self.wf(),
        ensures
            r == (self.xs()[0] <= x_to && self.xs().last() >= x_from),
    {
        self.x[0] <= x_to && self.x[self.x.len() - 1] >= x_from
    }

    /// Start of the values of the trace in column `c` within `y`.
    fn column_start(&self, c: usize) -> (r: usize)
        requires
            self.wf(),
            c < self.handle_list().len(),
        ensures
            r == c * self.xs().len(),
            r + self.xs().len() <= self.ys().len(),
            r + self.x.len() <= self.y.len(),
    {
        let total = self.y.len();
        proof {
            lemma_column_fits(c as int, self.x@.len() as int, self.handles@.len() as int);
            assert(self.y@.len() == self.x@.len() * self.handles@.len());
            assert(c * self.x@.len() <= total);
        }
        c * self.x.len()
    }

    /// The values of trace `h`, or `None` when the batch does not hold it.
    pub fn get_y_data_of(&self, h: TraceHandle) -> (r: Option<Vec<Y>>)
        requires
            self.wf(),
        ensures
            match r {
                Some(v) => self.column(h) >= 0 && v@ == self.values(h),
                None => self.column(h) < 0,
            },
    {
        let c = match lookup_last(&self.y_idx, Ghost(self.handles@), h) {
            Some(c) => c,
            None => return None,
        };
        let base = self.column_start(c);
        let n = self.x.len();
        let mut v: Vec<Y> = Vec::new();
        let mut i: usize = 0;
        while i < n
            invariant
                i <= n,
                n == self.xs().len(),
                base + n <= self.y.len(),
                base == self.column(h) * n,
                v@ == self.values(h).take(i as int),
            decreases n - i,
        {
            v.push(self.y[base + i]);
            i = i + 1;
            assert(v@ =~= self.values(h).take(i as int));
        }
        assert(v@ =~= self.values(h));
        Some(v)
    }

    /// The samples of trace `h` whose x lies in `x_range`, in x order; empty
    /// when the batch does not hold `h`.
    pub fn iter_in_range(&self, h: TraceHandle, x_range: NumericRange) -> (r: Vec<(i64, Y)>)
        requires
            self.wf(),
        ensures
            r@ == if self.column(h) < 0 {
                Seq::empty()
            } else {
                self.samples(h).filter(within(x_range))
            },
    {
        let c = match lookup_last(&self.y_idx, Ghost(self.handles@), h) {
            Some(c) => c,
            None => return Vec::new(),
        };
        let base = self.column_start(c);
        let n = self.x.len();
        let start = match binary_search(&self.x, x_range.from) {
            Ok(i) => i,
            Err(i) => i,
        };
        let ghost s = self.samples(h);
        let ghost p = within::<Y>(x_range);
        proof {
            lemma_count_below_bounds(self.x@, x_range.from as int);
            lemma_filter_skip(s, p, 0, start as int);
            assert(s.take(0) =~= Seq::<(i64, Y)>::empty());
            reveal(Seq::filter);
        }
        let mut r: Vec<(i64, Y)> = Vec::new();
        let mut i: usize = start;
        while i < n && self.x[i] <= x_range.to
            invariant
                start <= i <= n,
                n == self.xs().len(),
                self.wf(),
                base + n <= self.y.len(),
                base == self.column(h) * n,
                start == count_below(self.xs(), x_range.from as int),
                forall|j: int| start <= j < n ==> self.xs()[j] >= x_range.from,
                s == self.samples(h),
                p == within::<Y>(x_range),
                r@ == s.take(i as int).filter(p),
            decreases n - i,
        {
            proof {
                lemma_filter_step(s, p, i as int);
            }
            r.push((self.x[i], self.y[base + i]));
            i = i + 1;
        }
        proof {
            assert forall|j: int| i <= j < n implies !p(s[j]) by {
                if j > i {
                    assert(self.xs()[i as int] < self.xs()[j]);
                }
            }
            lemma_filter_skip(s, p, i as int, n as int);
            assert(s.take(n as int) =~= s);
        }
        r
    }

    /// Point query at `x`: an exact sample where there is one, else what
    /// `strategy` makes of the two samples around `x`; `None` outside the
    /// batch's range or for a trace it does not hold.
    pub fn value_at(&self, h: TraceHandle, x: i64, strategy: InterpolationStrategy) -> (r: Option<
        PointValue<Y>,
    >)
        requires
            self.wf(),
        ensures
            r == self.spec_value_at(h, x, strategy),
    {
        if !self.contains_point(x) {
            return None;
        }
        let c = match lookup_last(&self.y_idx, Ghost(self.handles@), h) {
            Some(c) => c,
            None => return None,
        };
        let base = self.column_start(c);
        let n = self.x.len();
        proof {
            lemma_count_below_bounds(self.x@, x as int);
        }
        match binary_search(&self.x, x) {
            Ok(i) => Some(PointValue::Sample { x, y: self.y[base + i] }),
            Err(i) => {
                if i == 0 || i == n {
                    return None;
                }
                let left_x = self.x[i - 1];
                let right_x = self.x[i];
                let left_y = self.y[base + i - 1];
                let right_y = self.y[base + i];
                match strategy {
                    InterpolationStrategy::Exact => None,
                    InterpolationStrategy::Previous => Some(
                        PointValue::Sample { x: left_x, y: left_y },
                    ),
                    InterpolationStrategy::Next => Some(
                        PointValue::Sample { x: right_x, y: right_y },
                    ),
                    InterpolationStrategy::Nearest => {
                        if (x as i128 - left_x as i128) < (right_x as i128 - x as i128) {
                            Some(PointValue::Sample { x: left_x, y: left_y })
                        } else {
                            Some(PointValue::Sample { x: right_x, y: right_y })
                        }
                    },
                    InterpolationStrategy::Linear => Some(
                        PointValue::Between { x, left_x, left_y, right_x, right_y },
                    ),
                }
            },
        }
    }

    /// The samples of trace `h` in `x_range` together with the nearest sample
    /// on each side of it, so that a line drawn through them crosses the
    /// range's edges; empty when the batch does not hold `h`.
    pub fn iter_in_range_with_neighbors(&self, h: TraceHandle, x_range: NumericRange) -> (r: Vec<
        (i64, Y),
    >)
        requires
            self.wf(),
        ensures
            r@ == if self.column(h) < 0 {
                Seq::empty()
            } else {
                self.samples(h).subrange(
                    self.neighbor_window(x_range).0,
                    self.neighbor_window(x_range).1,
                )
            },
    {
        let c = match lookup_last(&self.y_idx, Ghost(self.handles@), h) {
            Some(c) => c,
            None => return Vec::new(),
        };
        let base = self.column_start(c);
        let n = self.x.len();
        proof {
            lemma_count_below_bounds(self.x@, x_range.from as int);
            lemma_count_below_bounds(self.x@, x_range.to as int);
        }
        let start = match binary_search(&self.x, x_range.from) {
            Ok(i) => i,
            Err(i) => {
                if i == n {
                    return Vec::new();
                } else if i == 0 {
                    0
                } else {
                    i - 1
                }
            },
        };
        if x_range.to < self.x[start] {
            return Vec::new();
        }
        let end = match binary_search(&self.x, x_range.to) {
            Ok(i) => i + 1,
            Err(i) => if i < n {
                i + 1
            } else {
                n
            },
        };
        proof {
            if start > 0 {
                assert(self.x@[start - 1] < self.x@[start as int]);
            }
        }
        let ghost s = self.samples(h);
        let mut r: Vec<(i64, Y)> = Vec::new();
        let mut i: usize = start;
        while i < end
            invariant
                start <= i <= end <= n,
                n == self.xs().len(),
                base + n <= self.y.len(),
                base == self.column(h) * n,
                s == self.samples(h),
                r@ == s.subrange(start as int, i as int),
            decreases end - i,
        {
            r.push((self.x[i], self.y[base + i]));
            i = i + 1;
            assert(r@ =~= s.subrange(start as int, i as int));
        }
        r
    }

    /// The rows `(x, [y of each handle])` for the x coordinates in `x_range`,
    /// in x order.
    pub fn iter_many_in_range(&self, hs: &Vec<TraceHandle>, x_range: NumericRange) -> (r: Vec<
        (i64, Vec<Y>),
    >)
        requires
            self.wf(),
        ensures
            forall|k: int| 0 <= k < r@.len() ==> self.row_ok(hs@, x_range, k, #[trigger] r@[k]),
            ({
                let end = count_below(self.xs(), x_range.from as int) + r@.len();
                end == self.xs().len() || self.xs()[end] > x_range.to
            }),
    {
        proof {
            lemma_count_below_bounds(self.x@, x_range.from as int);
        }
        let n = self.x.len();
        let ghost pred = self.holds();
        let ghost ps = self.present(hs@);
        let mut bases: Vec<usize> = Vec::new();
        let mut k: usize = 0;
        proof {
            assert(hs@.take(0) =~= Seq::<TraceHandle>::empty());
            reveal(Seq::filter);
        }
        while k < hs.len()
            invariant
                k <= hs@.len(),
                n == self.xs().len(),
                self.wf(),
                pred == self.holds(),
                bases@.len() == hs@.take(k as int).filter(pred).len(),
                forall|j: int|
                    0 <= j < bases@.len() ==> {
                        &&& #[trigger] bases@[j] == self.column(hs@.take(k as int).filter(pred)[j]) * n
                        &&& bases@[j] + n <= self.y.len()
                    },
            decreases hs@.len() - k,
        {
            let ghost before = hs@.take(k as int).filter(pred);
            match lookup_last(&self.y_idx, Ghost(self.handles@), hs[k]) {
                Some(c) => {
                    proof {
                        lemma_filter_step(hs@, pred, k as int);
                    }
                    bases.push(self.column_start(c));
                },
                None => {
                    proof {
                        lemma_filter_skip(hs@, pred, k as int, k as int + 1);
                    }
                },
            }
            k = k + 1;
            proof {
                let after = hs@.take(k as int).filter(pred);
                assert forall|j: int| 0 <= j < before.len() implies after[j] == before[j] by {}
            }
        }
        proof {
            assert(hs@.take(hs@.len() as int) =~= hs@);
        }
        let mut i: usize = match binary_search(&self.x, x_range.from) {
            Ok(i) => i,
            Err(i) => i,
        };
        let start = i;
        proof {
            lemma_count_below_bounds(self.x@, x_range.to as int);
        }
        let above = match binary_search(&self.x, x_range.to) {
            Ok(j) => j + 1,
            Err(j) => j,
        };
        let end = if above < start {
            start
        } else {
            above
        };
        let mut r: Vec<(i64, Vec<Y>)> = Vec::new();
        while i < end
            invariant
                start <= i <= end <= n,
                forall|j: int| start <= j < end ==> self.xs()[j] <= x_range.to,
                end == n || self.xs()[end as int] > x_range.to,
                n == self.xs().len(),
                self.wf(),
                start == count_below(self.xs(), x_range.from as int),
                forall|j: int| start <= j < n ==> self.xs()[j] >= x_range.from,
                ps == self.present(hs@),
                bases@.len() == ps.len(),
                forall|j: int|
                    0 <= j < ps.len() ==> {
                        &&& #[trigger] bases@[j] == self.column(ps[j]) * n
                        &&& bases@[j] + n <= self.y.len()
                    },
                r@.len() == i - start,
                forall|k: int|
                    0 <= k < r@.len() ==> {
                        let i = start + k;
                        &&& i < self.xs().len()
                        &&& x_range.from <= self.xs()[i] <= x_range.to
                        &&& (#[trigger] r@[k]).0 == self.xs()[i]
                        &&& r@[k].1@ == self.row(hs@, i)
                    },
            decreases n - i,
        {
            let mut row: Vec<Y> = Vec::new();
            let mut j: usize = 0;
            while j < bases.len()
                invariant
                    j <= ps.len(),
                    i < n,
                    n == self.xs().len(),
                    ps == self.present(hs@),
                    bases@.len() == ps.len(),
                    forall|j: int|
                        0 <= j < ps.len() ==> {
                            &&& #[trigger] bases@[j] == self.column(ps[j]) * n
                            &&& bases@[j] + n <= self.y.len()
                        },
                    row@ == self.row(hs@, i as int).take(j as int),
                    x_range.from <= self.xs()[i as int] <= x_range.to,
                decreases ps.len() - j,
            {
                row.push(self.y[bases[j] + i]);
                j = j + 1;
                assert(row@ =~= self.row(hs@, i as int).take(j as int));
            }
            assert(row@ =~= self.row(hs@, i as int));
            let ghost before = r@;
            r.push((self.x[i], row));
            proof {
                assert forall|k: int| 0 <= k < r@.len() implies {
                    let i = start + k;
                    &&& i < self.xs().len()
                    &&& x_range.from <= self.xs()[i] <= x_range.to
                    &&& (#[trigger] r@[k]).0 == self.xs()[i]
                    &&& r@[k].1@ == self.row(hs@, i)
                } by {
                    if k < before.len() {
                        assert(r@[k] == before[k]);
                    }
                }
            }
            i = i + 1;
        }
        assert forall|k: int| 0 <= k < r@.len() implies self.row_ok(
            hs@,
            x_range,
            k,
            #[trigger] r@[k],
        ) by {
            assert(start + k == count_below(self.xs(), x_range.from as int) + k);
        }
        r
    }
}


/// Walking a trace over the batch's whole range `[x[0], x[n - 1]]` gives back
/// every sample of its column, `(x[i], y[c * n + i])`, in order.
pub proof fn lemma_round_trip<Y>(b: Batch<Y>, h: TraceHandle, r: NumericRange)
    requires
        b.wf(),
        b.column(h) >= 0,
        r.from == b.xs()[0],
        r.to == b.xs().last(),
    ensures
        b.samples(h).filter(within(r)) == Seq::new(
            b.xs().len(),
            |i: int| (b.xs()[i], b.ys()[b.column(h) * b.xs().len() + i]),
        ),
{
    let s = b.samples(h);
    let n = b.xs().len() as int;
    assert forall|j: int| 0 <= j < s.len() implies within::<Y>(r)(s[j]) by {
        if j > 0 {
            assert(b.xs()[0] < b.xs()[j]);
        }
        if j < n - 1 {
            assert(b.xs()[j] < b.xs()[n - 1]);
        }
    }
    lemma_filter_all(s, within::<Y>(r));
    let c = b.column(h);
    lemma_last_index_of_range(b.handle_list(), h);
    lemma_column_fits(c, n, b.handle_list().len() as int);
    assert(s =~= Seq::new(b.xs().len(), |i: int| (b.xs()[i], b.ys()[c * n + i])));
}

/// A query at a stored x returns that sample exactly, whatever the strategy.
pub proof fn lemma_value_at_sample<Y>(
    b: Batch<Y>,
    h: TraceHandle,
    i: int,
    strategy: InterpolationStrategy,
)
    requires
        b.wf(),
        b.column(h) >= 0,
        0 <= i < b.xs().len(),
    ensures
        b.spec_value_at(h, b.xs()[i], strategy) == Some(
            PointValue::Sample { x: b.xs()[i], y: b.values(h)[i] },
        ),
{
    let xs = b.xs();
    let n = xs.len() as int;
    assert forall|j: int| 0 <= j < i implies xs[j] < xs[i] by {}
    assert forall|j: int| i <= j < n implies xs[j] >= xs[i] by {
        if j > i {
            assert(xs[i] < xs[j]);
        }
    }
    lemma_count_below_split(xs, xs[i] as int, i);
    if i > 0 {
        assert(xs[0] < xs[i]);
    }
    if i < n - 1 {
        assert(xs[i] < xs[n - 1]);
    }
}

/// A linear query strictly between two neighbouring samples hands back
/// exactly those two samples and the query x.
pub proof fn lemma_linear_between<Y>(b: Batch<Y>, h: TraceHandle, i: int, x: i64)
    requires
        b.wf(),
        b.column(h) >= 0,
        0 < i < b.xs().len(),
        b.xs()[i - 1] < x < b.xs()[i],
    ensures
        b.spec_value_at(h, x, InterpolationStrategy::Linear) == Some(
            PointValue::Between {
                x,
                left_x: b.xs()[i - 1],
                left_y: b.values(h)[i - 1],
                right_x: b.xs()[i],
                right_y: b.values(h)[i],
            },
        ),
{
    let xs = b.xs();
    let n = xs.len() as int;
    assert forall|j: int| 0 <= j < i implies xs[j] < x by {
        if j < i - 1 {
            assert(xs[j] < xs[i - 1]);
        }
    }
    assert forall|j: int| i <= j < n implies xs[j] >= x by {
        if j > i {
            assert(xs[i] < xs[j]);
        }
    }
    lemma_count_below_split(xs, x as int, i);
    if i > 1 {
        assert(xs[0] < xs[i - 1]);
    }
    if i < n - 1 {
        assert(xs[i] < xs[n - 1]);
    }
}

/// A query outside `[x[0], x[n - 1]]` finds nothing, whatever the strategy.
pub proof fn lemma_out_of_range_is_none<Y>(
    b: Batch<Y>,
    h: TraceHandle,
    x: i64,
    strategy: InterpolationStrategy,
)
    requires
        b.wf(),
        x < b.xs()[0] || x > b.xs().last(),
    ensures
        b.spec_value_at(h, x, strategy) == None::<PointValue<Y>>,
{
}


proof fn lemma_filter_window<Y>(b: Batch<Y>, h: TraceHandle, r: NumericRange, lo: int, i: int)
    requires
        b.wf(),
        0 <= lo <= i <= b.xs().len(),
        forall|j: int| 0 <= j < lo ==> b.xs()[j] < r.from,
        forall|j: int| lo <= j < i ==> r.from <= #[trigger] b.xs()[j] <= r.to,
    ensures
        b.samples(h).take(i).filter(within(r)) == b.samples(h).subrange(lo, i),
    decreases i - lo,
{
    let s = b.samples(h);
    if i == lo {
        lemma_filter_skip(s, within::<Y>(r), 0, lo);
        assert(s.take(0) =~= Seq::<(i64, Y)>::empty());
        reveal(Seq::filter);
        assert(s.subrange(lo, lo) =~= Seq::<(i64, Y)>::empty());
    } else {
        lemma_filter_window(b, h, r, lo, i - 1);
        lemma_filter_step(s, within::<Y>(r), i - 1);
        assert(s.subrange(lo, i) =~= s.subrange(lo, i - 1).push(s[i - 1]));
    }
}

/// Where the range holds a sample, the walk with neighbours yields the
/// samples of the plain walk, `[lo, hi)`, widened by one sample on the left
/// when `from` is not a sample and one exists before it, and by one on the
/// right when `to` is not a sample and one exists after it.
pub proof fn lemma_neighbors_widen_by_one<Y>(b: Batch<Y>, h: TraceHandle, r: NumericRange, k: int)
    requires
        b.wf(),
        0 <= k < b.xs().len(),
        r.from <= b.xs()[k] <= r.to,
    ensures
        ({
            let lo = count_below(b.xs(), r.from as int);
            let hi = count_below(b.xs(), r.to as int + 1);
            let w = b.neighbor_window(r);
            &&& b.samples(h).filter(within(r)) == b.samples(h).subrange(lo, hi)
            &&& w.0 <= lo <= w.0 + 1
            &&& hi <= w.1 <= hi + 1
            &&& lo < hi
            &&& w.0 == if lo > 0 && b.xs()[lo] != r.from {
                lo - 1
            } else {
                lo
            }
            &&& w.1 == if hi < b.xs().len() && b.xs()[hi - 1] != r.to {
                hi + 1
            } else {
                hi
            }
        }),
{
    let xs = b.xs();
    let n = xs.len() as int;
    let s = b.samples(h);
    lemma_count_below_bounds(xs, r.from as int);
    lemma_count_below_bounds(xs, r.to as int);
    lemma_count_below_bounds(xs, r.to as int + 1);
    let lo = count_below(xs, r.from as int);
    let hi = count_below(xs, r.to as int + 1);
    let c = count_below(xs, r.to as int);
    assert(lo <= k < hi);
    assert forall|j: int| lo <= j < hi implies r.from <= #[trigger] xs[j] <= r.to by {}
    lemma_filter_window(b, h, r, lo, hi);
    lemma_filter_skip(s, within::<Y>(r), hi, n);
    assert(s.take(n) =~= s);
    if hi > c + 1 {
        assert(xs[c] < xs[c + 1]);
    }
    if hi < c {
        assert(xs[hi] > r.to);
    }
    assert(c <= hi <= c + 1);
    if c < lo {
        assert(xs[c] < xs[lo]);
    }
}


/// With distinct handles, a query at the `i`-th stored x of the trace in
/// column `k` returns `(x[i], y[k * n + i])` exactly, whatever the strategy.
pub proof fn lemma_value_at_column<Y>(
    b: Batch<Y>,
    k: int,
    i: int,
    strategy: InterpolationStrategy,
)
    requires
        b.wf(),
        b.handle_list().no_duplicates(),
        0 <= k < b.handle_list().len(),
        0 <= i < b.xs().len(),
    ensures
        b.spec_value_at(b.handle_list()[k], b.xs()[i], strategy) == Some(
            PointValue::Sample { x: b.xs()[i], y: b.ys()[k * b.xs().len() + i] },
        ),
{
    let hs = b.handle_list();
    let h = hs[k];
    let n = b.xs().len() as int;
    lemma_last_index_of(hs, h, k);
    lemma_column_fits(k, n, hs.len() as int);
    lemma_value_at_sample(b, h, i, strategy);
}

} // verus!
