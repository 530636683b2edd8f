use vstd::prelude::*;

use crate::batch::{Batch, PointValue};
use crate::constant_batch::ConstantBatch;
use crate::range::{BundleRange, InterpolationStrategy, NumericRange, TraceHandle};
use crate::adaptive_grid::xs_of;
use crate::search::{count_below, lemma_count_below_bounds, strictly_ascending};

use std::rc::Rc;

verus! {

/// The storage forms a bundle of traces can take.
pub enum Bundle<Y> {
    Batch(Batch<Y>),
    Constant(ConstantBatch<Y>),
}

impl<Y> Bundle<Y> {
    /// The bundle holds trace `h` and its bounded range contains `x`.
    pub open spec fn covers(&self, h: TraceHandle, x: i64) -> bool {
        &&& self.holds(h)
        &&& match self.spec_range() {
            BundleRange::Bounded { from, to } => from <= x <= to,
            BundleRange::Everywhere => false,
        }
    }

    pub open spec fn wf(&self) -> bool {
        match self {
            Bundle::Batch(b) => b.wf(),
            Bundle::Constant(c) => c.wf(),
        }
    }

    pub open spec fn spec_range(&self) -> BundleRange {
        match self {
            Bundle::Batch(b) => BundleRange::Bounded { from: b.xs()[0], to: b.xs().last() },
            Bundle::Constant(c) => BundleRange::Everywhere,
        }
    }

    pub open spec fn holds(&self, h: TraceHandle) -> bool {
        match self {
            Bundle::Batch(b) => b.column(h) >= 0,
            Bundle::Constant(c) => c.holds(h),
        }
    }
}

impl<Y: Copy> Bundle<Y> {
    pub fn traces(&self) -> (r: Vec<TraceHandle>)
        ensures
            r@.no_duplicates(),
            forall|h: TraceHandle|
                r@.contains(h) <==> match self {
                    Bundle::Batch(b) => b.handle_list().contains(h),
                    Bundle::Constant(c) => c.handle_list().contains(h),
                },
    {
        match self {
            Bundle::Batch(b) => b.traces(),
            Bundle::Constant(c) => c.traces(),
        }
    }

    pub fn range(&self) -> (r: BundleRange)
        requires
            self.wf(),
        ensures
            r == self.spec_range(),
    {
        match self {
            Bundle::Batch(b) => b.range(),
            Bundle::Constant(c) => c.range(),
        }
    }

    pub fn point_count(&self) -> (r: usize)
        ensures
            r == match self {
                Bundle::Batch(b) => b.xs().len(),
                Bundle::Constant(c) => 2,
            },
    {
        match self {
            Bundle::Batch(b) => b.point_count(),
            Bundle::Constant(c) => c.point_count(),
        }
    }

    pub fn contains_trace(&self, h: TraceHandle) -> (r: bool)
        requires
            self.wf(),
        ensures
            r == self.holds(h),
    {
        match self {
            Bundle::Batch(b) => b.contains_trace(h),
            Bundle::Constant(c) => c.contains_trace(h),
        }
    }

    /// Whether `point` lies in a bounded range; `false` for a bundle defined everywhere.
    pub fn contains_point(&self, point: i64) -> (r: bool)
        requires
            self.wf(),
        ensures
            r == match self.spec_range() {
                BundleRange::Bounded { from, to } => from <= point <= to,
                BundleRange::Everywhere => false,
            },
    {
        match self {
            Bundle::Batch(b) => b.contains_point(point),
            Bundle::Constant(c) => c.contains_point(point),
        }
    }

    /// Whether `[x_from, x_to]` overlaps the range; `true` for a bundle defined everywhere.
    pub fn intersects(&self, x_from: i64, x_to: i64) -> (r: bool)
        requires
            self.wf(),
        ensures
            r == match self.spec_range() {
                BundleRange::Bounded { from, to } => from <= x_to && to >= x_from,
                BundleRange::Everywhere => true,
            },
    {
        match self {
            Bundle::Batch(b) => b.intersects(x_from, x_to),
            Bundle::Constant(c) => c.intersects(x_from, x_to),
        }
    }

    /// The samples of trace `h` within `x_range` (see the storage forms).
    pub fn iter_in_range(&self, h: TraceHandle, x_range: NumericRange) -> (r: Vec<(i64, Y)>)
        requires
            self.wf(),
        ensures
            match self {
                Bundle::Batch(b) => r@ == if b.column(h) < 0 {
                    Seq::empty()
                } else {
                    b.samples(h).filter(crate::batch::within(x_range))
                },
                Bundle::Constant(c) => r@ == if c.holds(h) && x_range.from <= x_range.to {
                    seq![(x_range.from, c.value_of(h)), (x_range.to, c.value_of(h))]
                } else {
                    Seq::empty()
                },
            },
    {
        match self {
            Bundle::Batch(b) => b.iter_in_range(h, x_range),
            Bundle::Constant(c) => c.iter_in_range(h, x_range),
        }
    }

    /// The samples of trace `h` within `x_range` and one on each side of it.
    pub fn iter_in_range_with_neighbors(&self, h: TraceHandle, x_range: NumericRange) -> (r: Vec<
        (i64, Y),
    >)
        requires
            self.wf(),
        ensures
            match self {
                Bundle::Batch(b) => r@ == if b.column(h) < 0 {
                    Seq::empty()
                } else {
                    b.samples(h).subrange(
                        b.neighbor_window(x_range).0,
                        b.neighbor_window(x_range).1,
                    )
                },
                Bundle::Constant(c) => r@ == if c.holds(h) {
                    seq![(x_range.from, c.value_of(h)), (x_range.to, c.value_of(h))]
                } else {
                    Seq::empty()
                },
            },
    {
        match self {
            Bundle::Batch(b) => b.iter_in_range_with_neighbors(h, x_range),
            Bundle::Constant(c) => c.iter_in_range_with_neighbors(h, x_range),
        }
    }

    /// `r` is what a multi-trace walk over `hs` within `x_range` yields: for a
    /// batch, one row `(x, [y of each trace])` for each x in the range, in x
    /// order; for constants, a row at each end of the range. Traces the
    /// bundle does not hold give no column.
    pub open spec fn many_rows(&self, hs: Seq<TraceHandle>, x_range: NumericRange, r: Seq<
        (i64, Vec<Y>),
    >) -> bool {
        match self {
            Bundle::Batch(b) => {
                &&& forall|k: int| 0 <= k < r.len() ==> b.row_ok(hs, x_range, k, #[trigger] r[k])
                &&& ({
                    let end = count_below(b.xs(), x_range.from as int) + r.len();
                    end == b.xs().len() || b.xs()[end] > x_range.to
                })
            },
            Bundle::Constant(c) => {
                &&& r.len() == 2
                &&& r[0].0 == x_range.from
                &&& r[1].0 == x_range.to
                &&& r[0].1@ == c.known_values(hs)
                &&& r[1].1@ == c.known_values(hs)
            },
        }
    }

    /// The rows `(x, [y of each trace of hs])` within `x_range`.
    pub fn iter_many_in_range(&self, hs: &Vec<TraceHandle>, x_range: NumericRange) -> (r: Vec<
        (i64, Vec<Y>),
    >)
        requires
            self.wf(),
        ensures
            self.many_rows(hs@, x_range, r@),
    {
        match self {
            Bundle::Batch(b) => {
                let r = b.iter_many_in_range(hs, x_range);
                r
            },
            Bundle::Constant(c) => c.iter_many_in_range(hs, x_range),
        }
    }

    /// The walk of trace `h` that a stacked layer is built from: the samples
    /// in `x_range` with one neighbour on each side; for a constant, its value
    /// at both ends of the range, or at `from` alone when the range is a
    /// single point or reversed. Its x coordinates always ascend strictly.
    pub fn stack_layer(&self, h: TraceHandle, x_range: NumericRange) -> (r: Vec<(i64, Y)>)
        requires
            self.wf(),
        ensures
            strictly_ascending(xs_of(r@)),
            match self {
                Bundle::Batch(b) => r@ == if b.column(h) < 0 {
                    Seq::empty()
                } else {
                    b.samples(h).subrange(
                        b.neighbor_window(x_range).0,
                        b.neighbor_window(x_range).1,
                    )
                },
                Bundle::Constant(c) => r@ == if !c.holds(h) {
                    Seq::empty()
                } else if x_range.from < x_range.to {
                    seq![(x_range.from, c.value_of(h)), (x_range.to, c.value_of(h))]
                } else {
                    seq![(x_range.from, c.value_of(h))]
                },
            },
    {
        match self {
            Bundle::Batch(b) => {
                let r = b.iter_in_range_with_neighbors(h, x_range);
                proof {
                    if b.column(h) >= 0 {
                        let (w0, w1) = b.neighbor_window(x_range);
                        lemma_neighbor_window_bounds(*b, x_range);
                        assert forall|p: int, q: int|
                            0 <= p < q < xs_of(r@).len() implies xs_of(r@)[p] < xs_of(r@)[q] by {
                            assert(xs_of(r@)[p] == b.xs()[w0 + p]);
                            assert(xs_of(r@)[q] == b.xs()[w0 + q]);
                        }
                    }
                }
                r
            },
            Bundle::Constant(c) => {
                let mut r = c.iter_in_range_with_neighbors(h, x_range);
                if x_range.from >= x_range.to {
                    r.truncate(1);
                }
                proof {
                    if c.holds(h) && x_range.from >= x_range.to {
                        assert(r@ =~= seq![(x_range.from, c.value_of(h))]);
                    }
                }
                r
            },
        }
    }

    /// Point query at `x`.
    pub fn value_at(&self, h: TraceHandle, x: i64, strategy: InterpolationStrategy) -> (r: Option<
        PointValue<Y>,
    >)
        requires
            self.wf(),
        ensures
            r == match self {
                Bundle::Batch(b) => b.spec_value_at(h, x, strategy),
                Bundle::Constant(c) => if c.holds(h) {
                    Some(PointValue::Sample { x, y: c.value_of(h) })
                } else {
                    None::<PointValue<Y>>
                },
            },
    {
        match self {
            Bundle::Batch(b) => b.value_at(h, x, strategy),
            Bundle::Constant(c) => c.value_at(h, x, strategy),
        }
    }
}

/// The neighbour window of a batch lies within its samples.
pub proof fn lemma_neighbor_window_bounds<Y>(b: Batch<Y>, r: NumericRange)
    requires
        b.wf(),
    ensures
        0 <= b.neighbor_window(r).0 <= b.neighbor_window(r).1 <= b.xs().len(),
{
    let xs = b.xs();
    lemma_count_below_bounds(xs, r.from as int);
    lemma_count_below_bounds(xs, r.to as int);
    let lo = count_below(xs, r.from as int);
    let c = count_below(xs, r.to as int);
    if lo < xs.len() {
        let l = if lo > 0 && xs[lo] != r.from {
            lo - 1
        } else {
            lo
        };
        if r.to >= xs[l] && c < l {
            assert(xs[c] < xs[l]);
        }
    }
}

/// The first of `bundles` that holds trace `h` and whose bounded range
/// contains `x`: where a stack looks a layer up.
pub fn first_covering<Y: Copy>(bundles: &Vec<BundleRc<Y>>, h: TraceHandle, x: i64) -> (r: Option<
    usize,
>)
    requires
        forall|i: int| 0 <= i < bundles@.len() ==> (#[trigger] bundles@[i]).inner().wf(),
    ensures
        match r {
            Some(i) => {
                &&& i < bundles@.len()
                &&& bundles@[i as int].inner().covers(h, x)
                &&& forall|j: int| 0 <= j < i ==> !(#[trigger] bundles@[j]).inner().covers(h, x)
            },
            None => forall|j: int|
                0 <= j < bundles@.len() ==> !(#[trigger] bundles@[j]).inner().covers(h, x),
        },
{
    let mut i: usize = 0;
    while i < bundles.len()
        invariant
            i <= bundles@.len(),
            forall|i: int| 0 <= i < bundles@.len() ==> (#[trigger] bundles@[i]).inner().wf(),
            forall|j: int| 0 <= j < i ==> !(#[trigger] bundles@[j]).inner().covers(h, x),
        decreases bundles@.len() - i,
    {
        let b = bundles[i].unwrap();
        if b.contains_trace(h) && b.contains_point(x) {
            return Some(i);
        }
        i = i + 1;
    }
    None
}

/// Hands out bundle handles in increasing order; each container that needs
/// handles owns one, so that no state is shared across the process.
pub struct HandleSequence {
    next: u32,
}

impl HandleSequence {
    pub closed spec fn upcoming(&self) -> u32 {
        self.next
    }

    pub fn new() -> (r: HandleSequence)
        ensures
            r.upcoming() == 0,
    {
        HandleSequence { next: 0 }
    }

    /// The next handle; after `u32::MAX` the count starts again at 0.
    pub fn next_handle(&mut self) -> (r: u32)
        ensures
            r == old(self).upcoming(),
            final(self).upcoming() == if r == u32::MAX {
                0
            } else {
                (r + 1) as u32
            },
    {
        let r = self.next;
        self.next = if r == u32::MAX {
            0
        } else {
            r + 1
        };
        r
    }
}

/// A shared bundle together with the handle by which caches key it.
pub struct BundleRc<Y> {
    handle: u32,
    bundle: Rc<Bundle<Y>>,
}

impl<Y> BundleRc<Y> {
    pub closed spec fn spec_handle(&self) -> u32 {
        self.handle
    }

    pub closed spec fn inner(&self) -> Bundle<Y> {
        *self.bundle
    }
}

impl<Y: Copy> BundleRc<Y> {
    /// Wraps `bundle` under the next handle of `handles`.
    pub fn new(handles: &mut HandleSequence, bundle: Bundle<Y>) -> (r: BundleRc<Y>)
        ensures
            r.spec_handle() == old(handles).upcoming(),
            r.inner() == bundle,
            final(handles).upcoming() == if old(handles).upcoming() == u32::MAX {
                0
            } else {
                (old(handles).upcoming() + 1) as u32
            },
    {
        let handle = handles.next_handle();
        BundleRc { handle, bundle: Rc::new(bundle) }
    }

    /// A bundle already shared elsewhere, under `handle`.
    pub fn from_shared(handle: u32, bundle: Rc<Bundle<Y>>) -> (r: BundleRc<Y>)
        ensures
            r.spec_handle() == handle,
            r.inner() == *bundle,
    {
        BundleRc { handle, bundle }
    }

    /// The shared bundle, for an owner (such as a cache) that keeps only a
    /// weak reference to it.
    pub fn shared(&self) -> (r: Rc<Bundle<Y>>)
        ensures
            *r == self.inner(),
    {
        Rc::clone(&self.bundle)
    }

    /// One more owner of the same bundle, under the same handle.
    pub fn clone(&self) -> (r: BundleRc<Y>)
        ensures
            r.spec_handle() == self.spec_handle(),
            r.inner() == self.inner(),
    {
        BundleRc { handle: self.handle, bundle: Rc::clone(&self.bundle) }
    }

    pub fn handle(&self) -> (r: u32)
        ensures
            r == self.spec_handle(),
    {
        self.handle
    }

    pub fn unwrap(&self) -> (r: &Bundle<Y>)
        ensures
            *r == self.inner(),
    {
        &*self.bundle
    }

    /// The rows of a multi-trace walk that fit, whole, in a flat buffer of
    /// `space` numbers, where a row takes one number for x and one for each
    /// trace of `hs`: the first `space / (hs.len() + 1)` rows.
    pub fn export_rows(&self, hs: &Vec<TraceHandle>, x_range: NumericRange, space: usize) -> (r: Vec<
        (i64, Vec<Y>),
    >)
        requires
            self.inner().wf(),
            hs@.len() < usize::MAX,
        ensures
            exists|all: Seq<(i64, Vec<Y>)>|
                {
                    &&& #[trigger] self.inner().many_rows(hs@, x_range, all)
                    &&& r@ == all.take(
                        if all.len() < space as int / (hs@.len() as int + 1) {
                            all.len() as int
                        } else {
                            space as int / (hs@.len() as int + 1)
                        },
                    )
                },
    {
        let width = hs.len() + 1;
        let rows = space / width;
        let mut all = self.bundle.iter_many_in_range(hs, x_range);
        let ghost full = all;
        all.truncate(rows);
        proof {
            if rows > full@.len() {
                assert(all@ =~= full@.take(full@.len() as int));
            }
            assert(self.inner().many_rows(hs@, x_range, full@));
        }
        all
    }

    /// The part of `view_x_range` where the bundle holds data: all of it for a
    /// bundle defined everywhere, else its overlap with the bounded range (an
    /// empty overlap collapses to the point `from`).
    pub fn range_in_view(&self, view_x_range: NumericRange) -> (r: NumericRange)
        requires
            self.inner().wf(),
        ensures
            r == match self.inner().spec_range() {
                BundleRange::Everywhere => view_x_range,
                BundleRange::Bounded { from, to } => {
                    let f = if from > view_x_range.from {
                        from
                    } else {
                        view_x_range.from
                    };
                    let t = if to < view_x_range.to {
                        to
                    } else {
                        view_x_range.to
                    };
                    NumericRange { from: f, to: if t > f {
                        t
                    } else {
                        f
                    } }
                },
            },
    {
        match self.bundle.range() {
            BundleRange::Everywhere => view_x_range,
            BundleRange::Bounded { from, to } => {
                let f = if from > view_x_range.from {
                    from
                } else {
                    view_x_range.from
                };
                let t = if to < view_x_range.to {
                    to
                } else {
                    view_x_range.to
                };
                NumericRange { from: f, to: if t > f {
                    t
                } else {
                    f
                } }
            },
        }
    }
}

} // verus!
