use vstd::prelude::*;

use crate::batch::PointValue;
use crate::handles::{
    distinct, index_map, indexes_last, last_index_of, lemma_last_index_of_range, lookup_last,
};

use std::collections::HashMap;
use crate::range::{BundleRange, InterpolationStrategy, NumericRange, TraceHandle};

verus! {

/// Traces whose value is the same at every x (thresholds, reference lines).
pub struct ConstantBatch<Y> {
    handles: Vec<TraceHandle>,
    values: Vec<Y>,
    y_idx: HashMap<TraceHandle, usize>,
}

impl<Y> ConstantBatch<Y> {
    /// The handles, in the order of their values.
    pub closed spec fn handle_list(&self) -> Seq<TraceHandle> {
        self.handles@
    }

    pub closed spec fn value_list(&self) -> Seq<Y> {
        self.values@
    }

    /// Where each handle's value is looked up.
    pub closed spec fn value_index(&self) -> Map<TraceHandle, usize> {
        self.y_idx@
    }

    pub open spec fn wf(&self) -> bool {
        &&& self.handle_list().len() == self.value_list().len()
        &&& indexes_last(self.value_index(), self.handle_list())
    }

    pub open spec fn holds(&self, h: TraceHandle) -> bool {
        last_index_of(self.handle_list(), h) >= 0
    }

    /// The value of trace `h`; a handle given twice keeps its last value.
    pub open spec fn value_of(&self, h: TraceHandle) -> Y {
        self.value_list()[last_index_of(self.handle_list(), h)]
    }

    /// The values of the traces of `hs` that the batch holds, in the order of `hs`.
    pub open spec fn known_values(&self, hs: Seq<TraceHandle>) -> Seq<Y>
        decreases hs.len(),
    {
        if hs.len() == 0 {
            Seq::empty()
        } else if self.holds(hs.last()) {
            self.known_values(hs.drop_last()).push(self.value_of(hs.last()))
        } else {
            self.known_values(hs.drop_last())
        }
    }
}

impl<Y: Copy> ConstantBatch<Y> {
    /// Builds the batch from `(handle, value)` pairs.
    pub fn new(ys: &Vec<(TraceHandle, Y)>) -> (r: ConstantBatch<Y>)
        ensures
            r.wf(),
            r.handle_list() == ys@.map_values(|p: (TraceHandle, Y)| p.0),
            r.value_list() == ys@.map_values(|p: (TraceHandle, Y)| p.1),
    {
        let mut handles: Vec<TraceHandle> = Vec::new();
        let mut values: Vec<Y> = Vec::new();
        let mut i: usize = 0;
        while i < ys.len()
            invariant
                i <= ys@.len(),
                handles@ == ys@.take(i as int).map_values(|p: (TraceHandle, Y)| p.0),
                values@ == ys@.take(i as int).map_values(|p: (TraceHandle, Y)| p.1),
            decreases ys@.len() - i,
        {
            let (h, v) = ys[i];
            handles.push(h);
            values.push(v);
            i = i + 1;
            assert(handles@ =~= ys@.take(i as int).map_values(|p: (TraceHandle, Y)| p.0));
            assert(values@ =~= ys@.take(i as int).map_values(|p: (TraceHandle, Y)| p.1));
        }
        assert(ys@.take(ys@.len() as int) =~= ys@);
        let y_idx = index_map(&handles);
        ConstantBatch { handles, values, y_idx }
    }

    fn lookup(&self, h: TraceHandle) -> (r: Option<Y>)
        requires
            self.wf(),
        ensures
            r == if self.holds(h) {
                Some(self.value_of(h))
            } else {
                None::<Y>
            },
    {
        match lookup_last(&self.y_idx, Ghost(self.handles@), h) {
            Some(k) => Some(self.values[k]),
            None => None,
        }
    }

    /// The distinct handles of the traces held.
    pub fn traces(&self) -> (r: Vec<TraceHandle>)
        ensures
            r@.no_duplicates(),
            forall|h: TraceHandle| r@.contains(h) <==> self.handle_list().contains(h),
    {
        distinct(&self.handles)
    }

    pub fn contains_trace(&self, h: TraceHandle) -> (r: bool)
        requires
            self.wf(),
        ensures
            r == self.holds(h),
            r == self.handle_list().contains(h),
    {
        proof {
            lemma_last_index_of_range(self.handles@, h);
        }
        lookup_last(&self.y_idx, Ghost(self.handles@), h).is_some()
    }

    /// A constant is defined everywhere.
    pub fn range(&self) -> (r: BundleRange)
        ensures
            r == BundleRange::Everywhere,
    {
        BundleRange::Everywhere
    }

    /// The two samples that a range walk synthesizes.
    pub fn point_count(&self) -> (r: usize)
        ensures
            r == 2,
    {
        2
    }

    /// `false`: a bundle defined everywhere is not checked against one coordinate.
    pub fn contains_point(&self, point: i64) -> (r: bool)
        ensures
            !r,
    {
        false
    }

    /// `true`: a bundle defined everywhere meets every interval.
    pub fn intersects(&self, x_from: i64, x_to: i64) -> (r: bool)
        ensures
            r,
    {
        true
    }

    /// `[(from, v), (to, v)]` for the value `v` of trace `h`; empty when the
    /// batch does not hold `h`.
    pub fn iter_in_range_with_neighbors(&self, h: TraceHandle, x_range: NumericRange) -> (r: Vec<
        (i64, Y),
    >)
        requires
            self.wf(),
        ensures
            r@ == if self.holds(h) {
                seq![(x_range.from, self.value_of(h)), (x_range.to, self.value_of(h))]
            } else {
                Seq::empty()
            },
    {
        match self.lookup(h) {
            Some(v) => {
                let r = vec![(x_range.from, v), (x_range.to, v)];
                assert(r@ =~= seq![(x_range.from, v), (x_range.to, v)]);
                r
            },
            None => Vec::new(),
        }
    }

    /// The endpoints of `x_range` with the value of trace `h`, for a range
    /// with `from <= to`; empty otherwise and when the batch does not hold `h`.
    pub fn iter_in_range(&self, h: TraceHandle, x_range: NumericRange) -> (r: Vec<(i64, Y)>)
        requires
            self.wf(),
        ensures
            r@ == if self.holds(h) && x_range.from <= x_range.to {
                seq![(x_range.from, self.value_of(h)), (x_range.to, self.value_of(h))]
            } else {
                Seq::empty()
            },
    {
        if x_range.from <= x_range.to {
            self.iter_in_range_with_neighbors(h, x_range)
        } else {
            Vec::new()
        }
    }

    /// Two rows, `(from, values)` and `(to, values)`, with the values of the
    /// traces of `hs` that the batch holds.
    pub fn iter_many_in_range(&self, hs: &Vec<TraceHandle>, x_range: NumericRange) -> (r: Vec<
        (i64, Vec<Y>),
    >)
        requires
            self.wf(),
        ensures
            r@.len() == 2,
            r@[0].0 == x_range.from,
            r@[1].0 == x_range.to,
            r@[0].1@ == self.known_values(hs@),
            r@[1].1@ == self.known_values(hs@),
    {
        let mut ys: Vec<Y> = Vec::new();
        let mut ys2: Vec<Y> = Vec::new();
        let mut j: usize = 0;
        while j < hs.len()
            invariant
                self.wf(),
                j <= hs@.len(),
                ys@ == self.known_values(hs@.take(j as int)),
                ys2@ == ys@,
            decreases hs@.len() - j,
        {
            assert(hs@.take(j as int + 1).drop_last() =~= hs@.take(j as int));
            assert(hs@.take(j as int + 1).last() == hs@[j as int]);
            match self.lookup(hs[j]) {
                Some(v) => {
                    ys.push(v);
                    ys2.push(v);
                },
                None => {},
            }
            j = j + 1;
        }
        assert(hs@.take(hs@.len() as int) =~= hs@);
        vec![(x_range.from, ys), (x_range.to, ys2)]
    }

    /// The value of trace `h` at `x`, whatever the strategy.
    pub fn value_at(&self, h: TraceHandle, x: i64, strategy: InterpolationStrategy) -> (r: Option<
        PointValue<Y>,
    >)
        requires
            self.wf(),
        ensures
            r == if self.holds(h) {
                Some(PointValue::Sample { x, y: self.value_of(h) })
            } else {
                None::<PointValue<Y>>
            },
    {
        match self.lookup(h) {
            Some(y) => Some(PointValue::Sample { x, y }),
            None => None,
        }
    }
}

} // verus!
