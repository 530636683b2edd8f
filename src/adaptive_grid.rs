use vstd::prelude::*;

use crate::search::{
    binary_search, count_below, lemma_count_below_bounds, lemma_count_below_split, strictly_ascending,
};

verus! {

/// The arithmetic that stacking asks of a value type: each operation returns
/// what its spec function names, so the sums that stacking states are the
/// ones it computes.
pub trait StackValue: Sized {
    /// The baseline under the lowest layer.
    spec fn spec_zero() -> Self;

    /// `a + b`.
    spec fn spec_plus(a: Self, b: Self) -> Self;

    /// The value at `at` on the straight line through `(x0, y0)` and `(x1, y1)`.
    spec fn spec_lerp(x0: i64, y0: Self, x1: i64, y1: Self, at: i64) -> Self;

    /// Zero adds nothing.
    proof fn lemma_zero_plus(v: Self)
        ensures
            Self::spec_plus(Self::spec_zero(), v) == v,
    ;

    fn zero() -> (r: Self)
        ensures
            r == Self::spec_zero(),
    ;

    fn plus(&self, other: &Self) -> (r: Self)
        ensures
            r == Self::spec_plus(*self, *other),
    ;

    fn lerp(x0: i64, y0: Self, x1: i64, y1: Self, at: i64) -> (r: Self)
        ensures
            r == Self::spec_lerp(x0, y0, x1, y1, at),
    ;
}

/// Every x is at least the one before it.
pub open spec fn non_decreasing(s: Seq<i64>) -> bool {
    forall|i: int, j: int| 0 <= i < j < s.len() ==> s[i] <= s[j]
}

/// The points of `pts` without those whose x repeats the x of the point
/// before: of each run of equal x, the first point stays.
pub open spec fn distinct_points<Y>(pts: Seq<(i64, Y)>) -> Seq<(i64, Y)>
    decreases pts.len(),
{
    if pts.len() == 0 {
        pts
    } else {
        let d = distinct_points(pts.drop_last());
        if pts.len() > 1 && pts[pts.len() - 2].0 == pts.last().0 {
            d
        } else {
            d.push(pts.last())
        }
    }
}

/// The x coordinates of a sequence of points.
pub open spec fn xs_of<Y>(pts: Seq<(i64, Y)>) -> Seq<i64> {
    pts.map_values(|p: (i64, Y)| p.0)
}

/// The committed sum of the grid `(ox, oy)` at `x`: its value at a grid x,
/// the straight line between the neighbouring grid points inside the grid,
/// and zero outside it.
pub open spec fn base_at<Y: StackValue>(ox: Seq<i64>, oy: Seq<Y>, x: i64) -> Y {
    let i = count_below(ox, x as int);
    if 0 <= i < ox.len() && ox[i] == x {
        oy[i]
    } else if 0 < i < ox.len() {
        Y::spec_lerp(ox[i - 1], oy[i - 1], ox[i], oy[i], x)
    } else {
        Y::spec_zero()
    }
}

/// Whether `x` lies within the span of the grid x coordinates `ox`.
pub open spec fn within_grid(ox: Seq<i64>, x: i64) -> bool {
    ox.len() > 0 && ox[0] <= x <= ox.last()
}

/// The value of the layer `pts` at an `x` of its span: its own value at one
/// of its x, else the straight line between its neighbouring points.
pub open spec fn layer_at<Y: StackValue>(pts: Seq<(i64, Y)>, x: i64) -> Y {
    let j = count_below(xs_of(pts), x as int);
    if 0 <= j < pts.len() && pts[j].0 == x {
        pts[j].1
    } else {
        Y::spec_lerp(pts[j - 1].0, pts[j - 1].1, pts[j].0, pts[j].1, x)
    }
}

/// The sum with the layer at `x`: the committed sum plus the layer's value
/// within the grid's span, the layer's value alone outside it.
pub open spec fn stacked_at<Y: StackValue>(ox: Seq<i64>, oy: Seq<Y>, pts: Seq<(i64, Y)>, x: i64) -> Y {
    if within_grid(ox, x) {
        Y::spec_plus(base_at(ox, oy, x), layer_at(pts, x))
    } else {
        layer_at(pts, x)
    }
}

/// `v` holds, at each x of `x`, the value that `m` gives that x.
pub open spec fn tracks<Y>(x: Seq<i64>, v: Seq<Y>, m: Map<i64, Y>) -> bool {
    forall|i: int| 0 <= i < x.len() ==> m.contains_key(#[trigger] x[i]) && v[i] == m[x[i]]
}

proof fn lemma_suffix_step(a: Seq<i64>, b: Seq<i64>, i: int, j: int)
    requires
        0 <= i <= a.len(),
        0 <= j <= b.len(),
        a.subrange(i, a.len() as int) == b.subrange(j, b.len() as int),
    ensures
        a.len() - i == b.len() - j,
        i < a.len() ==> a[i] == b[j] && a.subrange(i + 1, a.len() as int) == b.subrange(
            j + 1,
            b.len() as int,
        ),
{
    let sa = a.subrange(i, a.len() as int);
    let sb = b.subrange(j, b.len() as int);
    assert(sa.len() == sb.len());
    if i < a.len() {
        assert(sa[0] == a[i]);
        assert(sb[0] == b[j]);
        let ta = a.subrange(i + 1, a.len() as int);
        let tb = b.subrange(j + 1, b.len() as int);
        assert forall|t: int| 0 <= t < ta.len() implies #[trigger] ta[t] == tb[t] by {
            assert(sa[t + 1] == sb[t + 1]);
        }
        assert(a.subrange(i + 1, a.len() as int) =~= b.subrange(j + 1, b.len() as int));
    }
}

proof fn lemma_index_sorted(s: Seq<i64>, k: int)
    requires
        strictly_ascending(s),
        0 <= k < s.len(),
    ensures
        count_below(s, s[k] as int) == k,
{
    assert forall|j: int| 0 <= j < k implies s[j] < s[k] by {}
    assert forall|j: int| k <= j < s.len() implies s[j] >= s[k] by {
        if j > k {
            assert(s[k] < s[j]);
        }
    }
    lemma_count_below_split(s, s[k] as int, k);
}

proof fn lemma_tracks_insert<Y>(x: Seq<i64>, v: Seq<Y>, m: Map<i64, Y>, i: int, key: i64, val: Y)
    requires
        tracks(x, v, m),
        x.len() == v.len(),
        0 <= i <= x.len(),
        !x.contains(key),
    ensures
        tracks(x.insert(i, key), v.insert(i, val), m.insert(key, val)),
{
    x.insert_ensures(i, key);
    v.insert_ensures(i, val);
    let nx = x.insert(i, key);
    let nv = v.insert(i, val);
    assert forall|a: int| 0 <= a < nx.len() implies m.insert(key, val).contains_key(#[trigger] nx[a])
        && nv[a] == m.insert(key, val)[nx[a]] by {
        if a < i {
            assert(nx[a] == x[a]);
            assert(x[a] != key);
        } else if a > i {
            assert(nx[a] == x[a - 1]);
            assert(nv[a] == v[a - 1]);
            assert(x[a - 1] != key);
        }
    }
}

proof fn lemma_tracks_update<Y>(x: Seq<i64>, v: Seq<Y>, m: Map<i64, Y>, i: int, val: Y)
    requires
        tracks(x, v, m),
        x.len() == v.len(),
        strictly_ascending(x),
        0 <= i < x.len(),
    ensures
        tracks(x, v.update(i, val), m.insert(x[i], val)),
{
    assert forall|a: int| 0 <= a < x.len() implies m.insert(x[i], val).contains_key(#[trigger] x[a])
        && v.update(i, val)[a] == m.insert(x[i], val)[x[a]] by {
        if a < i {
            assert(x[a] < x[i]);
        } else if a > i {
            assert(x[i] < x[a]);
        }
    }
}

/// At every x of `x` that `old_x` also holds, `y` has the value that `old_y`
/// has there.
pub open spec fn keeps_committed<Y>(x: Seq<i64>, y: Seq<Y>, old_x: Seq<i64>, old_y: Seq<Y>) -> bool {
    forall|i: int, j: int|
        #![trigger x[i], old_x[j]]
        0 <= i < x.len() && 0 <= j < old_x.len() && x[i] == old_x[j] ==> y[i] == old_y[j]
}

/// The x coordinates of `x` from `lo` to `hi`, both included, all occur in `out`.
pub open spec fn covers<Y>(out: Seq<(i64, Y, Y)>, x: Seq<i64>, lo: i64, hi: i64) -> bool {
    forall|i: int| 0 <= i < x.len() && lo <= #[trigger] x[i] <= hi ==> out_xs(out).contains(x[i])
}

/// The x coordinates of stacked output items.
pub open spec fn out_xs<Y>(out: Seq<(i64, Y, Y)>) -> Seq<i64> {
    out.map_values(|o: (i64, Y, Y)| o.0)
}

proof fn lemma_push_ascending<Y>(out: Seq<(i64, Y, Y)>, o: (i64, Y, Y))
    requires
        strictly_ascending(out_xs(out)),
        out.len() > 0 ==> out.last().0 < o.0,
    ensures
        strictly_ascending(out_xs(out.push(o))),
        out_xs(out.push(o)) == out_xs(out).push(o.0),
        forall|v: i64| out_xs(out).contains(v) ==> out_xs(out.push(o)).contains(v),
        out_xs(out.push(o)).contains(o.0),
{
    let s = out_xs(out);
    assert(out_xs(out.push(o)) =~= s.push(o.0));
    if out.len() > 0 {
        assert(s[s.len() - 1] == out.last().0);
    }
    lemma_insert_point(s, s.len() as int, o.0);
    assert(s.insert(s.len() as int, o.0) =~= s.push(o.0));
    assert(s.push(o.0)[s.len() as int] == o.0);
}

/// `a` holds exactly the values that `b` or `c` hold.
pub open spec fn is_union(a: Seq<i64>, b: Seq<i64>, c: Seq<i64>) -> bool {
    forall|v: i64| a.contains(v) <==> (b.contains(v) || c.contains(v))
}

proof fn lemma_insert_point(s: Seq<i64>, i: int, v: i64)
    requires
        0 <= i <= s.len(),
        strictly_ascending(s),
        i > 0 ==> s[i - 1] < v,
        i < s.len() ==> v < s[i],
    ensures
        strictly_ascending(s.insert(i, v)),
        forall|w: i64| s.insert(i, v).contains(w) <==> (s.contains(w) || w == v),
        s.insert(i, v).len() == s.len() + 1,
        s.insert(i, v)[i] == v,
        forall|j: int| 0 <= j < i ==> s.insert(i, v)[j] == s[j],
        forall|j: int| i <= j < s.len() ==> s.insert(i, v)[j + 1] == s[j],
{
    let t = s.insert(i, v);
    s.insert_ensures(i, v);
    assert forall|a: int, b: int| 0 <= a < b < t.len() implies t[a] < t[b] by {
        if a < i && b < i {
            assert(s[a] < s[b]);
        } else if a < i && b == i {
            if a < i - 1 {
                assert(s[a] < s[i - 1]);
            }
        } else if a < i {
            assert(t[b] == s[b - 1]);
            if a < b - 1 {
                assert(s[a] < s[b - 1]);
            }
        } else if a == i {
            assert(t[b] == s[b - 1]);
            if b - 1 > i {
                assert(s[i] < s[b - 1]);
            }
        } else {
            assert(t[a] == s[a - 1]);
            assert(t[b] == s[b - 1]);
            assert(s[a - 1] < s[b - 1]);
        }
    }
    assert forall|w: i64| t.contains(w) implies (s.contains(w) || w == v) by {
        let j = choose|j: int| 0 <= j < t.len() && t[j] == w;
        if j < i {
            assert(s[j] == w);
        } else if j > i {
            assert(s[j - 1] == w);
        }
    }
    assert forall|w: i64| (s.contains(w) || w == v) implies t.contains(w) by {
        if w == v {
            assert(t[i] == w);
        } else {
            let j = choose|j: int| 0 <= j < s.len() && s[j] == w;
            if j < i {
                assert(t[j] == w);
            } else {
                assert(t[j + 1] == w);
            }
        }
    }
}

proof fn lemma_take_contains(s: Seq<i64>, k: int)
    requires
        0 <= k < s.len(),
    ensures
        forall|w: i64| s.take(k + 1).contains(w) <==> (s.take(k).contains(w) || w == s[k]),
{
    assert(s.take(k + 1) =~= s.take(k).push(s[k]));
    assert forall|w: i64| s.take(k + 1).contains(w) implies (s.take(k).contains(w) || w == s[k]) by {
        let t = s.take(k + 1);
        let j = choose|j: int| 0 <= j < t.len() && t[j] == w;
        if j < k {
            assert(s.take(k)[j] == w);
        }
    }
    assert forall|w: i64| (s.take(k).contains(w) || w == s[k]) implies s.take(k + 1).contains(w) by {
        if w == s[k] {
            assert(s.take(k + 1)[k] == w);
        } else {
            let t = s.take(k);
            let j = choose|j: int| 0 <= j < t.len() && t[j] == w;
            assert(s.take(k + 1)[j] == w);
        }
    }
}

/// A growing set of x coordinates shared by the layers of a stacked chart,
/// with the committed cumulative sum `y` under the next layer and the sum
/// `overlay` that the current layer is building.
pub struct AdaptiveGrid<Y> {
    x: Vec<i64>,
    y: Vec<Y>,
    overlay: Vec<Y>,
    layers: usize,
}

impl<Y> AdaptiveGrid<Y> {
    pub closed spec fn xs(&self) -> Seq<i64> {
        self.x@
    }

    pub closed spec fn ys(&self) -> Seq<Y> {
        self.y@
    }

    pub closed spec fn overlay_values(&self) -> Seq<Y> {
        self.overlay@
    }

    pub closed spec fn layer_count(&self) -> nat {
        self.layers as nat
    }

    pub open spec fn wf(&self) -> bool {
        &&& strictly_ascending(self.xs())
        &&& self.ys().len() == self.xs().len()
        &&& self.overlay_values().len() == self.xs().len()
    }

    /// No layer is half added: the overlay equals the committed sums.
    pub open spec fn committed(&self) -> bool {
        self.ys() == self.overlay_values()
    }
}

impl<Y: Copy + StackValue> AdaptiveGrid<Y> {
    /// An empty grid.
    pub fn new() -> (r: AdaptiveGrid<Y>)
        ensures
            r.wf(),
            r.committed(),
            r.xs().len() == 0,
            r.layer_count() == 0,
    {
        let r = AdaptiveGrid { x: Vec::new(), y: Vec::new(), overlay: Vec::new(), layers: 0 };
        assert(r.y@ =~= r.overlay@);
        r
    }

    /// An empty grid with room for `capacity` points.
    pub fn with_capacity(capacity: usize) -> (r: AdaptiveGrid<Y>)
        ensures
            r.wf(),
            r.committed(),
            r.xs().len() == 0,
            r.layer_count() == 0,
    {
        let r = AdaptiveGrid {
            x: Vec::with_capacity(capacity),
            y: Vec::with_capacity(capacity),
            overlay: Vec::with_capacity(capacity),
            layers: 0,
        };
        assert(r.y@ =~= r.overlay@);
        r
    }

    /// The committed point at `idx`.
    pub fn point_at(&self, idx: usize) -> (r: (i64, Y))
        requires
            self.wf(),
            idx < self.xs().len(),
        ensures
            r == (self.xs()[idx as int], self.ys()[idx as int]),
    {
        (self.x[idx], self.y[idx])
    }

    /// Number of layers committed so far.
    pub fn layers(&self) -> (r: usize)
        ensures
            r == self.layer_count(),
    {
        self.layers
    }

    /// Commits the overlay as the baseline of the next layer.
    pub fn merge_overlay(&mut self)
        requires
            old(self).wf(),
            old(self).layer_count() < usize::MAX,
        ensures
            final(self).wf(),
            final(self).xs() == old(self).xs(),
            final(self).overlay_values() == old(self).overlay_values(),
            final(self).ys() == old(self).overlay_values(),
            final(self).committed(),
            final(self).layer_count() == old(self).layer_count() + 1,
    {
        self.layers = self.layers + 1;
        let mut i: usize = 0;
        while i < self.y.len()
            invariant
                i <= self.y@.len(),
                self.y@.len() == self.overlay@.len(),
                self.overlay@ == old(self).overlay@,
                self.x@ == old(self).x@,
                self.layers == old(self).layers + 1,
                forall|j: int| 0 <= j < i ==> self.y@[j] == self.overlay@[j],
            decreases self.y@.len() - i,
        {
            let v = self.overlay[i];
            self.y.set(i, v);
            i = i + 1;
        }
        assert(self.y@ =~= self.overlay@);
    }

    /// Inserts the point `(v, prior)` at `i`, with `total` as its overlay.
    fn insert_point(
        &mut self,
        i: usize,
        v: i64,
        prior: Y,
        total: Y,
        Ghost(old_x): Ghost<Seq<i64>>,
        Ghost(old_y): Ghost<Seq<Y>>,
        Ghost(om): Ghost<Map<i64, Y>>,
    )
        requires
            old(self).wf(),
            i <= old(self).xs().len(),
            i > 0 ==> old(self).xs()[i - 1] < v,
            i < old(self).xs().len() ==> v < old(self).xs()[i as int],
            forall|w: i64| old_x.contains(w) ==> old(self).xs().contains(w),
            keeps_committed(old(self).xs(), old(self).ys(), old_x, old_y),
            tracks(old(self).xs(), old(self).overlay_values(), om),
        ensures
            final(self).wf(),
            final(self).xs() == old(self).xs().insert(i as int, v),
            final(self).layer_count() == old(self).layer_count(),
            forall|w: i64|
                final(self).xs().contains(w) <==> (old(self).xs().contains(w) || w == v),
            keeps_committed(final(self).xs(), final(self).ys(), old_x, old_y),
            tracks(final(self).xs(), final(self).overlay_values(), om.insert(v, total)),
            !old_x.contains(v),
    {
        proof {
            lemma_insert_point(self.x@, i as int, v);
            let s = self.x@;
            if s.contains(v) {
                let j = choose|j: int| 0 <= j < s.len() && s[j] == v;
                if j < i {
                    if j < i - 1 {
                        assert(s[j] < s[i - 1]);
                    }
                } else {
                    if j > i {
                        assert(s[i as int] < s[j]);
                    }
                }
            }
            lemma_tracks_insert(self.x@, self.overlay@, om, i as int, v, total);
        }
        let ghost ys = self.y@;
        self.x.insert(i, v);
        self.y.insert(i, prior);
        self.overlay.insert(i, total);
        proof {
            ys.insert_ensures(i as int, prior);
            let nx = self.x@;
            let ny = self.y@;
            assert forall|a: int, j: int|
                #![trigger nx[a], old_x[j]]
                0 <= a < nx.len() && 0 <= j < old_x.len() && nx[a] == old_x[j] implies ny[a]
                == old_y[j] by {
                if a == i {
                    assert(old_x.contains(old_x[j]));
                } else if a > i {
                    assert(nx[a] == old(self).x@[a - 1]);
                    assert(ny[a] == ys[a - 1]);
                }
            }
        }
    }

    /// Adds one layer: the points `pts`, in ascending x, are stacked on the
    /// committed sum. A point whose x repeats the x of the point before is a
    /// step of zero length and changes nothing; the rest is the layer `d`
    /// below. Every incoming x joins the grid. At a grid x the layer lacks,
    /// the layer's value is interpolated between its neighbouring points; at
    /// an incoming x the grid lacks, the committed sum is interpolated between
    /// the neighbouring points the grid had before this layer (0 outside the
    /// grid). One item `(x, sum below the layer, sum with the layer)` is
    /// handed back for each grid x from the layer's first x to its last, in
    /// order, and the sum with the layer is always the sum below plus the
    /// layer's value. The layer's sums are committed before returning, so the
    /// next layer stacks on this one; grid points outside the layer's span
    /// keep their sums.
    pub fn sum_add_points(&mut self, pts: &Vec<(i64, Y)>) -> (out: Vec<(i64, Y, Y)>)
        requires
            old(self).wf(),
            old(self).committed(),
            old(self).layer_count() < usize::MAX,
            non_decreasing(xs_of(pts@)),
        ensures
            final(self).wf(),
            final(self).committed(),
            is_union(final(self).xs(), old(self).xs(), xs_of(pts@)),
            final(self).layer_count() == old(self).layer_count() + 1,
            out@.len() >= distinct_points(pts@).len(),
            old(self).xs().len() == 0 ==> {
                let d = distinct_points(pts@);
                &&& out@.len() == d.len()
                &&& forall|j: int|
                    0 <= j < d.len() ==> #[trigger] out@[j] == (d[j].0, Y::spec_zero(), d[j].1)
            },
            strictly_ascending(out_xs(out@)),
            forall|j: int| 0 <= j < out@.len() ==> final(self).xs().contains(#[trigger] out@[j].0),
            forall|v: i64| xs_of(pts@).contains(v) ==> out_xs(out@).contains(v),
            pts@.len() > 0 ==> covers(out@, final(self).xs(), pts@[0].0, pts@.last().0),
            pts@.len() > 0 ==> forall|j: int|
                0 <= j < out@.len() ==> pts@[0].0 <= #[trigger] out@[j].0 <= pts@.last().0,
            forall|j: int|
                0 <= j < out@.len() ==> {
                    let d = distinct_points(pts@);
                    &&& (#[trigger] out@[j]).1 == base_at(old(self).xs(), old(self).ys(), out@[j].0)
                    &&& out@[j].2 == stacked_at(old(self).xs(), old(self).ys(), d, out@[j].0)
                    &&& out@[j].2 == Y::spec_plus(out@[j].1, layer_at(d, out@[j].0))
                },
            forall|j: int, i: int|
                #![trigger out@[j], final(self).xs()[i]]
                0 <= j < out@.len() && 0 <= i < final(self).xs().len() && final(self).xs()[i]
                    == out@[j].0 ==> final(self).ys()[i] == out@[j].2,
            pts@.len() > 0 ==> forall|i: int, j: int|
                #![trigger final(self).xs()[i], old(self).xs()[j]]
                0 <= i < final(self).xs().len() && 0 <= j < old(self).xs().len()
                    && final(self).xs()[i] == old(self).xs()[j] && (old(self).xs()[j] < pts@[0].0
                    || old(self).xs()[j] > pts@.last().0) ==> final(self).ys()[i]
                    == old(self).ys()[j],
    {
        let layer = distinct_layer(pts);
        let ghost d = layer@;
        let ghost ox = self.x@;
        let ghost oy = self.y@;
        let out = self.add_layer(&layer);
        proof {
            assert forall|j: int| 0 <= j < out@.len() implies out@[j].2 == Y::spec_plus(
                (#[trigger] out@[j]).1,
                layer_at(d, out@[j].0),
            ) by {
                let x = out@[j].0;
                if !within_grid(ox, x) {
                    lemma_count_below_bounds(ox, x as int);
                    if ox.len() > 0 && x > ox.last() {
                        assert(ox[ox.len() - 1] < x);
                    }
                    Y::lemma_zero_plus(layer_at(d, x));
                }
            }
            assert forall|v: i64| xs_of(pts@).contains(v) implies out_xs(out@).contains(v) by {
                assert(xs_of(d).contains(v));
                let j = choose|j: int| 0 <= j < d.len() && xs_of(d)[j] == v;
                assert(d[j].0 == v);
            }
        }
        out
    }

    /// Stacks a layer whose x coordinates ascend strictly.
    #[verifier::rlimit(100)]
    fn add_layer(&mut self, pts: &Vec<(i64, Y)>) -> (out: Vec<(i64, Y, Y)>)
        requires
            old(self).wf(),
            old(self).committed(),
            old(self).layer_count() < usize::MAX,
            strictly_ascending(xs_of(pts@)),
        ensures
            final(self).wf(),
            final(self).committed(),
            is_union(final(self).xs(), old(self).xs(), xs_of(pts@)),
            final(self).layer_count() == old(self).layer_count() + 1,
            out@.len() >= pts@.len(),
            old(self).xs().len() == 0 ==> out@.len() == pts@.len() && forall|j: int|
                0 <= j < pts@.len() ==> #[trigger] out@[j] == (pts@[j].0, Y::spec_zero(), pts@[j].1),
            strictly_ascending(out_xs(out@)),
            forall|j: int| 0 <= j < out@.len() ==> final(self).xs().contains(#[trigger] out@[j].0),
            forall|j: int| 0 <= j < pts@.len() ==> out_xs(out@).contains(#[trigger] pts@[j].0),
            pts@.len() > 0 ==> covers(out@, final(self).xs(), pts@[0].0, pts@.last().0),
            pts@.len() > 0 ==> forall|j: int|
                0 <= j < out@.len() ==> pts@[0].0 <= #[trigger] out@[j].0 <= pts@.last().0,
            forall|j: int|
                0 <= j < out@.len() ==> {
                    &&& (#[trigger] out@[j]).1 == base_at(old(self).xs(), old(self).ys(), out@[j].0)
                    &&& out@[j].2 == stacked_at(old(self).xs(), old(self).ys(), pts@, out@[j].0)
                },
            forall|j: int, i: int|
                #![trigger out@[j], final(self).xs()[i]]
                0 <= j < out@.len() && 0 <= i < final(self).xs().len() && final(self).xs()[i]
                    == out@[j].0 ==> final(self).ys()[i] == out@[j].2,
            pts@.len() > 0 ==> forall|i: int, j: int|
                #![trigger final(self).xs()[i], old(self).xs()[j]]
                0 <= i < final(self).xs().len() && 0 <= j < old(self).xs().len()
                    && final(self).xs()[i] == old(self).xs()[j] && (old(self).xs()[j] < pts@[0].0
                    || old(self).xs()[j] > pts@.last().0) ==> final(self).ys()[i]
                    == old(self).ys()[j],
    {
        let ghost old_x = self.x@;
        let ghost old_y = self.y@;
        let ghost px = xs_of(pts@);
        let ghost p = pts@;
        let ghost mut om = Map::<i64, Y>::new(
            |key: i64| old_x.contains(key),
            |key: i64| old_y[count_below(old_x, key as int)],
        );
        proof {
            assert forall|i: int| 0 <= i < old_x.len() implies om.contains_key(#[trigger] old_x[i])
                && self.overlay@[i] == om[old_x[i]] by {
                lemma_index_sorted(old_x, i);
                assert(old_x.contains(old_x[i]));
            }
        }
        let n = pts.len();
        let mut out: Vec<(i64, Y, Y)> = Vec::new();
        let mut k: usize = 0;
        let mut gi: usize = 0;
        let ghost mut og: int = 0;
        let mut prev: Option<(i64, Y)> = None;
        let mut left_old: Option<(i64, Y)> = None;
        assert(px.take(0) =~= Seq::<i64>::empty());
        if n > 0 && self.x.len() > 0 {
            let first = pts[0].0;
            proof {
                lemma_count_below_bounds(self.x@, first as int);
            }
            let start = match binary_search(&self.x, first) {
                Ok(i) => i,
                Err(i) => i,
            };
            if start > 0 {
                gi = start;
                proof {
                    og = start as int;
                }
                left_old = Some((self.x[start - 1], self.y[start - 1]));
            } else if self.x[0] == first {
                gi = 0;
            } else {
                let until = self.x[0];
                while k < n && pts[k].0 < until
                    invariant
                        self.wf(),
                        0 <= k <= n,
                        n == pts@.len(),
                        p == pts@,
                        strictly_ascending(old_x),
                        old_x.len() == old_y.len(),
                        px == xs_of(pts@),
                        strictly_ascending(px),
                        self.xs().len() == old_x.len() + k,
                        old_x.len() > 0,
                        n > 0,
                        px[0] < until,
                        until == old_x[0],
                        self.xs().subrange(k as int, self.xs().len() as int) == old_x,
                        k > 0 ==> self.xs()[k - 1] == px[k - 1],
                        k > 0 <==> prev.is_some(),
                        k > 0 ==> prev == Some(p[k - 1]),
                        forall|i: int| 0 <= i < k ==> #[trigger] self.xs()[i] == px[i],
                        forall|i: int|
                            0 <= i < k ==> out_xs(out@).contains(#[trigger] self.xs()[i]),
                        forall|j: int|
                            0 <= j < out@.len() ==> px[0] <= #[trigger] out@[j].0 <= px[n - 1],
                        is_union(self.xs(), old_x, px.take(k as int)),
                        keeps_committed(self.xs(), self.ys(), old_x, old_y),
                        tracks(self.xs(), self.overlay_values(), om),
                        forall|j: int| 0 <= j < out@.len() ==> om[(#[trigger] out@[j]).0] == out@[j].2,
                        forall|j: int|
                            0 <= j < old_x.len() && !out_xs(out@).contains(#[trigger] old_x[j])
                                ==> om[old_x[j]] == old_y[j],
                        forall|j: int|
                            0 <= j < out@.len() ==> {
                                &&& (#[trigger] out@[j]).1 == base_at(old_x, old_y, out@[j].0)
                                &&& out@[j].2 == stacked_at(old_x, old_y, p, out@[j].0)
                            },
                        out@.len() == k,
                        strictly_ascending(out_xs(out@)),
                        k > 0 ==> out@.last().0 == px[k - 1],
                        forall|j: int| 0 <= j < k ==> out_xs(out@).contains(#[trigger] px[j]),
                        forall|j: int|
                            0 <= j < out@.len() ==> self.xs().contains(#[trigger] out@[j].0),
                        self.layer_count() == old(self).layer_count(),
                    decreases n - k,
                {
                    let (v, y) = pts[k];
                    proof {
                        if k > 0 {
                            assert(px[k - 1] < px[k as int]);
                        }
                        lemma_take_contains(px, k as int);
                        lemma_index_sorted(px, k as int);
                        assert(px[k as int] == v);
                        assert forall|j: int| 0 <= j < old_x.len() implies old_x[j] > v by {
                            if j > 0 {
                                assert(old_x[0] < old_x[j]);
                            }
                        }
                        lemma_count_below_split(old_x, v as int, 0);
                        assert(self.x@[k as int] == old_x[0]);
                    }
                    let zero: Y = StackValue::zero();
                    self.insert_point(k, v, zero, y, Ghost(old_x), Ghost(old_y), Ghost(om));
                    let item = (v, zero, y);
                    proof {
                        lemma_push_ascending(out@, item);
                        om = om.insert(v, y);
                        assert(self.x@.subrange(k + 1, self.x@.len() as int) =~= old_x);
                    }
                    out.push(item);
                    prev = Some((v, y));
                    k = k + 1;
                }
                proof {
                    if k == 0 {
                        assert(px[0] == pts@[0].0);
                    }
                }
                gi = k;
                proof {
                    assert(old_x.subrange(0, old_x.len() as int) =~= old_x);
                }
            }
        }
        proof {
            if !(n > 0 && old_x.len() > 0) {
                assert(self.x@.subrange(0, self.x@.len() as int) =~= old_x);
            } else if og > 0 || k == 0 {
                assert(self.x@.subrange(gi as int, self.x@.len() as int) =~= old_x.subrange(
                    og,
                    old_x.len() as int,
                ));
            }
        }
        while k < n
            invariant
                self.wf(),
                k <= n,
                n == pts@.len(),
                p == pts@,
                strictly_ascending(old_x),
                old_x.len() == old_y.len(),
                px == xs_of(pts@),
                strictly_ascending(px),
                gi <= self.xs().len(),
                0 <= og <= old_x.len(),
                self.xs().subrange(gi as int, self.xs().len() as int) == old_x.subrange(
                    og,
                    old_x.len() as int,
                ),
                left_old == (if og > 0 {
                    Some((old_x[og - 1], old_y[og - 1]))
                } else {
                    None::<(i64, Y)>
                }),
                og > 0 ==> gi > 0 && self.xs()[gi - 1] >= old_x[og - 1],
                k < n && og == 0 && gi < self.xs().len() ==> px[k as int] >= self.xs()[gi as int],
                is_union(self.xs(), old_x, px.take(k as int)),
                keeps_committed(self.xs(), self.ys(), old_x, old_y),
                tracks(self.xs(), self.overlay_values(), om),
                forall|j: int| 0 <= j < out@.len() ==> om[(#[trigger] out@[j]).0] == out@[j].2,
                forall|j: int|
                    0 <= j < old_x.len() && !out_xs(out@).contains(#[trigger] old_x[j]) ==> om[old_x[j]]
                        == old_y[j],
                forall|j: int|
                    0 <= j < out@.len() ==> {
                        &&& (#[trigger] out@[j]).1 == base_at(old_x, old_y, out@[j].0)
                        &&& out@[j].2 == stacked_at(old_x, old_y, p, out@[j].0)
                    },
                k > 0 <==> prev.is_some(),
                k > 0 ==> prev == Some(p[k - 1]),
                k > 0 ==> gi > 0 && self.xs()[gi - 1] >= px[k - 1],
                n > 0 ==> forall|i: int|
                    0 <= i < gi && self.xs()[i] >= px[0] ==> out_xs(out@).contains(
                        #[trigger] self.xs()[i],
                    ),
                n > 0 ==> forall|j: int|
                    0 <= j < out@.len() ==> px[0] <= #[trigger] out@[j].0 <= px[n - 1],
                k < n && gi > 0 ==> self.xs()[gi - 1] < px[k as int],
                k < n && prev.is_none() && gi < self.xs().len() ==> px[k as int] <= self.xs()[gi as int],
                out@.len() >= k,
                old_x.len() == 0 ==> out@.len() == k && forall|j: int|
                    0 <= j < k ==> #[trigger] out@[j] == (p[j].0, Y::spec_zero(), p[j].1),
                strictly_ascending(out_xs(out@)),
                out@.len() > 0 && k < n ==> out@.last().0 < px[k as int],
                out@.len() > 0 && gi < self.xs().len() ==> out@.last().0 < self.xs()[gi as int],
                forall|j: int| 0 <= j < k ==> out_xs(out@).contains(#[trigger] px[j]),
                forall|j: int|
                    0 <= j < out@.len() ==> self.xs().contains(#[trigger] out@[j].0),
                self.layer_count() == old(self).layer_count(),
            decreases 2 * (n - k) + (self.xs().len() - gi),
        {
            let (v, y) = pts[k];
            proof {
                lemma_take_contains(px, k as int);
                lemma_index_sorted(px, k as int);
                assert(px[k as int] == v);
                if k + 1 < n {
                    assert(px[k as int] < px[k + 1]);
                }
                lemma_suffix_step(self.x@, old_x, gi as int, og);
                if gi < self.x@.len() {
                    assert(self.x@[gi as int] == old_x[og]);
                    lemma_index_sorted(old_x, og);
                }
            }
            if gi >= self.x.len() {
                proof {
                    assert(old_x.subrange(og, old_x.len() as int).len() == 0);
                    assert forall|j: int| 0 <= j < old_x.len() implies old_x[j] < v by {
                        if j < og - 1 {
                            assert(old_x[j] < old_x[og - 1]);
                        }
                    }
                    lemma_count_below_split(old_x, v as int, old_x.len() as int);
                }
                let at = self.x.len();
                let zero: Y = StackValue::zero();
                self.insert_point(at, v, zero, y, Ghost(old_x), Ghost(old_y), Ghost(om));
                let item = (v, zero, y);
                proof {
                    lemma_push_ascending(out@, item);
                    om = om.insert(v, y);
                    og = old_x.len() as int;
                }
                out.push(item);
                prev = Some((v, y));
                k = k + 1;
                gi = self.x.len();
            } else {
                let grid_x = self.x[gi];
                let grid_y = self.y[gi];
                if v < grid_x {
                    let (lx, ly) = match left_old {
                        Some(q) => q,
                        None => {
                            proof {
                                assert(false);
                            }
                            (grid_x, grid_y)
                        },
                    };
                    proof {
                        assert forall|j: int| 0 <= j < og implies old_x[j] < v by {
                            if j < og - 1 {
                                assert(old_x[j] < old_x[og - 1]);
                            }
                        }
                        assert forall|j: int| og <= j < old_x.len() implies old_x[j] >= v by {
                            if j > og {
                                assert(old_x[og] < old_x[j]);
                            }
                        }
                        lemma_count_below_split(old_x, v as int, og);
                        assert(old_x.contains(old_x[og]));
                    }
                    let prior = StackValue::lerp(lx, ly, grid_x, grid_y, v);
                    let total = prior.plus(&y);
                    self.insert_point(gi, v, prior, total, Ghost(old_x), Ghost(old_y), Ghost(om));
                    let item = (v, prior, total);
                    proof {
                        lemma_push_ascending(out@, item);
                        om = om.insert(v, total);
                        assert(self.x@.subrange(gi + 1, self.x@.len() as int) =~= old_x.subrange(
                            og,
                            old_x.len() as int,
                        ));
                    }
                    out.push(item);
                    prev = Some((v, y));
                    k = k + 1;
                    gi = gi + 1;
                } else if v == grid_x {
                    let total = grid_y.plus(&y);
                    proof {
                        lemma_tracks_update(self.x@, self.overlay@, om, gi as int, total);
                        om = om.insert(grid_x, total);
                    }
                    self.overlay.set(gi, total);
                    let item = (grid_x, grid_y, total);
                    proof {
                        lemma_push_ascending(out@, item);
                        assert(old_x[og] == grid_x);
                        og = og + 1;
                    }
                    out.push(item);
                    left_old = Some((grid_x, grid_y));
                    prev = Some((v, y));
                    k = k + 1;
                    gi = gi + 1;
                } else {
                    let (qx, qy) = match prev {
                        Some(q) => q,
                        None => {
                            // a grid point ahead of the layer's first point is
                            // never reached before that point has been consumed
                            proof {
                                assert(false);
                            }
                            (v, y)
                        },
                    };
                    proof {
                        assert forall|j: int| 0 <= j < k implies px[j] < grid_x by {
                            if j < k - 1 {
                                assert(px[j] < px[k - 1]);
                            }
                            assert(self.x@[gi - 1] < self.x@[gi as int]);
                        }
                        assert forall|j: int| k <= j < n implies px[j] >= grid_x by {
                            if j > k {
                                assert(px[k as int] < px[j]);
                            }
                        }
                        lemma_count_below_split(px, grid_x as int, k as int);
                        assert(p[k - 1].0 == px[k - 1]);
                    }
                    let layer_y = StackValue::lerp(qx, qy, v, y, grid_x);
                    let total = grid_y.plus(&layer_y);
                    proof {
                        lemma_tracks_update(self.x@, self.overlay@, om, gi as int, total);
                        om = om.insert(grid_x, total);
                    }
                    self.overlay.set(gi, total);
                    let item = (grid_x, grid_y, total);
                    proof {
                        lemma_push_ascending(out@, item);
                        assert(old_x[og] == grid_x);
                        og = og + 1;
                    }
                    out.push(item);
                    left_old = Some((grid_x, grid_y));
                    gi = gi + 1;
                }
            }
        }
        proof {
            assert(px.take(n as int) =~= px);
            assert forall|j: int| 0 <= j < pts@.len() implies out_xs(out@).contains(
                #[trigger] pts@[j].0,
            ) by {
                assert(px[j] == pts@[j].0);
            }
        }
        self.merge_overlay();
        out
    }
}



proof fn lemma_push_contains(s: Seq<i64>, x: i64)
    ensures
        forall|v: i64| s.push(x).contains(v) <==> (s.contains(v) || v == x),
{
    assert forall|v: i64| s.push(x).contains(v) implies (s.contains(v) || v == x) by {
        let j = choose|j: int| 0 <= j < s.push(x).len() && s.push(x)[j] == v;
        if j < s.len() {
            assert(s[j] == v);
        }
    }
    assert forall|v: i64| (s.contains(v) || v == x) implies s.push(x).contains(v) by {
        if v == x {
            assert(s.push(x)[s.len() as int] == v);
        } else {
            let j = choose|j: int| 0 <= j < s.len() && s[j] == v;
            assert(s.push(x)[j] == v);
        }
    }
}

/// `pts` without the points whose x repeats the x of the point before.
fn distinct_layer<Y: Copy>(pts: &Vec<(i64, Y)>) -> (r: Vec<(i64, Y)>)
    requires
        non_decreasing(xs_of(pts@)),
    ensures
        r@ == distinct_points(pts@),
        strictly_ascending(xs_of(r@)),
        forall|v: i64| xs_of(r@).contains(v) <==> xs_of(pts@).contains(v),
        pts@.len() > 0 ==> r@.len() > 0 && r@[0].0 == pts@[0].0 && r@.last().0 == pts@.last().0,
{
    let mut r: Vec<(i64, Y)> = Vec::new();
    let mut i: usize = 0;
    assert(pts@.take(0) =~= Seq::<(i64, Y)>::empty());
    while i < pts.len()
        invariant
            i <= pts@.len(),
            non_decreasing(xs_of(pts@)),
            r@ == distinct_points(pts@.take(i as int)),
            strictly_ascending(xs_of(r@)),
            forall|v: i64| xs_of(r@).contains(v) <==> xs_of(pts@.take(i as int)).contains(v),
            i > 0 ==> r@.len() > 0 && r@[0].0 == pts@[0].0 && r@.last().0 == pts@[i - 1].0,
        decreases pts@.len() - i,
    {
        let ghost t = pts@.take(i as int + 1);
        assert(t.drop_last() =~= pts@.take(i as int));
        assert(t.last() == pts@[i as int]);
        if i > 0 {
            assert(t[t.len() - 2] == pts@[i - 1]);
        }
        let p = pts[i];
        let ghost before = r@;
        let ghost tb = xs_of(pts@.take(i as int));
        assert(forall|v: i64| xs_of(before).contains(v) <==> tb.contains(v));
        if i == 0 || pts[i - 1].0 != p.0 {
            proof {
                if i > 0 {
                    assert(xs_of(pts@)[i - 1] <= xs_of(pts@)[i as int]);
                }
                let s = xs_of(before);
                assert(xs_of(before.push(p)) =~= s.push(p.0));
                if before.len() > 0 {
                    assert(s[s.len() - 1] == before.last().0);
                }
                lemma_insert_point(s, s.len() as int, p.0);
                assert(s.insert(s.len() as int, p.0) =~= s.push(p.0));
            }
            r.push(p);
        }
        i = i + 1;
        proof {
            let ti = xs_of(pts@.take(i as int));
            assert(ti =~= tb.push(p.0));
            lemma_push_contains(tb, p.0);
            if r@.len() > before.len() {
                assert(xs_of(r@) =~= xs_of(before).push(p.0));
                lemma_push_contains(xs_of(before), p.0);
            } else {
                assert(xs_of(r@) =~= xs_of(before));
                assert(tb[i - 2] == p.0);
                assert(tb.contains(p.0));
            }
            assert forall|v: i64| xs_of(r@).contains(v) <==> ti.contains(v) by {
                assert(xs_of(before).contains(v) <==> tb.contains(v));
                assert(ti.contains(v) <==> (tb.contains(v) || v == p.0));
            }
        }
    }
    assert(pts@.take(pts@.len() as int) =~= pts@);
    r
}

/// Whole-number sums, wrapping at the width of `i32`; an interpolated value
/// is rounded toward zero.
impl StackValue for i32 {
    open spec fn spec_zero() -> Self {
        0
    }

    open spec fn spec_plus(a: Self, b: Self) -> Self {
        (a + b) as i32
    }

    proof fn lemma_zero_plus(v: Self) {
    }

    open spec fn spec_lerp(x0: i64, y0: Self, x1: i64, y1: Self, at: i64) -> Self {
        if x1 == x0 {
            y0
        } else {
            let num = if x1 > x0 {
                (y1 - y0) * (at - x0)
            } else {
                -((y1 - y0) * (at - x0))
            };
            let span = if x1 > x0 {
                x1 - x0
            } else {
                x0 - x1
            };
            let q = if num >= 0 {
                num / span
            } else {
                -((-num) / span)
            };
            (y0 + q) as i32
        }
    }

    fn zero() -> (r: Self) {
        0
    }

    fn plus(&self, other: &Self) -> (r: Self) {
        (*self as i64 + *other as i64) as i32
    }

    fn lerp(x0: i64, y0: Self, x1: i64, y1: Self, at: i64) -> (r: Self) {
        if x1 == x0 {
            y0
        } else {
            let dy = y1 as i128 - y0 as i128;
            let dx = at as i128 - x0 as i128;
            assert(-0x1_0000_0000_0000_0000_0000_0000 <= dy * dx <= 0x1_0000_0000_0000_0000_0000_0000)
                by (nonlinear_arith)
                requires
                    -0x1_0000_0000 <= dy <= 0x1_0000_0000,
                    -0x1_0000_0000_0000_0000 <= dx <= 0x1_0000_0000_0000_0000,
            ;
            let prod = dy * dx;
            let (num, span) = if x1 > x0 {
                (prod, x1 as i128 - x0 as i128)
            } else {
                (-prod, x0 as i128 - x1 as i128)
            };
            let q: i128 = if num >= 0 {
                assert(0 <= num / span <= num) by (nonlinear_arith)
                    requires
                        num >= 0,
                        span >= 1,
                ;
                num / span
            } else {
                let pos = -num;
                assert(0 <= pos / span <= pos) by (nonlinear_arith)
                    requires
                        pos > 0,
                        span >= 1,
                ;
                -(pos / span)
            };
            let sum: i128 = y0 as i128 + q;
            (#[verifier::truncate] (sum as i32))
        }
    }
}

} // verus!
