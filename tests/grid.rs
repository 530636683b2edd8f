use libchartium::adaptive_grid::{AdaptiveGrid, StackValue};

#[derive(Clone, Copy, Debug, PartialEq)]
struct Val(f64);

impl StackValue for Val {
    fn spec_zero() -> Self {
        Val(0.0)
    }

    fn spec_plus(a: Self, b: Self) -> Self {
        Val(a.0 + b.0)
    }

    fn spec_lerp(x0: i64, y0: Self, x1: i64, y1: Self, at: i64) -> Self {
        Val(y0.0 + (y1.0 - y0.0) * (at - x0) as f64 / (x1 - x0) as f64)
    }

    fn lemma_zero_plus(_v: Self) {}

    fn zero() -> Self {
        Self::spec_zero()
    }

    fn plus(&self, other: &Self) -> Self {
        Self::spec_plus(*self, *other)
    }

    fn lerp(x0: i64, y0: Self, x1: i64, y1: Self, at: i64) -> Self {
        Self::spec_lerp(x0, y0, x1, y1, at)
    }
}

fn pts(v: &[(i64, f64)]) -> Vec<(i64, Val)> {
    v.iter().map(|&(x, y)| (x, Val(y))).collect()
}

fn cumulative(out: Vec<(i64, Val, Val)>) -> Vec<(i64, f64)> {
    out.into_iter().map(|(x, _, y)| (x, y.0)).collect()
}

// The x axis is counted in half units: 0.5 is written 1, 1 is written 2.
#[test]
fn adds_to_grid() {
    let mut grid: AdaptiveGrid<Val> = AdaptiveGrid::new();
    grid.sum_add_points(&pts(&[(0, 1.0), (2, 1.0), (4, 1.0)]));

    let out = grid.sum_add_points(&pts(&[(-2, 2.), (0, 1.), (1, 0.5)]));
    assert_eq!(cumulative(out), vec![(-2, 2.), (0, 1. + 1.), (1, 1. + 0.5)]);

    let out = grid.sum_add_points(&pts(&[(1, 2.), (4, -1.), (6, 1.)]));
    assert_eq!(
        cumulative(out),
        vec![(1, 1. + 2. + 0.5), (2, 1. + 1.), (4, 1. - 1.), (6, 1.)]
    );
}

#[test]
fn empty_grid_takes_points_as_they_come() {
    let mut grid: AdaptiveGrid<Val> = AdaptiveGrid::with_capacity(4);
    let out = grid.sum_add_points(&pts(&[(1, 3.0), (5, -2.0)]));
    assert_eq!(out, vec![(1, Val(0.0), Val(3.0)), (5, Val(0.0), Val(-2.0))]);
    assert_eq!(grid.layers(), 1);
    assert_eq!(grid.point_at(1), (5, Val(-2.0)));
}

#[test]
fn prior_sum_is_interpolated_between_grid_points() {
    let mut grid: AdaptiveGrid<Val> = AdaptiveGrid::new();
    grid.sum_add_points(&pts(&[(0, 0.0), (10, 10.0)]));
    let out = grid.sum_add_points(&pts(&[(0, 1.0), (4, 1.0), (10, 1.0)]));
    assert_eq!(
        out,
        vec![
            (0, Val(0.0), Val(1.0)),
            (4, Val(4.0), Val(5.0)),
            (10, Val(10.0), Val(11.0)),
        ]
    );
    assert_eq!(grid.point_at(1), (4, Val(5.0)));
    assert_eq!(grid.layers(), 2);
}

#[test]
fn layer_missing_a_grid_point_is_interpolated_there() {
    let mut grid: AdaptiveGrid<Val> = AdaptiveGrid::new();
    grid.sum_add_points(&pts(&[(0, 1.0), (5, 1.0), (10, 1.0)]));
    let out = grid.sum_add_points(&pts(&[(0, 0.0), (10, 10.0)]));
    assert_eq!(
        out,
        vec![
            (0, Val(1.0), Val(1.0)),
            (5, Val(1.0), Val(6.0)),
            (10, Val(1.0), Val(11.0)),
        ]
    );
}

#[test]
fn empty_layer_still_commits() {
    let mut grid: AdaptiveGrid<Val> = AdaptiveGrid::new();
    grid.sum_add_points(&pts(&[(0, 1.0)]));
    let out = grid.sum_add_points(&pts(&[]));
    assert!(out.is_empty());
    assert_eq!(grid.layers(), 2);
    assert_eq!(grid.point_at(0), (0, Val(1.0)));
}

#[test]
fn points_outside_the_layer_keep_their_sums() {
    let mut grid: AdaptiveGrid<Val> = AdaptiveGrid::new();
    grid.sum_add_points(&pts(&[(0, 1.0), (4, 2.0), (8, 3.0)]));
    let out = grid.sum_add_points(&pts(&[(2, 1.0), (3, 1.0)]));
    // both new points lie between the old points 0 and 4
    assert_eq!(out, vec![(2, Val(1.5), Val(2.5)), (3, Val(1.75), Val(2.75))]);
    assert_eq!(grid.point_at(0), (0, Val(1.0)));
    assert_eq!(grid.point_at(3), (4, Val(2.0)));
    assert_eq!(grid.point_at(4), (8, Val(3.0)));
}

#[test]
fn whole_number_layers_stack() {
    let mut grid: AdaptiveGrid<i32> = AdaptiveGrid::new();
    grid.sum_add_points(&vec![(0, 10), (10, 20)]);
    let out = grid.sum_add_points(&vec![(0, 1), (5, 3), (10, 1)]);
    assert_eq!(out, vec![(0, 10, 11), (5, 15, 18), (10, 20, 21)]);
    // a layer point past the grid stands on zero
    let out = grid.sum_add_points(&vec![(12, 4)]);
    assert_eq!(out, vec![(12, 0, 4)]);
    // interpolation rounds toward zero
    assert_eq!(<i32 as StackValue>::lerp(0, 0, 3, -1, 1), 0);
    assert_eq!(<i32 as StackValue>::lerp(0, 0, 3, 2, 2), 1);
    assert_eq!(<i32 as StackValue>::plus(&i32::MAX, &1), i32::MIN);
}

#[test]
fn repeated_x_in_a_layer_is_skipped() {
    let mut grid: AdaptiveGrid<i32> = AdaptiveGrid::new();
    grid.sum_add_points(&vec![(0, 10), (10, 20)]);
    let out = grid.sum_add_points(&vec![(0, 1), (5, 3), (5, 100), (10, 1), (10, 7)]);
    assert_eq!(out, vec![(0, 10, 11), (5, 15, 18), (10, 20, 21)]);
    assert_eq!(grid.point_at(1), (5, 18));
}
