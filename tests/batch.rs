use libchartium::batch::{Batch, PointValue};
use libchartium::range::{BundleRange, InterpolationStrategy, NumericRange};

fn sample() -> Batch<f64> {
    // two traces, 7 and 9, over x = 10, 20, 30, 40
    Batch::new(
        vec![10, 20, 30, 40],
        vec![1.0, 2.0, 3.0, 4.0, -1.0, -2.0, -3.0, -4.0],
        &vec![7, 9],
    )
}

#[test]
fn full_range_gives_every_sample_back() {
    let b = sample();
    let out = b.iter_in_range(9, NumericRange::new(10, 40));
    assert_eq!(out, vec![(10, -1.0), (20, -2.0), (30, -3.0), (40, -4.0)]);
}

#[test]
fn range_walk_stays_inside_the_range() {
    let b = sample();
    assert_eq!(b.iter_in_range(7, NumericRange::new(15, 30)), vec![(20, 2.0), (30, 3.0)]);
    assert_eq!(b.iter_in_range(7, NumericRange::new(41, 50)), vec![]);
    assert_eq!(b.iter_in_range(8, NumericRange::new(10, 40)), vec![]);
}

#[test]
fn range_walk_is_repeatable() {
    let b = sample();
    let r = NumericRange::new(12, 35);
    assert_eq!(b.iter_in_range(7, r), b.iter_in_range(7, r));
    assert_eq!(b.iter_in_range_with_neighbors(7, r), b.iter_in_range_with_neighbors(7, r));
}

#[test]
fn neighbors_widen_the_window_by_one_each_side() {
    let b = sample();
    assert_eq!(
        b.iter_in_range_with_neighbors(7, NumericRange::new(15, 25)),
        vec![(10, 1.0), (20, 2.0), (30, 3.0)]
    );
    // exact edges need no neighbour
    assert_eq!(
        b.iter_in_range_with_neighbors(7, NumericRange::new(20, 30)),
        vec![(20, 2.0), (30, 3.0)]
    );
    // past the end
    assert_eq!(b.iter_in_range_with_neighbors(7, NumericRange::new(45, 50)), vec![]);
    // before the start
    assert_eq!(
        b.iter_in_range_with_neighbors(7, NumericRange::new(0, 5)),
        vec![]
    );
    assert_eq!(
        b.iter_in_range_with_neighbors(7, NumericRange::new(0, 10)),
        vec![(10, 1.0)]
    );
}

#[test]
fn value_at_sample_is_exact() {
    let b = sample();
    for s in [
        InterpolationStrategy::Exact,
        InterpolationStrategy::Nearest,
        InterpolationStrategy::Linear,
        InterpolationStrategy::Previous,
        InterpolationStrategy::Next,
    ] {
        assert_eq!(b.value_at(7, 30, s), Some(PointValue::Sample { x: 30, y: 3.0 }));
    }
}

#[test]
fn value_at_between_samples() {
    let b = sample();
    assert_eq!(b.value_at(7, 24, InterpolationStrategy::Exact), None);
    assert_eq!(
        b.value_at(7, 24, InterpolationStrategy::Previous),
        Some(PointValue::Sample { x: 20, y: 2.0 })
    );
    assert_eq!(
        b.value_at(7, 24, InterpolationStrategy::Next),
        Some(PointValue::Sample { x: 30, y: 3.0 })
    );
    assert_eq!(
        b.value_at(7, 24, InterpolationStrategy::Nearest),
        Some(PointValue::Sample { x: 20, y: 2.0 })
    );
    // a tie goes to the right
    assert_eq!(
        b.value_at(7, 25, InterpolationStrategy::Nearest),
        Some(PointValue::Sample { x: 30, y: 3.0 })
    );
    assert_eq!(
        b.value_at(9, 25, InterpolationStrategy::Linear),
        Some(PointValue::Between { x: 25, left_x: 20, left_y: -2.0, right_x: 30, right_y: -3.0 })
    );
}

#[test]
fn value_at_outside_is_none() {
    let b = sample();
    assert_eq!(b.value_at(7, 9, InterpolationStrategy::Nearest), None);
    assert_eq!(b.value_at(7, 41, InterpolationStrategy::Previous), None);
    assert_eq!(b.value_at(8, 20, InterpolationStrategy::Exact), None);
}

#[test]
fn batch_range_and_membership() {
    let b = sample();
    assert_eq!(b.range(), BundleRange::Bounded { from: 10, to: 40 });
    assert_eq!(b.point_count(), 4);
    assert!(b.contains_point(40));
    assert!(!b.contains_point(41));
    assert!(b.intersects(40, 90));
    assert!(!b.intersects(0, 9));
    assert!(b.contains_trace(9));
    assert!(!b.contains_trace(1));
    assert_eq!(b.get_y_data_of(9), Some(vec![-1.0, -2.0, -3.0, -4.0]));
    assert_eq!(b.get_y_data_of(1), None);
}

#[test]
fn duplicate_handles_are_listed_once() {
    let b = Batch::new(vec![1], vec![5.0, 6.0, 7.0], &vec![3, 4, 3]);
    let mut t = b.traces();
    t.sort();
    assert_eq!(t, vec![3, 4]);
    // the last column of a repeated handle is the one looked up
    assert_eq!(b.get_y_data_of(3), Some(vec![7.0]));
}

#[test]
fn many_traces_walk_together() {
    let b = sample();
    let rows = b.iter_many_in_range(&vec![9, 7], NumericRange::new(20, 35));
    assert_eq!(rows, vec![(20, vec![-2.0, 2.0]), (30, vec![-3.0, 3.0])]);
}

#[test]
fn linear_midpoint_is_mean_of_neighbours() {
    let b = Batch::new(vec![0, 10], vec![1.0, 4.0], &vec![1]);
    match b.value_at(1, 5, InterpolationStrategy::Linear) {
        Some(PointValue::Between { x, left_x, left_y, right_x, right_y }) => {
            let frac = (x - left_x) as f64 / (right_x - left_x) as f64;
            let y = right_y * frac + left_y * (1.0 - frac);
            assert!((y - 2.5).abs() < 1e-12);
        }
        other => panic!("expected a bracketed value, got {:?}", other),
    }
}

#[test]
fn many_traces_walk_skips_unknown_handles() {
    let b = sample();
    let rows = b.iter_many_in_range(&vec![9, 5, 7], NumericRange::new(20, 35));
    assert_eq!(rows, vec![(20, vec![-2.0, 2.0]), (30, vec![-3.0, 3.0])]);
}
