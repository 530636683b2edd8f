use libchartium::batch::PointValue;
use libchartium::bundle::{first_covering, BundleRc, Bundle, HandleSequence};
use libchartium::constant_batch::ConstantBatch;
use libchartium::range::{BundleRange, InterpolationStrategy, NumericRange};

#[test]
fn constant_value_everywhere() {
    let c = ConstantBatch::new(&vec![(1, 2.5), (2, -1.0)]);
    for x in [-1000, 0, 7, 1000] {
        assert_eq!(
            c.value_at(1, x, InterpolationStrategy::Exact),
            Some(PointValue::Sample { x, y: 2.5 })
        );
    }
    assert_eq!(c.value_at(3, 0, InterpolationStrategy::Linear), None);
    assert_eq!(c.range(), BundleRange::Everywhere);
    assert!(!c.contains_point(0));
    assert!(c.intersects(5, 6));
    assert_eq!(c.point_count(), 2);
}

#[test]
fn constant_walk_has_two_points() {
    let c = ConstantBatch::new(&vec![(1, 2.5)]);
    let r = NumericRange::new(3, 9);
    assert_eq!(c.iter_in_range_with_neighbors(1, r), vec![(3, 2.5), (9, 2.5)]);
    assert_eq!(c.iter_in_range(1, r), vec![(3, 2.5), (9, 2.5)]);
    assert_eq!(c.iter_in_range(1, NumericRange::new(9, 3)), vec![]);
    assert_eq!(c.iter_in_range_with_neighbors(5, r), vec![]);
}

#[test]
fn constant_rows_skip_unknown_traces() {
    let c = ConstantBatch::new(&vec![(1, 2.5), (2, -1.0)]);
    let rows = c.iter_many_in_range(&vec![2, 9, 1], NumericRange::new(0, 4));
    assert_eq!(rows, vec![(0, vec![-1.0, 2.5]), (4, vec![-1.0, 2.5])]);
}

#[test]
fn boxed_bundles_get_increasing_handles() {
    let mut seq = HandleSequence::new();
    let a = BundleRc::new(&mut seq, Bundle::Constant(ConstantBatch::new(&vec![(1, 1.0)])));
    let b = BundleRc::new(
        &mut seq,
        Bundle::Batch(libchartium::batch::Batch::new(vec![5, 8], vec![0.0, 1.0], &vec![4])),
    );
    assert_eq!(a.handle(), 0);
    assert_eq!(b.handle(), 1);
    assert_eq!(a.range_in_view(NumericRange::new(1, 2)), NumericRange::new(1, 2));
    assert_eq!(b.range_in_view(NumericRange::new(6, 20)), NumericRange::new(6, 8));
    assert_eq!(b.range_in_view(NumericRange::new(10, 20)), NumericRange::new(10, 10));
    assert!(b.unwrap().contains_trace(4));
    assert_eq!(
        b.unwrap().value_at(4, 6, InterpolationStrategy::Nearest),
        Some(PointValue::Sample { x: 5, y: 0.0 })
    );
}

#[test]
fn export_rows_fit_whole_rows_only() {
    let mut seq = HandleSequence::new();
    let b = BundleRc::new(
        &mut seq,
        Bundle::Batch(libchartium::batch::Batch::new(
            vec![1, 2, 3],
            vec![10.0, 20.0, 30.0, -1.0, -2.0, -3.0],
            &vec![5, 6],
        )),
    );
    // rows take three numbers each: 8 numbers hold two rows
    let rows = b.export_rows(&vec![6, 5], NumericRange::new(0, 10), 8);
    assert_eq!(rows, vec![(1, vec![-1.0, 10.0]), (2, vec![-2.0, 20.0])]);
    let rows = b.export_rows(&vec![5], NumericRange::new(2, 10), 100);
    assert_eq!(rows, vec![(2, vec![20.0]), (3, vec![30.0])]);
    assert_eq!(b.export_rows(&vec![5], NumericRange::new(0, 10), 1), vec![]);
    let c = b.clone();
    assert_eq!(c.handle(), b.handle());
}

#[test]
fn bundle_walks_dispatch_to_storage() {
    let c: Bundle<f64> = Bundle::Constant(ConstantBatch::new(&vec![(1, 4.0)]));
    assert_eq!(c.iter_in_range(1, NumericRange::new(0, 3)), vec![(0, 4.0), (3, 4.0)]);
    assert_eq!(c.iter_many_in_range(&vec![1], NumericRange::new(0, 3)), vec![(0, vec![4.0]), (3, vec![4.0])]);
    assert_eq!(c.range(), BundleRange::Everywhere);
    assert_eq!(c.traces(), vec![1]);
    assert_eq!(c.point_count(), 2);
    assert!(c.intersects(-5, -4));
    assert!(!c.contains_point(0));
}

#[test]
fn handle_sequence_wraps() {
    let mut seq = HandleSequence::new();
    assert_eq!(seq.next_handle(), 0);
    assert_eq!(seq.next_handle(), 1);
}

#[test]
fn shared_bundle_keeps_its_handle() {
    let mut seq = HandleSequence::new();
    seq.next_handle();
    let a = BundleRc::new(&mut seq, Bundle::Constant(ConstantBatch::new(&vec![(2, 1.5)])));
    let shared = a.shared();
    let b = BundleRc::from_shared(a.handle(), shared);
    assert_eq!(b.handle(), 1);
    assert!(b.unwrap().contains_trace(2));
}

#[test]
fn stack_layers_ascend() {
    let c: Bundle<f64> = Bundle::Constant(ConstantBatch::new(&vec![(1, 4.0)]));
    assert_eq!(c.stack_layer(1, NumericRange::new(0, 3)), vec![(0, 4.0), (3, 4.0)]);
    assert_eq!(c.stack_layer(1, NumericRange::new(3, 3)), vec![(3, 4.0)]);
    assert_eq!(c.stack_layer(2, NumericRange::new(0, 3)), vec![]);
    let b: Bundle<f64> = Bundle::Batch(libchartium::batch::Batch::new(
        vec![0, 5, 10],
        vec![1.0, 2.0, 3.0],
        &vec![1],
    ));
    assert_eq!(b.stack_layer(1, NumericRange::new(6, 7)), vec![(5, 2.0), (10, 3.0)]);
}

#[test]
fn first_covering_bundle_wins() {
    let mut seq = HandleSequence::new();
    let bundles = vec![
        BundleRc::new(&mut seq, Bundle::Constant(ConstantBatch::new(&vec![(1, 4.0)]))),
        BundleRc::new(
            &mut seq,
            Bundle::Batch(libchartium::batch::Batch::new(vec![0, 5], vec![1.0, 2.0], &vec![1])),
        ),
        BundleRc::new(
            &mut seq,
            Bundle::Batch(libchartium::batch::Batch::new(vec![0, 9], vec![1.0, 2.0], &vec![1])),
        ),
    ];
    // a constant covers no single point
    assert_eq!(first_covering(&bundles, 1, 3), Some(1));
    assert_eq!(first_covering(&bundles, 1, 7), Some(2));
    assert_eq!(first_covering(&bundles, 1, 10), None);
    assert_eq!(first_covering(&bundles, 2, 3), None);
}
