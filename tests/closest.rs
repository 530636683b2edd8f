use libchartium::closest::select_closest;

#[test]
fn closest_come_first_and_ties_keep_order() {
    let cands = vec![('a', 5), ('b', 1), ('c', 3), ('d', 1), ('e', 9)];
    assert_eq!(select_closest(&cands, 3, None), vec![('b', 1), ('d', 1), ('c', 3)]);
}

#[test]
fn bound_is_exclusive() {
    let cands = vec![('a', 5), ('b', 1), ('c', 3), ('d', 1), ('e', 9)];
    assert_eq!(select_closest(&cands, 10, Some(5)), vec![('b', 1), ('d', 1), ('c', 3)]);
    assert_eq!(select_closest(&cands, 10, Some(0)), vec![]);
}

#[test]
fn fewer_candidates_than_asked() {
    let cands = vec![(7u32, 2), (8u32, 0)];
    assert_eq!(select_closest(&cands, 5, None), vec![(8, 0), (7, 2)]);
    assert_eq!(select_closest(&cands, 0, None), vec![]);
    assert_eq!(select_closest::<u32>(&vec![], 3, None), vec![]);
}

#[test]
fn distances_as_float_bits_keep_their_order() {
    let dists = [0.75f64, 0.0, 2.5, 1e-9, 0.5];
    let cands: Vec<(usize, u64)> = dists.iter().enumerate().map(|(i, d)| (i, d.to_bits())).collect();
    let picked: Vec<usize> = select_closest(&cands, 5, Some(1.0f64.to_bits()))
        .into_iter()
        .map(|(i, _)| i)
        .collect();
    assert_eq!(picked, vec![1, 3, 4, 0]);
    for w in picked.windows(2) {
        assert!(dists[w[0]] <= dists[w[1]]);
    }
}

#[test]
fn equal_keys_keep_input_order_when_cut() {
    let cands = vec![('a', 2), ('b', 1), ('c', 2), ('d', 2)];
    assert_eq!(select_closest(&cands, 3, None), vec![('b', 1), ('a', 2), ('c', 2)]);
}
