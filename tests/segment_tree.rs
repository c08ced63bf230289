use cpc_handson::operations::run_queries;
use cpc_handson::segment_tree::{left_child, right_child, NodeFunction, SegmentTree};

#[test]
fn range_max_and_update_on_five() {
    let mut tree = SegmentTree::init(&[1, 2, 3, 4, 5], &NodeFunction::Max);
    assert_eq!(tree.query_max(1, 5), Some(5));
    tree.update_range(2, 4, 2);
    assert_eq!(tree.query_max(1, 5), Some(5));
    assert_eq!(tree.query_max(2, 4), Some(2));
    assert_eq!(tree.query_max(1, 1), Some(1));
}

#[test]
fn update_above_all_values_changes_nothing() {
    let mut tree = SegmentTree::init(&[5, 5, 5, 5], &NodeFunction::Max);
    tree.update_range(1, 4, 10);
    assert_eq!(tree.query_max(1, 4), Some(5));
}

#[test]
fn single_element() {
    let mut tree = SegmentTree::init(&[7], &NodeFunction::Max);
    assert_eq!(tree.query_max(1, 1), Some(7));
    tree.update_range(1, 1, 3);
    assert_eq!(tree.query_max(1, 1), Some(3));
}

#[test]
fn construction_gives_maximum_of_input() {
    let data = [3, -8, 12, 0, 12, -1, 6];
    let mut tree = SegmentTree::init(&data, &NodeFunction::Max);
    assert_eq!(tree.query_max(1, 7), Some(12));
    let negatives = [-5, -9, -2];
    let mut tree = SegmentTree::init(&negatives, &NodeFunction::Max);
    assert_eq!(tree.query_max(1, 3), Some(-2));
}

#[test]
fn repeated_update_is_idempotent() {
    let data = [9, 4, 7, 1, 8, 6];
    let mut once = SegmentTree::init(&data, &NodeFunction::Max);
    let mut twice = SegmentTree::init(&data, &NodeFunction::Max);
    once.update_range(2, 5, 5);
    twice.update_range(2, 5, 5);
    twice.update_range(2, 5, 5);
    for l in 1..=6 {
        for r in l..=6 {
            assert_eq!(once.query_max(l, r), twice.query_max(l, r));
        }
    }
}

#[test]
fn update_lowers_inside_and_keeps_outside() {
    let data = [9, 4, 7, 1, 8, 6];
    let mut tree = SegmentTree::init(&data, &NodeFunction::Max);
    tree.update_range(2, 5, 5);
    let expected = [9, 4, 5, 1, 5, 6];
    for i in 1..=6 {
        assert_eq!(tree.query_max(i, i), Some(expected[i - 1]));
    }
}

#[test]
fn composed_updates_take_the_smaller_bound() {
    let data = [2, 9, 4, 11, 6];
    let mut stepwise = SegmentTree::init(&data, &NodeFunction::Max);
    let mut direct = SegmentTree::init(&data, &NodeFunction::Max);
    stepwise.update_range(1, 5, 5);
    stepwise.update_range(1, 5, 3);
    direct.update_range(1, 5, 3);
    for l in 1..=5 {
        for r in l..=5 {
            assert_eq!(stepwise.query_max(l, r), direct.query_max(l, r));
        }
    }
    assert_eq!(direct.query_max(1, 5), Some(3));
    assert_eq!(direct.query_max(1, 1), Some(2));
}

#[test]
fn overlapping_updates_and_queries() {
    let mut tree = SegmentTree::init(&[10, 20, 30, 40, 50, 60, 70, 80], &NodeFunction::Max);
    tree.update_range(3, 6, 35);
    assert_eq!(tree.query_max(1, 8), Some(80));
    assert_eq!(tree.query_max(3, 6), Some(35));
    tree.update_range(1, 4, 15);
    assert_eq!(tree.query_max(1, 4), Some(15));
    assert_eq!(tree.query_max(5, 6), Some(35));
    assert_eq!(tree.query_max(2, 7), Some(70));
    tree.update_range(6, 8, i32::MIN);
    assert_eq!(tree.query_max(6, 8), Some(i32::MIN));
    assert_eq!(tree.query_max(1, 8), Some(35));
}

#[test]
fn extreme_values() {
    let mut tree = SegmentTree::init(&[i32::MAX, i32::MIN, 0], &NodeFunction::Max);
    assert_eq!(tree.query_max(1, 3), Some(i32::MAX));
    assert_eq!(tree.query_max(2, 2), Some(i32::MIN));
    tree.update_range(1, 3, i32::MAX);
    assert_eq!(tree.query_max(1, 3), Some(i32::MAX));
}

#[test]
fn child_indices() {
    assert_eq!(left_child(0), 1);
    assert_eq!(right_child(0), 2);
    assert_eq!(left_child(5), 11);
    assert_eq!(right_child(5), 12);
}

#[test]
fn exact_coverage_on_min_tree() {
    // coverage of positions 0..=4
    let freq = [1, 2, 2, 1, 0];
    let mut tree = SegmentTree::build_from_frequency(&freq, &NodeFunction::Min);
    assert!(tree.exists_exact_coverage(0, 4, 2));
    assert!(tree.exists_exact_coverage(1, 2, 2));
    assert!(!tree.exists_exact_coverage(1, 2, 1));
    assert!(tree.exists_exact_coverage(3, 4, 0));
    assert!(!tree.exists_exact_coverage(0, 4, 3));
}

#[test]
fn run_queries_answers_in_order() {
    let mut tree = SegmentTree::init(&[4, 8, 1, 6], &NodeFunction::Max);
    let queries = [
        (1, 4, None),
        (2, 3, Some(3)),
        (1, 4, None),
        (2, 2, None),
        (1, 1, Some(0)),
        (1, 2, None),
    ];
    assert_eq!(run_queries(&mut tree, &queries), vec![8, 6, 3, 3]);
    assert_eq!(tree.query_max(1, 1), Some(0));
}
