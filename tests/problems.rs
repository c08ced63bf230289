use cpc_handson::coverage::{build_frequency_array, process_is_there_queries, Test};
use cpc_handson::planning::holiday_planning;
use cpc_handson::topics::{max_topics, topic_order};
use std::cmp::Ordering;

#[test]
fn holiday_split_between_two_cities() {
    let attractions = vec![vec![3, 2, 1], vec![4, 1, 2]];
    assert_eq!(holiday_planning(2, 3, attractions), 9);
}

#[test]
fn holiday_single_city_uses_all_days() {
    assert_eq!(holiday_planning(1, 2, vec![vec![3, 2]]), 5);
}

#[test]
fn holiday_days_beyond_itinerary_count_as_nothing() {
    assert_eq!(holiday_planning(1, 3, vec![vec![5]]), 5);
}

#[test]
fn holiday_without_days_or_cities() {
    assert_eq!(holiday_planning(2, 0, vec![vec![], vec![]]), 0);
    assert_eq!(holiday_planning(0, 2, vec![]), 0);
}

#[test]
fn topics_chain_by_beauty_then_difficulty() {
    assert_eq!(max_topics(vec![(1, 2), (2, 3), (3, 1), (3, 4)], 4), 3);
}

#[test]
fn topics_with_equal_beauty_do_not_chain() {
    assert_eq!(max_topics(vec![(5, 1), (5, 2), (5, 3)], 3), 1);
}

#[test]
fn topics_only_first_n_count() {
    assert_eq!(max_topics(vec![(1, 1), (2, 2), (3, 3)], 2), 2);
    assert_eq!(max_topics(vec![(3, 3), (2, 2), (1, 1)], 3), 3);
}

#[test]
fn topic_order_compares_beauty_then_difficulty_descending() {
    assert_eq!(topic_order(&(1, 5), &(2, 0)), Ordering::Less);
    assert_eq!(topic_order(&(2, 5), &(2, 3)), Ordering::Less);
    assert_eq!(topic_order(&(2, 3), &(2, 5)), Ordering::Greater);
    assert_eq!(topic_order(&(2, 3), &(2, 3)), Ordering::Equal);
    assert_eq!(topic_order(&(3, 0), &(2, 9)), Ordering::Greater);
}

#[test]
fn frequency_counts_covering_segments() {
    assert_eq!(build_frequency_array(5, &[(0, 2), (1, 3)]), vec![1, 2, 2, 1, 0]);
    assert_eq!(build_frequency_array(3, &[(0, 2), (2, 2)]), vec![1, 1, 2]);
    assert_eq!(build_frequency_array(3, &[]), vec![0, 0, 0]);
    assert_eq!(build_frequency_array(0, &[]), Vec::<i32>::new());
}

#[test]
fn is_there_queries() {
    let segments = [(0, 2), (1, 3)];
    let queries = [(0, 4, Some(2)), (3, 4, Some(2)), (4, 4, Some(0)), (0, 1, Some(1))];
    assert_eq!(process_is_there_queries(5, &segments, &queries), vec![1, 0, 1, 1]);
}

#[test]
fn recorded_case_getters() {
    let test = Test::new(vec![1, 2, 3], vec![(1, 3, None), (1, 2, Some(0))], vec![3]);
    assert_eq!(test.data(), &vec![1, 2, 3]);
    assert_eq!(test.queries(), &vec![(1, 3, None), (1, 2, Some(0))]);
    assert_eq!(test.expected_outputs(), &vec![3]);
}
