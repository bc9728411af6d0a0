use columnar::{
    DistinctAggregation, IntermediateDistinct, SegmentDistinctCollector, Type, VecColumnValues,
};

#[test]
fn aggregation_keeps_field_name() {
    let agg = DistinctAggregation::from_field_name(String::from("score"));
    assert_eq!(agg.field_name(), "score");
    assert_eq!(agg.field, "score");
}

#[test]
fn collector_starts_empty() {
    let collector = SegmentDistinctCollector::from_req(Type::U64);
    assert_eq!(collector.data.term_count, 0);
    assert!(collector.data.terms.is_empty());
}

#[test]
fn collect_counts_distinct_values_once() {
    let mut data = IntermediateDistinct::default();
    data.collect(5);
    data.collect(3);
    data.collect(5);
    data.collect(9);
    data.collect(3);
    assert_eq!(data.term_count, 3);
    assert_eq!(data.terms, vec![3, 5, 9]);
}

#[test]
fn collect_block_strides_and_remainder() {
    let store = VecColumnValues::from_vals(vec![10, 20, 10, 30, 20, 40, 50]);
    let docs: Vec<u32> = vec![0, 1, 2, 3, 4, 5, 6];
    let mut collector = SegmentDistinctCollector::from_req(Type::U64);
    collector.collect_block(&docs, &store);
    assert_eq!(collector.data.term_count, 5);
    assert_eq!(collector.data.terms, vec![10, 20, 30, 40, 50]);
}

#[test]
fn collect_block_on_short_block() {
    let store = VecColumnValues::from_vals(vec![7, 7, 7]);
    let docs: Vec<u32> = vec![0, 1, 2];
    let mut collector = SegmentDistinctCollector::from_req(Type::U64);
    collector.collect_block(&docs, &store);
    assert_eq!(collector.data.term_count, 1);
    assert_eq!(collector.data.terms, vec![7]);
}

#[test]
fn from_collector_hands_out_the_state() {
    let store = VecColumnValues::from_vals(vec![4, 2]);
    let docs: Vec<u32> = vec![0, 1];
    let mut collector = SegmentDistinctCollector::from_req(Type::I64);
    collector.collect_block(&docs, &store);
    let data = IntermediateDistinct::from_collector(collector);
    assert_eq!(data.terms, vec![2, 4]);
    assert_eq!(data.term_count, 2);
}

#[test]
fn merge_fruits_unites_terms_and_sums_counts() {
    let mut left = IntermediateDistinct::default();
    left.collect(1);
    left.collect(2);
    let mut right = IntermediateDistinct::default();
    right.collect(2);
    right.collect(3);
    left.merge_fruits(right);
    assert_eq!(left.terms, vec![1, 2, 3]);
    // The merged count is a plain sum, even though the value sets overlap.
    assert_eq!(left.term_count, 4);
}

#[test]
fn merge_fruits_with_empty_side() {
    let mut left = IntermediateDistinct::default();
    left.collect(8);
    left.merge_fruits(IntermediateDistinct::default());
    assert_eq!(left.terms, vec![8]);
    assert_eq!(left.term_count, 1);
}

#[test]
fn from_parts_accepts_sorted_terms() {
    let rebuilt = IntermediateDistinct::from_parts(vec![1, 5, 9], 3);
    let data = rebuilt.expect("strictly ascending terms must be accepted");
    assert_eq!(data.terms, vec![1, 5, 9]);
    assert_eq!(data.term_count, 3);
}

#[test]
fn from_parts_rejects_unsorted_terms() {
    assert!(IntermediateDistinct::from_parts(vec![1, 1], 2).is_none());
    assert!(IntermediateDistinct::from_parts(vec![5, 3], 2).is_none());
}
