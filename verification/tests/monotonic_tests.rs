use std::marker::PhantomData;

use columnar::{Column, ColumnIndex, ColumnValues, MonotonicallyMappableToU64, VecColumnValues};

#[test]
fn u64_mapping_is_identity() {
    assert_eq!(0u64.to_u64(), 0);
    assert_eq!(u64::MAX.to_u64(), u64::MAX);
    assert_eq!(u64::from_u64(17), 17);
}

#[test]
fn i64_mapping_roundtrip_and_order() {
    let samples = [i64::MIN, -1, 0, 1, i64::MAX];
    for v in samples {
        assert_eq!(i64::from_u64(v.to_u64()), v);
    }
    for w in samples.windows(2) {
        assert!(w[0].to_u64() < w[1].to_u64());
    }
    assert_eq!(i64::MIN.to_u64(), 0);
    assert_eq!(0i64.to_u64(), 1u64 << 63);
}

#[test]
fn bool_mapping_roundtrip_and_order() {
    assert_eq!(false.to_u64(), 0);
    assert_eq!(true.to_u64(), 1);
    assert_eq!(bool::from_u64(0), false);
    assert_eq!(bool::from_u64(1), true);
    assert!(false.to_u64() < true.to_u64());
}

#[test]
fn to_u64_monotonic_preserves_order_of_present_values() {
    let vals: Vec<i64> = vec![-30, -2, 0, 4, 1000];
    let col = Column {
        idx: ColumnIndex::Full,
        values: VecColumnValues::from_vals(vals.clone()),
        marker: PhantomData,
    };
    let mapped = col.to_u64_monotonic();
    assert_eq!(mapped.num_docs(), 5);
    for d in 0..4u32 {
        let a = mapped.values(d)[0];
        let b = mapped.values(d + 1)[0];
        assert!(a < b, "order must be preserved after mapping");
    }
}

#[test]
fn to_u64_monotonic_min_max_follow_the_mapping() {
    let col = Column {
        idx: ColumnIndex::Full,
        values: VecColumnValues::from_vals(vec![-5i64, 3]),
        marker: PhantomData,
    };
    let mapped = col.to_u64_monotonic();
    assert_eq!(mapped.min_value(), (-5i64).to_u64());
    assert_eq!(mapped.max_value(), 3i64.to_u64());
    assert!(mapped.min_value() < mapped.max_value());
}

#[test]
fn to_u64_monotonic_keeps_the_index() {
    let col = Column {
        idx: ColumnIndex::Full,
        values: VecColumnValues::from_vals(vec![true, false, true]),
        marker: PhantomData,
    };
    let mapped = col.to_u64_monotonic();
    assert_eq!(mapped.num_docs(), 3);
    assert_eq!(mapped.values(0), vec![1]);
    assert_eq!(mapped.values(1), vec![0]);
    assert_eq!(mapped.values(2), vec![1]);
}

#[test]
fn mapped_store_answers_range_queries_by_key() {
    let col = Column {
        idx: ColumnIndex::Full,
        values: VecColumnValues::from_vals(vec![-10i64, -1, 0, 5]),
        marker: PhantomData,
    };
    let mapped = col.to_u64_monotonic();
    let mut out: Vec<u32> = Vec::new();
    mapped.get_docids_for_value_range((-1i64).to_u64(), 5i64.to_u64(), 0, 4, &mut out);
    assert_eq!(out, vec![1, 2, 3]);
}

#[test]
fn empty_store_uses_zero_image_sentinel() {
    let store: VecColumnValues<i64> = VecColumnValues::from_vals(Vec::new());
    assert_eq!(store.num_vals(), 0);
    assert_eq!(store.min_value(), i64::from_u64(0));
    assert_eq!(store.max_value(), i64::from_u64(0));
}
