use std::marker::PhantomData;

use columnar::{
    Column, ColumnIndex, ColumnValues, MultiValueIndex, OptionalIndex, VecColumnValues,
};
use columnar::Cardinality;

fn full_column(vals: Vec<u64>) -> Column<u64, VecColumnValues<u64>> {
    Column {
        idx: ColumnIndex::Full,
        values: VecColumnValues::from_vals(vals),
        marker: PhantomData,
    }
}

fn optional_column(num_docs: u32, docids: Vec<u32>, vals: Vec<u64>) -> Column<
    u64,
    VecColumnValues<u64>,
> {
    Column {
        idx: ColumnIndex::Optional(OptionalIndex { num_docs, docids }),
        values: VecColumnValues::from_vals(vals),
        marker: PhantomData,
    }
}

fn multivalued_column(start_offsets: Vec<u32>, vals: Vec<u64>) -> Column<
    u64,
    VecColumnValues<u64>,
> {
    Column {
        idx: ColumnIndex::Multivalued(MultiValueIndex { start_offsets }),
        values: VecColumnValues::from_vals(vals),
        marker: PhantomData,
    }
}

#[test]
fn full_column_num_docs_and_values() {
    let col = full_column(vec![10, 20, 30, 40]);
    assert_eq!(col.num_docs(), 4);
    for d in 0..4u32 {
        let vals = col.values(d);
        assert_eq!(vals, vec![(d as u64 + 1) * 10]);
        assert_eq!(col.first(d), Some((d as u64 + 1) * 10));
    }
}

#[test]
fn full_column_cardinality() {
    let col = full_column(vec![7]);
    assert_eq!(col.get_cardinality(), Cardinality::Full);
}

#[test]
fn optional_column_first_and_values_agree() {
    // Docs 1 and 3 carry a value, docs 0, 2 and 4 do not.
    let col = optional_column(5, vec![1, 3], vec![100, 300]);
    assert_eq!(col.num_docs(), 5);
    assert_eq!(col.get_cardinality(), Cardinality::Optional);
    for d in 0..5u32 {
        let vals = col.values(d);
        match col.first(d) {
            Some(v) => assert_eq!(vals, vec![v]),
            None => assert!(vals.is_empty()),
        }
    }
    assert_eq!(col.first(1), Some(100));
    assert_eq!(col.first(3), Some(300));
    assert_eq!(col.first(0), None);
    assert_eq!(col.first(2), None);
    assert_eq!(col.first(4), None);
}

#[test]
fn multivalued_column_offsets() {
    // Docs own the row ranges [0, 2), [2, 2) and [2, 5).
    let col = multivalued_column(vec![0, 2, 2, 5], vec![11, 12, 21, 22, 23]);
    assert_eq!(col.num_docs(), 3);
    assert_eq!(col.get_cardinality(), Cardinality::Multivalued);
    assert_eq!(col.values(0), vec![11, 12]);
    assert_eq!(col.values(1), Vec::<u64>::new());
    assert_eq!(col.values(2), vec![21, 22, 23]);
    assert_eq!(col.first(1), None);
    assert_eq!(col.first(2), Some(21));
}

#[test]
fn fill_vals_clears_and_fills() {
    let col = multivalued_column(vec![0, 2, 2], vec![5, 6]);
    let mut buf = vec![99, 98, 97];
    col.fill_vals(0, &mut buf);
    assert_eq!(buf, vec![5, 6]);
    col.fill_vals(1, &mut buf);
    assert!(buf.is_empty());
}

#[test]
fn min_max_delegate_to_store() {
    let col = full_column(vec![42, 7, 19]);
    assert_eq!(col.min_value(), 7);
    assert_eq!(col.max_value(), 42);
}

#[test]
fn repeated_reads_agree() {
    let col = optional_column(6, vec![0, 5], vec![1, 2]);
    assert_eq!(col.get_cardinality(), col.get_cardinality());
    assert_eq!(col.num_docs(), col.num_docs());
    assert_eq!(col.min_value(), col.min_value());
    assert_eq!(col.max_value(), col.max_value());
}

#[test]
fn value_range_full_column_exact_set() {
    let col = full_column(vec![10, 20, 30, 40, 50]);
    let mut out: Vec<u32> = Vec::new();
    col.get_docids_for_value_range(20, 40, 0, 5, &mut out);
    assert_eq!(out, vec![1, 2, 3]);
}

#[test]
fn value_range_optional_column_exact_set() {
    // Docs 1, 3, 4 carry values 10, 25, 30.
    let col = optional_column(6, vec![1, 3, 4], vec![10, 25, 30]);
    let mut out: Vec<u32> = Vec::new();
    col.get_docids_for_value_range(20, 30, 0, 6, &mut out);
    assert_eq!(out, vec![3, 4]);
}

#[test]
fn value_range_multivalued_no_duplicates() {
    // Doc 0 has two qualifying values, doc 2 has one; doc 1 has none.
    let col = multivalued_column(vec![0, 2, 3, 5], vec![15, 17, 99, 1, 16]);
    let mut out: Vec<u32> = Vec::new();
    col.get_docids_for_value_range(10, 20, 0, 3, &mut out);
    assert_eq!(out, vec![0, 2]);
}

#[test]
fn value_range_respects_docid_range() {
    let col = full_column(vec![10, 10, 10, 10]);
    let mut out: Vec<u32> = Vec::new();
    col.get_docids_for_value_range(10, 10, 1, 3, &mut out);
    assert_eq!(out, vec![1, 2]);
}

#[test]
fn value_range_appends_to_prior_content() {
    let col = full_column(vec![10, 20]);
    let mut out: Vec<u32> = vec![77];
    col.get_docids_for_value_range(10, 20, 0, 2, &mut out);
    assert_eq!(out, vec![77, 0, 1]);
}

#[test]
fn value_range_empty_when_nothing_matches() {
    let col = optional_column(4, vec![2], vec![5]);
    let mut out: Vec<u32> = Vec::new();
    col.get_docids_for_value_range(6, 100, 0, 4, &mut out);
    assert!(out.is_empty());
}

#[test]
fn value_range_with_empty_docid_range() {
    let col = full_column(vec![10, 20, 30]);
    let mut out: Vec<u32> = Vec::new();
    col.get_docids_for_value_range(0, 100, 2, 2, &mut out);
    assert!(out.is_empty());
}

#[test]
fn multivalued_index_with_zero_documents() {
    let col = multivalued_column(vec![0], Vec::new());
    assert_eq!(col.num_docs(), 0);
}

#[test]
fn optional_column_where_every_document_has_a_value() {
    let col = optional_column(3, vec![0, 1, 2], vec![5, 6, 7]);
    assert_eq!(col.num_docs(), 3);
    assert_eq!(col.values(1), vec![6]);
    let mut out: Vec<u32> = Vec::new();
    col.get_docids_for_value_range(5, 7, 0, 3, &mut out);
    assert_eq!(out, vec![0, 1, 2]);
}

#[test]
fn first_or_default_over_optional_column() {
    let col = optional_column(5, vec![1, 3], vec![100, 300]);
    let view = col.first_or_default_col(555);
    assert_eq!(view.num_vals(), 5);
    assert_eq!(view.get_val(0), 555);
    assert_eq!(view.get_val(1), 100);
    assert_eq!(view.get_val(2), 555);
    assert_eq!(view.get_val(3), 300);
    assert_eq!(view.get_val(4), 555);
}

#[test]
fn first_or_default_min_max_pass_through() {
    // The sentinels pass through from the wrapped store and deliberately
    // ignore the default value.
    let col = optional_column(3, vec![0], vec![50]);
    let view = col.first_or_default_col(999);
    assert_eq!(view.min_value(), 50);
    assert_eq!(view.max_value(), 50);
}

#[test]
fn first_or_default_over_multivalued_column() {
    let col = multivalued_column(vec![0, 2, 2], vec![8, 9]);
    let view = col.first_or_default_col(1);
    assert_eq!(view.num_vals(), 2);
    assert_eq!(view.get_val(0), 8);
    assert_eq!(view.get_val(1), 1);
}

#[test]
fn first_or_default_value_range_scan() {
    // Through the adapter, row ids are docids; doc 0 defaults to 7 which
    // lies in range, so the scan must report it: a store handing back its
    // argument unchanged would not.
    let col = optional_column(3, vec![1], vec![100]);
    let view = col.first_or_default_col(7);
    let mut hits: Vec<u32> = Vec::new();
    view.get_row_ids_for_value_range(0, 10, 0, 3, &mut hits);
    assert_eq!(hits, vec![0, 2]);
}
