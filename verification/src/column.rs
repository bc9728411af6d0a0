//! The public generic accessor type: a column composes an address-space
//! index with a value store and answers per-document reads and value-range
//! queries.

use vstd::prelude::*;

use crate::cardinality::Cardinality;
use crate::column_index::{
    lemma_first_geq_props, lemma_optional_doc_rows, lemma_owner_monotone, lemma_owner_props,
    lemma_owner_unique, owner_of, ColumnIndex,
};
use crate::column_values::{
    in_value_range, lemma_rows_in_value_range_props, mapped_keys, monotonic_map_column,
    rows_in_value_range, ColumnValues, MonotonicMapColumn,
};
use crate::monotonic::MonotonicallyMappableToU64;
use crate::seqs::{dedup_adjacent, lemma_dedup_adjacent_props, sorted_nondecr, sorted_strict};
use core::marker::PhantomData;

verus! {

/// A column of values of scalar type `T`, read through a value store `V`.
///
/// The index decides which rows of the store belong to which document; the
/// store holds the densely packed values. Both are immutable once the
/// column is built.
pub struct Column<T, V> {
    /// The address-space index translating docids to row ids.
    pub idx: ColumnIndex,
    /// The dense, row-id-addressed value store.
    pub values: V,
    /// Carries the scalar type of the stored values.
    pub marker: PhantomData<T>,
}

impl<T: MonotonicallyMappableToU64, V: ColumnValues<T>> Column<T, V> {
    /// Internal consistency: the store is well formed, and every row id the
    /// index can address exists in the store.
    pub open spec fn wf(&self) -> bool {
        &&& self.values.wf()
        &&& self.values.vals().len() <= u32::MAX
        &&& match self.idx {
            ColumnIndex::Full => true,
            ColumnIndex::Optional(o) => o.wf() && o.docids@.len() == self.values.vals().len(),
            ColumnIndex::Multivalued(m) => m.wf() && m.total_rows() == self.values.vals().len(),
        }
    }

    /// The number of documents the column spans, including documents with
    /// no value.
    pub open spec fn num_docs_spec(&self) -> int {
        match self.idx {
            ColumnIndex::Full => self.values.vals().len() as int,
            ColumnIndex::Optional(o) => o.num_docs as int,
            ColumnIndex::Multivalued(m) => m.num_docs_spec(),
        }
    }

    /// Whether `d` names a document of this column.
    pub open spec fn doc_valid(&self, d: int) -> bool {
        0 <= d < self.num_docs_spec()
    }

    /// The values of document `d`, in stored row order.
    pub open spec fn values_spec(&self, d: int) -> Seq<T> {
        self.values.vals().subrange(self.idx.row_lo(d), self.idx.row_hi(d))
    }

    /// The first value of document `d`, if it has any.
    pub open spec fn first_spec(&self, d: int) -> Option<T> {
        if self.values_spec(d).len() > 0 {
            Some(self.values_spec(d)[0])
        } else {
            None
        }
    }

    /// Whether document `d` carries at least one value inside the inclusive
    /// value range `[lo, hi]`.
    pub open spec fn doc_has_value_in(&self, d: int, lo: T, hi: T) -> bool {
        exists|r: int|
            self.idx.row_lo(d) <= r < self.idx.row_hi(d) && in_value_range(
                #[trigger] self.values.vals()[r],
                lo,
                hi,
            )
    }

    /// For a well-formed column every document's row range is a valid,
    /// in-bounds range of the store, so per-document access never leaves
    /// the store.
    pub proof fn lemma_doc_rows_in_bounds(&self, d: int)
        requires
            self.wf(),
            self.doc_valid(d),
        ensures
            self.idx.doc_valid(d),
            0 <= self.idx.row_lo(d) <= self.idx.row_hi(d) <= self.values.vals().len(),
            self.values_spec(d).len() == self.idx.row_hi(d) - self.idx.row_lo(d),
            match self.idx {
                ColumnIndex::Full => self.idx.row_hi(d) == d + 1,
                ColumnIndex::Optional(_) => self.values_spec(d).len() <= 1,
                ColumnIndex::Multivalued(_) => true,
            },
    {
        match self.idx {
            ColumnIndex::Full => {},
            ColumnIndex::Optional(o) => {
                lemma_optional_doc_rows(o.docids@, d);
            },
            ColumnIndex::Multivalued(m) => {
                assert(m.start_offsets@[d] <= m.start_offsets@[d + 1]);
                assert(m.start_offsets@[d + 1] <= m.start_offsets@.last());
            },
        }
    }

    /// Returns the cardinality of the column. Delegates to the index; the
    /// result depends on the immutable column alone, so repeated calls
    /// agree.
    pub fn get_cardinality(&self) -> (r: Cardinality)
        ensures
            r == self.idx.cardinality_spec(),
    {
        self.idx.get_cardinality()
    }

    /// Returns the number of documents: the store's element count for a
    /// full column, the index's own document count otherwise (which may
    /// exceed the number of stored values). The result depends on the
    /// immutable column alone, so repeated calls agree.
    pub fn num_docs(&self) -> (r: u32)
        requires
            self.wf(),
        ensures
            r as int == self.num_docs_spec(),
    {
        match &self.idx {
            ColumnIndex::Full => self.values.num_vals(),
            ColumnIndex::Optional(optional_index) => optional_index.num_docs,
            ColumnIndex::Multivalued(col_index) => col_index.num_docs(),
        }
    }

    /// Returns the store's min sentinel. Meaningful only while the store is
    /// non-empty or declares a sentinel of its own; this column type never
    /// reads values through it.
    pub fn min_value(&self) -> (r: T)
        requires
            self.wf(),
        ensures
            r == self.values.min_spec(),
    {
        self.values.min_value()
    }

    /// Returns the store's max sentinel; see `min_value`.
    pub fn max_value(&self) -> (r: T)
        requires
            self.wf(),
        ensures
            r == self.values.max_spec(),
    {
        self.values.max_value()
    }

    /// Returns the first value associated with `doc`, or `None` if `doc`
    /// has none.
    pub fn first(&self, doc: u32) -> (r: Option<T>)
        requires
            self.wf(),
            self.doc_valid(doc as int),
        ensures
            r == self.first_spec(doc as int),
    {
        proof {
            self.lemma_doc_rows_in_bounds(doc as int);
        }
        let (lo, hi) = self.idx.value_row_ids(doc);
        if lo < hi {
            Some(self.values.get_val(lo))
        } else {
            None
        }
    }

    /// Returns the values of `doc` in stored row order: exactly one for a
    /// full column, at most one for an optional column, any number for a
    /// multivalued column.
    pub fn values(&self, doc: u32) -> (r: Vec<T>)
        requires
            self.wf(),
            self.doc_valid(doc as int),
        ensures
            r@ == self.values_spec(doc as int),
    {
        proof {
            self.lemma_doc_rows_in_bounds(doc as int);
        }
        let (lo, hi) = self.idx.value_row_ids(doc);
        let mut out: Vec<T> = Vec::new();
        let mut i = lo;
        while i < hi
            invariant
                self.wf(),
                lo <= i <= hi,
                hi as int <= self.values.vals().len(),
                out@ == self.values.vals().subrange(lo as int, i as int),
            decreases hi - i,
        {
            let v = self.values.get_val(i);
            out.push(v);
            proof {
                assert(self.values.vals().subrange(lo as int, i as int + 1)
                    =~= self.values.vals().subrange(lo as int, i as int).push(
                    self.values.vals()[i as int],
                ));
            }
            i += 1;
        }
        out
    }

    /// Clears `output`, then fills it with the values of `doc` in stored
    /// row order.
    pub fn fill_vals(&self, doc: u32, output: &mut Vec<T>)
        requires
            self.wf(),
            self.doc_valid(doc as int),
        ensures
            final(output)@ == self.values_spec(doc as int),
    {
        output.clear();
        proof {
            self.lemma_doc_rows_in_bounds(doc as int);
        }
        let (lo, hi) = self.idx.value_row_ids(doc);
        let mut i = lo;
        while i < hi
            invariant
                self.wf(),
                lo <= i <= hi,
                hi as int <= self.values.vals().len(),
                output@ == self.values.vals().subrange(lo as int, i as int),
            decreases hi - i,
        {
            let v = self.values.get_val(i);
            output.push(v);
            proof {
                assert(self.values.vals().subrange(lo as int, i as int + 1)
                    =~= self.values.vals().subrange(lo as int, i as int).push(
                    self.values.vals()[i as int],
                ));
            }
            i += 1;
        }
    }

    /// The central query primitive: appends to `docids` the docids within
    /// `[doc_start, doc_end)` of the documents holding at least one value
    /// in the inclusive range `[value_lo, value_hi]`.
    ///
    /// The appended docids are strictly ascending and free of duplicates
    /// for every cardinality: the reverse translation collapses the rows of
    /// a qualifying multivalued document into one docid. Prior content of
    /// `docids` is kept untouched in front of the appended result.
    pub fn get_docids_for_value_range(
        &self,
        value_lo: T,
        value_hi: T,
        doc_start: u32,
        doc_end: u32,
        docids: &mut Vec<u32>,
    )
        requires
            self.wf(),
            doc_start <= doc_end,
            doc_end as int <= self.num_docs_spec(),
        ensures
            final(docids)@.len() >= old(docids)@.len(),
            final(docids)@.take(old(docids)@.len() as int) == old(docids)@,
            sorted_strict(final(docids)@.skip(old(docids)@.len() as int)),
            forall|d: u32|
                #[trigger] final(docids)@.skip(old(docids)@.len() as int).contains(d) <==> (
                doc_start <= d < doc_end && self.doc_has_value_in(d as int, value_lo, value_hi)),
    {
        let ghost vals = self.values.vals();
        let (row_start, row_end) = self.idx.docid_range_to_rowids(doc_start, doc_end);
        let mut hits: Vec<u32> = Vec::new();
        self.values.get_row_ids_for_value_range(value_lo, value_hi, row_start, row_end, &mut hits);
        let ghost matched = rows_in_value_range(vals, value_lo, value_hi, row_start as int,
            row_end as int);
        proof {
            assert(hits@ =~= matched);
            lemma_rows_in_value_range_props(vals, value_lo, value_hi, row_start as int,
                row_end as int);
            match &self.idx {
                ColumnIndex::Full => {},
                ColumnIndex::Optional(_) => {},
                ColumnIndex::Multivalued(m) => {
                    assert(row_start as int == m.start_offsets@[doc_start as int]);
                    assert(row_end as int == m.start_offsets@[doc_end as int]);
                    assert(m.start_offsets@[doc_end as int] <= m.start_offsets@.last());
                },
            }
        }
        self.idx.select_batch_in_place(&mut hits, doc_start);
        let ghost translated = self.idx.select_batch_spec(matched, doc_start as int);
        proof {
            self.lemma_translated_range_semantics(value_lo, value_hi, doc_start as int,
                doc_end as int);
        }
        docids.append(&mut hits);
        proof {
            assert(docids@.take(old(docids)@.len() as int) =~= old(docids)@);
            assert(docids@.skip(old(docids)@.len() as int) =~= translated);
        }
    }

    /// Translating the matched rows of the covering row-id range back to
    /// docids yields exactly the strictly ascending docids of the documents
    /// in range holding a qualifying value.
    proof fn lemma_translated_range_semantics(&self, value_lo: T, value_hi: T, ds: int, de: int)
        requires
            self.wf(),
            0 <= ds <= de <= self.num_docs_spec(),
        ensures
            ({
                let (rs, re) = self.idx.rowid_range_spec(ds, de);
                let matched = rows_in_value_range(
                    self.values.vals(),
                    value_lo,
                    value_hi,
                    rs,
                    re,
                );
                let translated = self.idx.select_batch_spec(matched, ds);
                &&& sorted_strict(translated)
                &&& forall|d: u32|
                    #[trigger] translated.contains(d) <==> (ds <= d < de
                        && self.doc_has_value_in(d as int, value_lo, value_hi))
            }),
    {
        let vals = self.values.vals();
        let (rs, re) = self.idx.rowid_range_spec(ds, de);
        match self.idx {
            ColumnIndex::Full => {
                let matched = rows_in_value_range(vals, value_lo, value_hi, rs, re);
                let translated = self.idx.select_batch_spec(matched, ds);
                lemma_rows_in_value_range_props(vals, value_lo, value_hi, rs, re);
                assert(translated == matched);
                assert forall|d: u32| #[trigger] translated.contains(d) implies (ds <= d < de
                    && self.doc_has_value_in(d as int, value_lo, value_hi)) by {
                    assert(in_value_range(vals[d as int], value_lo, value_hi));
                    assert(self.idx.row_lo(d as int) <= d as int && (d as int) < self.idx.row_hi(
                        d as int,
                    ));
                }
                assert forall|d: u32| (ds <= d < de && self.doc_has_value_in(
                    d as int,
                    value_lo,
                    value_hi,
                )) implies #[trigger] translated.contains(d) by {
                    let r = choose|r: int|
                        self.idx.row_lo(d as int) <= r < self.idx.row_hi(d as int)
                            && in_value_range(#[trigger] vals[r], value_lo, value_hi);
                    assert(r == d as int);
                    assert(matched.contains(d));
                }
            },
            ColumnIndex::Optional(o) => {
                let matched = rows_in_value_range(vals, value_lo, value_hi, rs, re);
                let translated = self.idx.select_batch_spec(matched, ds);
                let ids = o.docids@;
                lemma_first_geq_props(ids, ds);
                lemma_first_geq_props(ids, de);
                assert(rs <= re) by {
                    if re < rs {
                        assert(ids[re] >= de);
                        assert(ids[re] < ds);
                    }
                }
                lemma_rows_in_value_range_props(vals, value_lo, value_hi, rs, re);
                assert(translated == matched.map(|_i: int, r: u32| ids[r as int]));
                assert(sorted_strict(translated)) by {
                    assert forall|i: int, j: int|
                        0 <= i < j < translated.len() implies translated[i] < translated[j] by {
                        assert(matched[i] < matched[j]);
                        assert((matched[j] as int) < re <= ids.len());
                        assert(ids[matched[i] as int] < ids[matched[j] as int]);
                    }
                }
                assert forall|d: u32| #[trigger] translated.contains(d) implies (ds <= d < de
                    && self.doc_has_value_in(d as int, value_lo, value_hi)) by {
                    let k = choose|k: int| 0 <= k < translated.len() && translated[k] == d;
                    let r = matched[k];
                    assert(matched.contains(r));
                    assert(rs <= r < re);
                    assert(ids[r as int] == d);
                    assert(ids[r as int] >= ds);
                    assert(ids[r as int] < de);
                    lemma_optional_doc_rows(ids, d as int);
                    assert(self.idx.row_lo(d as int) <= r as int && (r as int) < self.idx.row_hi(
                        d as int,
                    ));
                    assert(in_value_range(vals[r as int], value_lo, value_hi));
                }
                assert forall|d: u32| (ds <= d < de && self.doc_has_value_in(
                    d as int,
                    value_lo,
                    value_hi,
                )) implies #[trigger] translated.contains(d) by {
                    let r = choose|r: int|
                        self.idx.row_lo(d as int) <= r < self.idx.row_hi(d as int)
                            && in_value_range(#[trigger] vals[r], value_lo, value_hi);
                    lemma_optional_doc_rows(ids, d as int);
                    assert(0 <= r < ids.len() && ids[r] == d as int);
                    assert(rs <= r) by {
                        if r < rs {
                            assert(ids[r] < ds);
                        }
                    }
                    assert(r < re) by {
                        if r >= re {
                            assert(ids[r] >= de);
                        }
                    }
                    assert(matched.contains(r as u32));
                    let k = choose|k: int| 0 <= k < matched.len() && matched[k] == r as u32;
                    assert(translated[k] == d);
                    assert(translated.contains(d));
                }
            },
            ColumnIndex::Multivalued(m) => {
                let matched = rows_in_value_range(vals, value_lo, value_hi, rs, re);
                let translated = self.idx.select_batch_spec(matched, ds);
                let starts = m.start_offsets@;
                lemma_rows_in_value_range_props(vals, value_lo, value_hi, rs, re);
                assert(rs == starts[ds] && re == starts[de]);
                assert(starts[de] <= starts.last());
                let owners = matched.map(|_i: int, r: u32| owner_of(starts, r as int) as u32);
                assert(translated == dedup_adjacent(owners));
                assert forall|k: int| 0 <= k < owners.len() implies (ds <= #[trigger] owners[k]
                    && (owners[k] as int) < de) by {
                    let r = matched[k] as int;
                    assert(matched.contains(matched[k]));
                    lemma_owner_props(starts, r);
                    let d = owner_of(starts, r);
                    if d < ds {
                        assert(starts[d + 1] <= starts[ds]);
                    }
                    if d >= de {
                        assert(starts[de] <= starts[d]);
                    }
                }
                assert(sorted_nondecr(owners)) by {
                    assert forall|i: int, j: int| 0 <= i < j < owners.len() implies owners[i]
                        <= owners[j] by {
                        assert(matched.contains(matched[i]));
                        assert(matched.contains(matched[j]));
                        lemma_owner_props(starts, matched[i] as int);
                        lemma_owner_props(starts, matched[j] as int);
                        lemma_owner_monotone(starts, matched[i] as int, matched[j] as int);
                    }
                }
                lemma_dedup_adjacent_props(owners);
                assert forall|d: u32| #[trigger] translated.contains(d) implies (ds <= d < de
                    && self.doc_has_value_in(d as int, value_lo, value_hi)) by {
                    assert(owners.contains(d));
                    let k = choose|k: int| 0 <= k < owners.len() && owners[k] == d;
                    let r = matched[k] as int;
                    assert(matched.contains(matched[k]));
                    lemma_owner_props(starts, r);
                    assert(owner_of(starts, r) == d as int);
                    assert(self.idx.row_lo(d as int) <= r && r < self.idx.row_hi(d as int));
                    assert(in_value_range(vals[r], value_lo, value_hi));
                }
                assert forall|d: u32| (ds <= d < de && self.doc_has_value_in(
                    d as int,
                    value_lo,
                    value_hi,
                )) implies #[trigger] translated.contains(d) by {
                    let w = choose|r: int|
                        self.idx.row_lo(d as int) <= r < self.idx.row_hi(d as int)
                            && in_value_range(#[trigger] vals[r], value_lo, value_hi);
                    assert(starts[d as int] <= w < starts[d as int + 1]);
                    lemma_owner_unique(starts, w, d as int);
                    assert(starts[ds] <= starts[d as int]);
                    assert(starts[d as int + 1] <= starts[de]);
                    assert(matched.contains(w as u32));
                    let k = choose|k: int| 0 <= k < matched.len() && matched[k] == w as u32;
                    assert(owners[k] == d);
                    assert(owners.contains(d));
                }
            },
        }
    }

    /// Rewraps the value store behind the canonical `u64` mapping,
    /// producing a `u64` column over the unchanged address-space index; no
    /// value is copied, the mapping is applied lazily per access.
    pub fn to_u64_monotonic(self) -> (r: Column<u64, MonotonicMapColumn<T, V>>)
        ensures
            r.idx == self.idx,
            r.values.inner == self.values,
            r.values.vals() == mapped_keys(self.values.vals()),
            r.values.min_spec() == self.values.min_spec().key(),
            r.values.max_spec() == self.values.max_spec().key(),
            self.wf() ==> r.wf() && r.num_docs_spec() == self.num_docs_spec(),
    {
        let values = monotonic_map_column(self.values);
        Column { idx: self.idx, values, marker: PhantomData }
    }

    /// Consumes the column into its default-filling adapter: a per-document
    /// view yielding the first value of each document, or `default_value`
    /// where a document has none.
    pub fn first_or_default_col(self, default_value: T) -> (r: FirstValueWithDefault<T, V>)
        ensures
            r.column == self,
            r.default_value == default_value,
    {
        FirstValueWithDefault { column: self, default_value }
    }
}

/// The per-document sequence a default-filling adapter exposes: the first
/// value of each document of `c`, or `default_value` for a document with
/// none.
pub open spec fn first_or_default_vals<T: MonotonicallyMappableToU64, V: ColumnValues<T>>(
    c: Column<T, V>,
    default_value: T,
) -> Seq<T> {
    Seq::new(
        c.num_docs_spec() as nat,
        |d: int|
            match c.first_spec(d) {
                Some(v) => v,
                None => default_value,
            },
    )
}

/// A read-only view over a column that yields one value per document: the
/// document's first value, or a caller-supplied default where it has none.
///
/// The adapter satisfies the same value-store contract as a plain store,
/// addressing documents where a store addresses rows; it is only meaningful
/// where the consumer intends per-document semantics. Its min/max sentinels
/// pass through from the wrapped store unchanged and deliberately do not
/// account for the default value lying outside the store's range.
pub struct FirstValueWithDefault<T, V> {
    /// The wrapped column.
    pub column: Column<T, V>,
    /// The value standing in for documents without one.
    pub default_value: T,
}

/// Scans the documents `[row_start, row_end)` of a column through the
/// default-filling view and appends those whose first-or-default value lies
/// in the inclusive range.
fn scan_first_or_default_rows<T: MonotonicallyMappableToU64, V: ColumnValues<T>>(
    column: &Column<T, V>,
    default_value: T,
    value_lo: T,
    value_hi: T,
    row_start: u32,
    row_end: u32,
    row_id_hits: &mut Vec<u32>,
)
    requires
        column.wf(),
        row_start <= row_end,
        row_end as int <= column.num_docs_spec(),
    ensures
        final(row_id_hits)@ == old(row_id_hits)@ + rows_in_value_range(
            first_or_default_vals(*column, default_value),
            value_lo,
            value_hi,
            row_start as int,
            row_end as int,
        ),
{
    let ghost fvals = first_or_default_vals(*column, default_value);
    let ghost orig: Seq<u32> = row_id_hits@;
    let lo_key = value_lo.to_u64();
    let hi_key = value_hi.to_u64();
    let mut i = row_start;
    while i < row_end
        invariant
            column.wf(),
            row_start <= i <= row_end,
            row_end as int <= column.num_docs_spec(),
            fvals == first_or_default_vals(*column, default_value),
            lo_key == value_lo.key(),
            hi_key == value_hi.key(),
            row_id_hits@ == orig + rows_in_value_range(
                fvals,
                value_lo,
                value_hi,
                row_start as int,
                i as int,
            ),
        decreases row_end - i,
    {
        let v = match column.first(i) {
            Some(v) => v,
            None => default_value,
        };
        let k = v.to_u64();
        proof {
            assert(fvals[i as int] == v);
            let pre = rows_in_value_range(fvals, value_lo, value_hi, row_start as int, i as int);
            let post = rows_in_value_range(fvals, value_lo, value_hi, row_start as int,
                i as int + 1);
            if in_value_range(fvals[i as int], value_lo, value_hi) {
                assert(post == pre.push(i));
                assert(orig + pre.push(i) =~= (orig + pre).push(i));
            } else {
                assert(post == pre);
            }
        }
        if lo_key <= k && k <= hi_key {
            row_id_hits.push(i);
        }
        i += 1;
    }
}

impl<T: MonotonicallyMappableToU64, V: ColumnValues<T>> ColumnValues<T> for FirstValueWithDefault<
    T,
    V,
> {
    open spec fn wf(&self) -> bool {
        self.column.wf()
    }

    open spec fn vals(&self) -> Seq<T> {
        first_or_default_vals(self.column, self.default_value)
    }

    open spec fn min_spec(&self) -> T {
        self.column.values.min_spec()
    }

    open spec fn max_spec(&self) -> T {
        self.column.values.max_spec()
    }

    fn get_val(&self, idx: u32) -> T {
        match self.column.first(idx) {
            Some(v) => v,
            None => self.default_value,
        }
    }

    fn num_vals(&self) -> u32 {
        self.column.num_docs()
    }

    fn min_value(&self) -> T {
        self.column.values.min_value()
    }

    fn max_value(&self) -> T {
        self.column.values.max_value()
    }

    fn get_row_ids_for_value_range(
        &self,
        value_lo: T,
        value_hi: T,
        row_start: u32,
        row_end: u32,
        row_id_hits: &mut Vec<u32>,
    ) {
        scan_first_or_default_rows(&self.column, self.default_value, value_lo, value_hi, row_start,
            row_end, row_id_hits);
    }
}

/// A full column spans exactly as many documents as stored values, and
/// every document's value sequence is exactly the store's element at its
/// own row id.
pub proof fn lemma_full_column_semantics<T: MonotonicallyMappableToU64, V: ColumnValues<T>>(
    c: Column<T, V>,
    d: int,
)
    requires
        c.wf(),
        c.idx is Full,
        c.doc_valid(d),
    ensures
        c.num_docs_spec() == c.values.vals().len(),
        c.values_spec(d) =~= seq![c.values.vals()[d]],
        c.first_spec(d) == Some(c.values.vals()[d]),
{
    c.lemma_doc_rows_in_bounds(d);
    assert(c.values_spec(d) =~= seq![c.values.vals()[d]]);
}

/// In an optional column every document has at most one value, and `first`
/// tells the whole story: it returns the single value of the document's
/// value sequence, or nothing exactly when that sequence is empty.
pub proof fn lemma_optional_first_values<T: MonotonicallyMappableToU64, V: ColumnValues<T>>(
    c: Column<T, V>,
    d: int,
)
    requires
        c.wf(),
        c.idx is Optional,
        c.doc_valid(d),
    ensures
        c.values_spec(d).len() <= 1,
        match c.first_spec(d) {
            Some(v) => c.values_spec(d) =~= seq![v],
            None => c.values_spec(d) =~= Seq::<T>::empty(),
        },
{
    c.lemma_doc_rows_in_bounds(d);
    if c.values_spec(d).len() > 0 {
        assert(c.values_spec(d) =~= seq![c.values_spec(d)[0]]);
    } else {
        assert(c.values_spec(d) =~= Seq::<T>::empty());
    }
}

/// The default-filling adapter returns the default exactly for documents
/// without a value and the true first value for every document with one.
pub proof fn lemma_first_or_default_semantics<T: MonotonicallyMappableToU64, V: ColumnValues<T>>(
    f: FirstValueWithDefault<T, V>,
    d: int,
)
    requires
        f.column.wf(),
        0 <= d < f.column.num_docs_spec(),
    ensures
        f.vals().len() == f.column.num_docs_spec(),
        f.vals()[d] == match f.column.first_spec(d) {
            Some(v) => v,
            None => f.default_value,
        },
{
}

/// Rewrapping a column through the canonical mapping keeps every value's
/// position and replaces it by its key, so the order of any two stored
/// values is preserved: the mapped values compare exactly as the original
/// values' keys do.
pub proof fn lemma_to_u64_monotonic_preserves_order<
    T: MonotonicallyMappableToU64,
    V: ColumnValues<T>,
>(c: Column<T, V>, m: Column<u64, MonotonicMapColumn<T, V>>, i: int, j: int)
    requires
        m.values.inner == c.values,
        0 <= i < c.values.vals().len(),
        0 <= j < c.values.vals().len(),
    ensures
        m.values.vals().len() == c.values.vals().len(),
        m.values.vals()[i] == c.values.vals()[i].key(),
        (m.values.vals()[i] < m.values.vals()[j]) <==> (c.values.vals()[i].key()
            < c.values.vals()[j].key()),
{
}

} // verus!
