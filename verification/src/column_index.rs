//! The address-space index: the structure translating between docid space
//! and row-id space according to the column's cardinality.
//!
//! It is a closed tagged variant. A full column needs no state (docid and
//! row id coincide); an optional column keeps the ascending list of docids
//! that carry a value (the row id of such a docid is its position in that
//! list); a multivalued column keeps per-document start offsets, one extra
//! sentinel offset at the end holding the total row count.

use vstd::prelude::*;

use crate::cardinality::Cardinality;
use crate::seqs::{dedup_adjacent, lemma_dedup_adjacent_props, sorted_nondecr, sorted_strict};

verus! {

/// The first position of `s` holding a value `>= x`; `s.len()` if none does.
pub open spec fn first_geq(s: Seq<u32>, x: int) -> int
    decreases s.len(),
{
    if s.len() == 0 {
        0
    } else if s[0] >= x {
        0
    } else {
        1 + first_geq(s.skip(1), x)
    }
}

/// The first position of `s` holding a value `> x`; `s.len()` if none does.
pub open spec fn first_above(s: Seq<u32>, x: int) -> int {
    first_geq(s, x + 1)
}

/// On an ascending sequence, `first_geq` splits the positions: everything
/// before it is below `x`, everything from it on is at least `x`.
pub proof fn lemma_first_geq_props(s: Seq<u32>, x: int)
    requires
        sorted_nondecr(s),
    ensures
        0 <= first_geq(s, x) <= s.len(),
        forall|i: int| 0 <= i < first_geq(s, x) ==> s[i] < x,
        forall|i: int| first_geq(s, x) <= i < s.len() ==> s[i] >= x,
    decreases s.len(),
{
    if s.len() > 0 && s[0] < x {
        let t = s.skip(1);
        assert(sorted_nondecr(t)) by {
            assert forall|i: int, j: int| 0 <= i < j < t.len() implies t[i] <= t[j] by {
                assert(s[i + 1] <= s[j + 1]);
            }
        }
        lemma_first_geq_props(t, x);
        let p = first_geq(s, x);
        assert(p == 1 + first_geq(t, x));
        assert forall|i: int| 0 <= i < p implies s[i] < x by {
            if i > 0 {
                assert(t[i - 1] < x);
            }
        }
        assert forall|i: int| p <= i < s.len() implies s[i] >= x by {
            assert(t[i - 1] >= x);
        }
    }
}

/// A position that splits an ascending sequence at `x` is `first_geq`.
pub proof fn lemma_first_geq_unique(s: Seq<u32>, x: int, p: int)
    requires
        sorted_nondecr(s),
        0 <= p <= s.len(),
        forall|i: int| 0 <= i < p ==> s[i] < x,
        forall|i: int| p <= i < s.len() ==> s[i] >= x,
    ensures
        first_geq(s, x) == p,
{
    lemma_first_geq_props(s, x);
    let q = first_geq(s, x);
    if q < p {
        assert(s[q] < x);
        assert(s[q] >= x);
    }
    if p < q {
        assert(s[p] >= x);
        assert(s[p] < x);
    }
}

/// On a strictly ascending sequence each element is at least its position.
pub proof fn lemma_sorted_strict_index_lower_bound(s: Seq<u32>, i: int)
    requires
        sorted_strict(s),
        0 <= i < s.len(),
    ensures
        s[i] >= i,
    decreases i,
{
    if i > 0 {
        lemma_sorted_strict_index_lower_bound(s, i - 1);
        assert(s[i - 1] < s[i]);
    }
}

/// The document owning row `r` in a multivalued index with start offsets
/// `starts`: the `d` with `starts[d] <= r < starts[d + 1]`.
pub open spec fn owner_of(starts: Seq<u32>, r: int) -> int {
    first_above(starts, r) - 1
}

/// Every row below the total row count has a well-defined owning document,
/// and the owner's row range indeed covers the row.
pub proof fn lemma_owner_props(starts: Seq<u32>, r: int)
    requires
        starts.len() >= 1,
        starts[0] == 0,
        sorted_nondecr(starts),
        0 <= r < starts.last(),
    ensures
        0 <= owner_of(starts, r) < starts.len() - 1,
        starts[owner_of(starts, r)] <= r,
        r < starts[owner_of(starts, r) + 1],
{
    lemma_first_geq_props(starts, r + 1);
    let p = first_above(starts, r);
    assert(starts[0] <= r);
    assert(p >= 1);
    if p > starts.len() - 1 {
        assert(starts[starts.len() - 1] < r + 1);
    }
}

/// A document whose row range covers `r` is the owner of `r`.
pub proof fn lemma_owner_unique(starts: Seq<u32>, r: int, d: int)
    requires
        starts.len() >= 1,
        starts[0] == 0,
        sorted_nondecr(starts),
        0 <= d < starts.len() - 1,
        starts[d] <= r < starts[d + 1],
    ensures
        owner_of(starts, r) == d,
{
    assert forall|i: int| 0 <= i < d + 1 implies starts[i] < r + 1 by {
        assert(starts[i] <= starts[d]);
    }
    assert forall|i: int| d + 1 <= i < starts.len() implies starts[i] >= r + 1 by {
        assert(starts[d + 1] <= starts[i]);
    }
    lemma_first_geq_unique(starts, r + 1, d + 1);
}

/// Owners respect the row order: a later row is never owned by an earlier
/// document.
pub proof fn lemma_owner_monotone(starts: Seq<u32>, r1: int, r2: int)
    requires
        starts.len() >= 1,
        starts[0] == 0,
        sorted_nondecr(starts),
        0 <= r1 <= r2 < starts.last(),
    ensures
        owner_of(starts, r1) <= owner_of(starts, r2),
{
    lemma_owner_props(starts, r1);
    lemma_owner_props(starts, r2);
    let d1 = owner_of(starts, r1);
    let d2 = owner_of(starts, r2);
    if d2 < d1 {
        assert(starts[d2 + 1] <= starts[d1]);
    }
}

/// In an optional index the row range of a document holds exactly the
/// positions of that docid in the ascending docid list: at most one.
pub proof fn lemma_optional_doc_rows(docids: Seq<u32>, d: int)
    requires
        sorted_strict(docids),
    ensures
        0 <= first_geq(docids, d) <= first_above(docids, d) <= docids.len(),
        first_above(docids, d) <= first_geq(docids, d) + 1,
        forall|r: int|
            (first_geq(docids, d) <= r < first_above(docids, d)) <==> (0 <= r < docids.len()
                && docids[r] == d),
{
    lemma_first_geq_props(docids, d);
    lemma_first_geq_props(docids, d + 1);
    let fg = first_geq(docids, d);
    let fa = first_above(docids, d);
    if fa < fg {
        assert(docids[fa] >= d + 1);
        assert(docids[fa] < d);
    }
    if fa > fg + 1 {
        assert(docids[fg] >= d && docids[fg] < d + 1);
        assert(docids[fg + 1] >= d && docids[fg + 1] < d + 1);
        assert(docids[fg] < docids[fg + 1]);
    }
    assert forall|r: int| (fg <= r < fa) implies (0 <= r < docids.len() && docids[r] == d) by {
        assert(docids[r] >= d);
        assert(docids[r] < d + 1);
    }
}

/// The sparse docid-to-rowid index of an optional column.
pub struct OptionalIndex {
    /// Total number of documents, including those with no value.
    pub num_docs: u32,
    /// The docids carrying a value, strictly ascending; the row id of a
    /// value is the position of its docid here.
    pub docids: Vec<u32>,
}

impl OptionalIndex {
    /// Internal consistency: docids strictly ascending and in document
    /// range.
    pub open spec fn wf(&self) -> bool {
        &&& sorted_strict(self.docids@)
        &&& forall|i: int| 0 <= i < self.docids@.len() ==> #[trigger] self.docids@[i] < self.num_docs
    }
}

/// The start-offset index of a multivalued column: document `d` owns the
/// row range `[start_offsets[d], start_offsets[d + 1])`.
pub struct MultiValueIndex {
    /// One start offset per document plus a final sentinel equal to the
    /// total row count; ascending, beginning at zero.
    pub start_offsets: Vec<u32>,
}

impl MultiValueIndex {
    /// Internal consistency of the offsets.
    pub open spec fn wf(&self) -> bool {
        &&& 1 <= self.start_offsets@.len() <= u32::MAX
        &&& self.start_offsets@[0] == 0
        &&& sorted_nondecr(self.start_offsets@)
    }

    /// The number of documents: one less than the number of stored offsets.
    pub open spec fn num_docs_spec(&self) -> int {
        self.start_offsets@.len() - 1
    }

    /// The total number of rows, read off the final sentinel offset.
    pub open spec fn total_rows(&self) -> int {
        self.start_offsets@.last() as int
    }

    /// Returns the number of documents.
    pub fn num_docs(&self) -> (r: u32)
        requires
            self.wf(),
        ensures
            r as int == self.num_docs_spec(),
    {
        (self.start_offsets.len() - 1) as u32
    }
}

/// The address-space index of a column, dispatching on cardinality.
pub enum ColumnIndex {
    /// Every document has exactly one value: the identity mapping.
    Full,
    /// Zero or one value per document.
    Optional(OptionalIndex),
    /// Zero or more values per document, stored contiguously.
    Multivalued(MultiValueIndex),
}

impl ColumnIndex {
    /// Internal consistency of whichever variant is held.
    pub open spec fn wf(&self) -> bool {
        match self {
            ColumnIndex::Full => true,
            ColumnIndex::Optional(o) => o.wf(),
            ColumnIndex::Multivalued(m) => m.wf(),
        }
    }

    /// The cardinality this index realizes.
    pub open spec fn cardinality_spec(&self) -> Cardinality {
        match self {
            ColumnIndex::Full => Cardinality::Full,
            ColumnIndex::Optional(_) => Cardinality::Optional,
            ColumnIndex::Multivalued(_) => Cardinality::Multivalued,
        }
    }

    /// First row id owned by document `d` (inclusive).
    pub open spec fn row_lo(&self, d: int) -> int {
        match self {
            ColumnIndex::Full => d,
            ColumnIndex::Optional(o) => first_geq(o.docids@, d),
            ColumnIndex::Multivalued(m) => m.start_offsets@[d] as int,
        }
    }

    /// First row id past those owned by document `d` (exclusive).
    pub open spec fn row_hi(&self, d: int) -> int {
        match self {
            ColumnIndex::Full => d + 1,
            ColumnIndex::Optional(o) => first_above(o.docids@, d),
            ColumnIndex::Multivalued(m) => m.start_offsets@[d + 1] as int,
        }
    }

    /// Whether `d` names a document this index can resolve on its own;
    /// a full index has no document count of its own, the owning column
    /// bounds `d` by its store instead.
    pub open spec fn doc_valid(&self, d: int) -> bool {
        match self {
            ColumnIndex::Full => 0 <= d < u32::MAX,
            ColumnIndex::Optional(o) => 0 <= d,
            ColumnIndex::Multivalued(m) => 0 <= d < m.num_docs_spec(),
        }
    }

    /// The row-id range that covers all rows of documents in `[ds, de)`.
    pub open spec fn rowid_range_spec(&self, ds: int, de: int) -> (int, int) {
        match self {
            ColumnIndex::Full => (ds, de),
            ColumnIndex::Optional(o) => (first_geq(o.docids@, ds), first_geq(o.docids@, de)),
            ColumnIndex::Multivalued(m) => (
                m.start_offsets@[ds] as int,
                m.start_offsets@[de] as int,
            ),
        }
    }

    /// Whether `[ds, de)` is a docid range this index can translate.
    pub open spec fn doc_range_valid(&self, ds: int, de: int) -> bool {
        0 <= ds <= de && match self {
            ColumnIndex::Full => true,
            ColumnIndex::Optional(_) => true,
            ColumnIndex::Multivalued(m) => de < m.start_offsets@.len(),
        }
    }

    /// What the batch translation of row ids back to docids requires of its
    /// input: every row id must belong to an existing document, and for a
    /// multivalued index the batch must be ascending and at or past the
    /// rows of the base document.
    pub open spec fn select_batch_pre(&self, rows: Seq<u32>, base: int) -> bool {
        match self {
            ColumnIndex::Full => true,
            ColumnIndex::Optional(o) => forall|i: int|
                0 <= i < rows.len() ==> (#[trigger] rows[i] as int) < o.docids@.len(),
            ColumnIndex::Multivalued(m) => {
                &&& sorted_nondecr(rows)
                &&& 0 <= base < m.start_offsets@.len()
                &&& forall|i: int|
                    0 <= i < rows.len() ==> m.start_offsets@[base] <= #[trigger] rows[i]
                        && (rows[i] as int) < m.total_rows()
            },
        }
    }

    /// What the batch translation produces: for a full index the rows
    /// already are docids; for an optional index each row maps to its
    /// docid; for a multivalued index each row maps to its owning docid and
    /// adjacent duplicates are collapsed, so no docid is emitted twice for
    /// an ascending batch.
    pub open spec fn select_batch_spec(&self, rows: Seq<u32>, base: int) -> Seq<u32> {
        match self {
            ColumnIndex::Full => rows,
            ColumnIndex::Optional(o) => rows.map(|_i: int, r: u32| o.docids@[r as int]),
            ColumnIndex::Multivalued(m) => dedup_adjacent(
                rows.map(|_i: int, r: u32| owner_of(m.start_offsets@, r as int) as u32),
            ),
        }
    }

    /// Returns the cardinality this index realizes.
    pub fn get_cardinality(&self) -> (r: Cardinality)
        ensures
            r == self.cardinality_spec(),
    {
        match self {
            ColumnIndex::Full => Cardinality::Full,
            ColumnIndex::Optional(_) => Cardinality::Optional,
            ColumnIndex::Multivalued(_) => Cardinality::Multivalued,
        }
    }

    /// Returns the row-id range `[r.0, r.1)` owned by document `doc`: empty
    /// for an optional document with no value, the identity for a full
    /// index.
    pub fn value_row_ids(&self, doc: u32) -> (r: (u32, u32))
        requires
            self.wf(),
            self.doc_valid(doc as int),
        ensures
            r.0 as int == self.row_lo(doc as int),
            r.1 as int == self.row_hi(doc as int),
            r.0 <= r.1,
            match self {
                ColumnIndex::Full => true,
                ColumnIndex::Optional(o) => r.1 as int <= o.docids@.len(),
                ColumnIndex::Multivalued(m) => r.1 as int <= m.total_rows(),
            },
    {
        match self {
            ColumnIndex::Full => (doc, doc + 1),
            ColumnIndex::Optional(o) => {
                let p = first_geq_exec(&o.docids, doc);
                proof {
                    lemma_first_geq_props(o.docids@, doc as int);
                    lemma_sorted_len_bound(o.docids@, o.num_docs as int);
                }
                if p < o.docids.len() && o.docids[p] == doc {
                    proof {
                        assert forall|i: int| 0 <= i < p + 1 implies o.docids@[i] < doc as int
                            + 1 by {
                            if i < p {
                                assert(o.docids@[i] < doc as int);
                            }
                        }
                        assert forall|i: int| p + 1 <= i < o.docids@.len() implies o.docids@[i]
                            >= doc as int + 1 by {
                            assert(o.docids@[p as int] < o.docids@[i]);
                        }
                        lemma_first_geq_unique(o.docids@, doc as int + 1, p as int + 1);
                    }
                    ((p as u32), (p as u32) + 1)
                } else {
                    proof {
                        assert forall|i: int| p <= i < o.docids@.len() implies o.docids@[i]
                            >= doc as int + 1 by {
                            if i == p {
                                assert(o.docids@[p as int] >= doc as int);
                            } else {
                                assert(o.docids@[p as int] <= o.docids@[i]);
                                assert(o.docids@[p as int] >= doc as int);
                            }
                        }
                        lemma_first_geq_unique(o.docids@, doc as int + 1, p as int);
                    }
                    ((p as u32), (p as u32))
                }
            },
            ColumnIndex::Multivalued(m) => {
                let lo = m.start_offsets[doc as usize];
                let hi = m.start_offsets[doc as usize + 1];
                proof {
                    assert(m.start_offsets@[doc as int] <= m.start_offsets@[doc as int + 1]);
                    assert(m.start_offsets@[doc as int + 1] <= m.start_offsets@.last());
                }
                (lo, hi)
            },
        }
    }

    /// Translates a docid range to the minimal row-id range covering every
    /// row of the documents in it.
    pub fn docid_range_to_rowids(&self, doc_start: u32, doc_end: u32) -> (r: (u32, u32))
        requires
            self.wf(),
            self.doc_range_valid(doc_start as int, doc_end as int),
        ensures
            r.0 as int == self.rowid_range_spec(doc_start as int, doc_end as int).0,
            r.1 as int == self.rowid_range_spec(doc_start as int, doc_end as int).1,
            r.0 <= r.1,
            match self {
                ColumnIndex::Full => true,
                ColumnIndex::Optional(o) => r.1 as int <= o.docids@.len(),
                ColumnIndex::Multivalued(m) => r.1 as int <= m.total_rows(),
            },
    {
        match self {
            ColumnIndex::Full => (doc_start, doc_end),
            ColumnIndex::Optional(o) => {
                let lo = first_geq_exec(&o.docids, doc_start);
                let hi = first_geq_exec(&o.docids, doc_end);
                proof {
                    lemma_first_geq_props(o.docids@, doc_start as int);
                    lemma_first_geq_props(o.docids@, doc_end as int);
                    lemma_sorted_len_bound(o.docids@, o.num_docs as int);
                    if hi < lo {
                        assert(o.docids@[hi as int] >= doc_end as int);
                        assert(o.docids@[hi as int] < doc_start as int);
                    }
                }
                ((lo as u32), (hi as u32))
            },
            ColumnIndex::Multivalued(m) => {
                let lo = m.start_offsets[doc_start as usize];
                let hi = m.start_offsets[doc_end as usize];
                proof {
                    assert(m.start_offsets@[doc_start as int] <= m.start_offsets@[doc_end as int]);
                    assert(m.start_offsets@[doc_end as int] <= m.start_offsets@.last());
                }
                (lo, hi)
            },
        }
    }

    /// Rewrites a batch of row ids in place into the docids that produced
    /// them, taking `doc_id_start` as the first document the batch may
    /// touch. For a multivalued index adjacent runs of rows owned by one
    /// document collapse to a single docid, so an ascending batch never
    /// produces a duplicate docid.
    pub fn select_batch_in_place(&self, row_ids: &mut Vec<u32>, doc_id_start: u32)
        requires
            self.wf(),
            self.select_batch_pre(old(row_ids)@, doc_id_start as int),
        ensures
            final(row_ids)@ == self.select_batch_spec(old(row_ids)@, doc_id_start as int),
    {
        match self {
            ColumnIndex::Full => {},
            ColumnIndex::Optional(o) => {
                select_optional_batch(&o.docids, row_ids);
            },
            ColumnIndex::Multivalued(m) => {
                select_multivalued_batch(&m.start_offsets, row_ids, doc_id_start);
            },
        }
    }
}

/// A strictly ascending sequence of values below `n` has at most `n`
/// entries.
pub proof fn lemma_sorted_len_bound(s: Seq<u32>, n: int)
    requires
        sorted_strict(s),
        forall|i: int| 0 <= i < s.len() ==> #[trigger] s[i] < n,
        n >= 0,
    ensures
        s.len() <= n,
{
    if s.len() > n {
        lemma_sorted_strict_index_lower_bound(s, n);
        assert(s[n] < n);
    }
}

/// Returns the first position of `s` holding a value `>= x`; the length of
/// `s` if none does.
fn first_geq_exec(s: &Vec<u32>, x: u32) -> (r: usize)
    requires
        sorted_nondecr(s@),
    ensures
        r as int == first_geq(s@, x as int),
        r <= s@.len(),
{
    let mut i: usize = 0;
    while i < s.len() && s[i] < x
        invariant
            0 <= i <= s@.len(),
            forall|j: int| 0 <= j < i ==> s@[j] < x,
        decreases s@.len() - i,
    {
        i += 1;
    }
    proof {
        assert forall|j: int| i <= j < s@.len() implies s@[j] >= x as int by {
            assert(s@[i as int] <= s@[j]);
        }
        lemma_first_geq_unique(s@, x as int, i as int);
    }
    i
}

/// Maps each row id of the batch to the docid whose single value sits at
/// that row, using the ascending docid list of an optional index.
fn select_optional_batch(docids: &Vec<u32>, row_ids: &mut Vec<u32>)
    requires
        forall|i: int|
            0 <= i < old(row_ids)@.len() ==> (#[trigger] old(row_ids)@[i] as int) < docids@.len(),
    ensures
        final(row_ids)@ == old(row_ids)@.map(|_i: int, r: u32| docids@[r as int]),
{
    let ghost rows = row_ids@;
    let ghost target = rows.map(|_i: int, r: u32| docids@[r as int]);
    let mut out: Vec<u32> = Vec::new();
    let mut i: usize = 0;
    while i < row_ids.len()
        invariant
            row_ids@ == rows,
            0 <= i <= rows.len(),
            target == rows.map(|_i: int, r: u32| docids@[r as int]),
            forall|k: int| 0 <= k < rows.len() ==> (#[trigger] rows[k] as int) < docids@.len(),
            out@ == target.take(i as int),
        decreases rows.len() - i,
    {
        let r = row_ids[i];
        out.push(docids[r as usize]);
        proof {
            assert(out@ =~= target.take(i as int + 1));
        }
        i += 1;
    }
    proof {
        assert(target.take(rows.len() as int) =~= target);
    }
    *row_ids = out;
}

/// Maps each row id of an ascending batch to its owning docid in a
/// multivalued index and collapses adjacent duplicates, walking the start
/// offsets forward from `base`.
fn select_multivalued_batch(starts: &Vec<u32>, row_ids: &mut Vec<u32>, base: u32)
    requires
        1 <= starts@.len() <= u32::MAX,
        starts@[0] == 0,
        sorted_nondecr(starts@),
        sorted_nondecr(old(row_ids)@),
        0 <= (base as int) < starts@.len(),
        forall|i: int|
            0 <= i < old(row_ids)@.len() ==> starts@[base as int] <= #[trigger] old(row_ids)@[i]
                && (old(row_ids)@[i] as int) < starts@.last(),
    ensures
        final(row_ids)@ == dedup_adjacent(
            old(row_ids)@.map(|_i: int, r: u32| owner_of(starts@, r as int) as u32),
        ),
{
    let ghost rows = row_ids@;
    let ghost owners = rows.map(|_i: int, r: u32| owner_of(starts@, r as int) as u32);
    proof {
        assert forall|k: int| 0 <= k < owners.len() implies (0 <= (#[trigger] owners[k] as int)
            && (owners[k] as int) < starts@.len() - 1) by {
            lemma_owner_props(starts@, rows[k] as int);
        }
        assert(sorted_nondecr(owners)) by {
            assert forall|i: int, j: int| 0 <= i < j < owners.len() implies owners[i]
                <= owners[j] by {
                lemma_owner_props(starts@, rows[i] as int);
                lemma_owner_props(starts@, rows[j] as int);
                lemma_owner_monotone(starts@, rows[i] as int, rows[j] as int);
            }
        }
    }
    let mut out: Vec<u32> = Vec::new();
    let mut d: u32 = base;
    let mut i: usize = 0;
    while i < row_ids.len()
        invariant
            row_ids@ == rows,
            0 <= i <= rows.len(),
            1 <= starts@.len() <= u32::MAX,
            starts@[0] == 0,
            sorted_nondecr(starts@),
            sorted_nondecr(rows),
            0 <= (base as int) < starts@.len(),
            forall|k: int|
                0 <= k < rows.len() ==> starts@[base as int] <= #[trigger] rows[k] && (
                rows[k] as int) < starts@.last(),
            owners == rows.map(|_i: int, r: u32| owner_of(starts@, r as int) as u32),
            forall|k: int|
                0 <= k < owners.len() ==> (0 <= (#[trigger] owners[k] as int) && (
                owners[k] as int) < starts@.len() - 1),
            sorted_nondecr(owners),
            out@ == dedup_adjacent(owners.take(i as int)),
            (d as int) < starts@.len(),
            if i == 0 {
                d == base
            } else {
                d == owners[i - 1]
            },
            i > 0 ==> starts@[d as int] <= rows[i - 1],
        decreases rows.len() - i,
    {
        let r = row_ids[i];
        proof {
            lemma_owner_props(starts@, r as int);
            if i > 0 {
                lemma_owner_props(starts@, rows[i - 1] as int);
                assert(rows[i - 1] <= r);
            } else {
                assert(starts@[base as int] <= r);
            }
        }
        while d + 1 < (starts.len() as u32) && starts[(d + 1) as usize] <= r
            invariant
                1 <= starts@.len() <= u32::MAX,
                starts@[0] == 0,
                sorted_nondecr(starts@),
                (d as int) < starts@.len(),
                starts@[d as int] <= r,
                (r as int) < starts@.last(),
                d as int >= owner_of(starts@, r as int) ==> d as int == owner_of(
                    starts@,
                    r as int,
                ),
                d as int <= owner_of(starts@, r as int),
            decreases starts@.len() - d,
        {
            proof {
                lemma_owner_props(starts@, r as int);
                let o = owner_of(starts@, r as int);
                if d as int + 1 > o {
                    assert(starts@[o + 1] <= starts@[d as int + 1]);
                }
            }
            d = d + 1;
        }
        proof {
            lemma_owner_props(starts@, r as int);
            let o = owner_of(starts@, r as int);
            if (d as int) < o {
                if d as int + 1 >= starts@.len() as int {
                    assert(o < starts@.len() - 1);
                } else {
                    assert(starts@[d as int + 1] <= starts@[o]);
                    assert(starts@[o] <= r);
                }
            }
            assert(d as int == o);
            assert(owners[i as int] == d);
        }
        if out.len() == 0 {
            out.push(d);
        } else {
            let last = out[out.len() - 1];
            if last != d {
                out.push(d);
            }
        }
        proof {
            let pre = owners.take(i as int);
            let cur = owners.take(i as int + 1);
            assert(cur.drop_last() =~= pre);
            assert(cur.last() == d);
            assert(sorted_nondecr(pre)) by {
                assert forall|a: int, b: int| 0 <= a < b < pre.len() implies pre[a] <= pre[b] by {
                    assert(owners[a] <= owners[b]);
                }
            }
            lemma_dedup_adjacent_props(pre);
            if i == 0 {
                assert(cur =~= seq![d]);
                assert(dedup_adjacent(cur) =~= dedup_adjacent(cur.drop_last()).push(d));
            } else {
                assert(pre.len() > 0);
                assert(pre.last() == owners[i - 1]);
                if owners[i - 1] == d {
                    assert(cur.len() >= 2 && cur[cur.len() - 1] == cur[cur.len() - 2]);
                    assert(dedup_adjacent(cur) == dedup_adjacent(pre));
                } else {
                    assert(!(cur.len() >= 2 && cur[cur.len() - 1] == cur[cur.len() - 2]));
                    assert(dedup_adjacent(cur) == dedup_adjacent(pre).push(d));
                    assert(dedup_adjacent(pre).len() > 0);
                    assert(dedup_adjacent(pre).last() == owners[i - 1]);
                }
            }
        }
        i += 1;
    }
    proof {
        assert(owners.take(rows.len() as int) =~= owners);
    }
    *row_ids = out;
}

} // verus!
