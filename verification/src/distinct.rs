//! The distinct metric aggregation: collects the set of distinct `u64`
//! values of a field over blocks of documents, with mergeable intermediate
//! state.

use vstd::prelude::*;

use crate::column_values::ColumnValues;

verus! {

/// The declared value type of a schema field an aggregation reads.
#[derive(Clone, Copy, Debug, PartialEq, Eq, Structural)]
pub enum Type {
    /// A string field.
    Str,
    /// An unsigned integer field.
    U64,
    /// A signed integer field.
    I64,
    /// A floating-point field.
    F64,
    /// A boolean field.
    Bool,
    /// A date field.
    Date,
    /// A facet field.
    Facet,
    /// A bytes field.
    Bytes,
    /// A json object field.
    Json,
    /// An IP address field.
    IpAddr,
}

/// A single-value metric aggregation that counts the distinct values of a
/// fast field over the aggregated documents.
#[derive(Clone, Debug, PartialEq)]
pub struct DistinctAggregation {
    /// The field name to compute the distinct count on.
    pub field: String,
}

impl DistinctAggregation {
    /// Creates a new aggregation over a field.
    pub fn from_field_name(field_name: String) -> (r: Self)
        ensures
            r.field == field_name,
    {
        DistinctAggregation { field: field_name }
    }

    /// Returns the field name.
    pub fn field_name(&self) -> (r: &str)
        ensures
            r@ == self.field@,
    {
        self.field.as_str()
    }
}

/// The sequence is strictly ascending: each value occurs once, in order.
pub open spec fn terms_sorted(s: Seq<u64>) -> bool {
    forall|i: int, j: int| 0 <= i < j < s.len() ==> s[i] < s[j]
}

/// Whether any of the first `n` documents of `docs` carries the field
/// value `x`.
pub open spec fn seen(field_vals: Seq<u64>, docs: Seq<u32>, n: int, x: u64) -> bool {
    exists|k: int| 0 <= k < n && field_vals[(#[trigger] docs[k]) as int] == x
}

/// Looking one document further extends the seen values by exactly that
/// document's field value.
proof fn lemma_seen_step(field_vals: Seq<u64>, docs: Seq<u32>, n: int)
    requires
        0 <= n < docs.len(),
    ensures
        forall|x: u64|
            seen(field_vals, docs, n + 1, x) <==> (seen(field_vals, docs, n, x) || field_vals[(
            docs[n]) as int] == x),
{
    assert forall|x: u64| seen(field_vals, docs, n + 1, x) implies (seen(field_vals, docs, n, x)
        || field_vals[(docs[n]) as int] == x) by {
        let k = choose|k: int| 0 <= k < n + 1 && field_vals[(#[trigger] docs[k]) as int] == x;
        if k < n {
            assert(seen(field_vals, docs, n, x));
        }
    }
    assert forall|x: u64| (seen(field_vals, docs, n, x) || field_vals[(docs[n]) as int]
        == x) implies seen(field_vals, docs, n + 1, x) by {
        if seen(field_vals, docs, n, x) {
            let k = choose|k: int| 0 <= k < n && field_vals[(#[trigger] docs[k]) as int] == x;
            assert(0 <= k < n + 1 && field_vals[(docs[k]) as int] == x);
        } else {
            assert(0 <= n < n + 1 && field_vals[(docs[n]) as int] == x);
        }
    }
}

/// Mergeable intermediate state of the distinct aggregation: the distinct
/// values collected so far and a running count.
///
/// Within one collector the count tracks the number of distinct values
/// exactly; merging adds the counts of both sides even where their value
/// sets overlap, as the merged count is a plain sum.
#[derive(Clone, Debug, PartialEq)]
pub struct IntermediateDistinct {
    /// The distinct values collected, strictly ascending.
    pub terms: Vec<u64>,
    /// The running distinct count.
    pub term_count: u64,
}

impl Default for IntermediateDistinct {
    /// The empty state: no values, zero count.
    fn default() -> (r: Self)
        ensures
            r.terms@ == Seq::<u64>::empty(),
            r.term_count == 0,
    {
        IntermediateDistinct { terms: Vec::new(), term_count: 0 }
    }
}

/// Inserts `val` into a strictly ascending vector if absent, keeping the
/// order; reports whether it was inserted.
fn insert_sorted(terms: &mut Vec<u64>, val: u64) -> (inserted: bool)
    requires
        terms_sorted(old(terms)@),
    ensures
        terms_sorted(final(terms)@),
        inserted == !old(terms)@.contains(val),
        forall|x: u64| final(terms)@.contains(x) <==> (old(terms)@.contains(x) || x == val),
        final(terms)@.len() == old(terms)@.len() + if inserted {
            1int
        } else {
            0int
        },
{
    let ghost orig = terms@;
    let mut i: usize = 0;
    while i < terms.len() && terms[i] < val
        invariant
            0 <= i <= orig.len(),
            terms@ == orig,
            forall|j: int| 0 <= j < i ==> orig[j] < val,
        decreases orig.len() - i,
    {
        i += 1;
    }
    proof {
        assert forall|j: int| i <= j < orig.len() implies orig[j] >= val by {
            assert(orig[i as int] <= orig[j]);
        }
    }
    if i < terms.len() && terms[i] == val {
        proof {
            assert(orig.contains(val));
        }
        false
    } else {
        proof {
            if orig.contains(val) {
                let j = choose|j: int| 0 <= j < orig.len() && orig[j] == val;
            }
        }
        terms.insert(i, val);
        proof {
            let cur = terms@;
            assert(cur == orig.insert(i as int, val));
            assert forall|j: int| 0 <= j < cur.len() implies cur[j] == (if j < i {
                orig[j]
            } else if j == i {
                val
            } else {
                orig[j - 1]
            }) by {}
            assert(terms_sorted(cur)) by {
                assert forall|a: int, b: int| 0 <= a < b < cur.len() implies cur[a] < cur[b] by {
                    if a < i && b == i {
                        assert(cur[a] == orig[a] && cur[b] == val);
                    } else if a == i && b > i {
                        assert(cur[a] == val && cur[b] == orig[b - 1]);
                        assert(orig[b - 1] >= val);
                        assert(orig[b - 1] != val);
                    }
                }
            }
            assert forall|x: u64| cur.contains(x) implies (orig.contains(x) || x == val) by {
                let j = choose|j: int| 0 <= j < cur.len() && cur[j] == x;
                if j < i {
                    assert(orig[j] == x);
                } else if j > i {
                    assert(orig[j - 1] == x);
                }
            }
            assert forall|x: u64| (orig.contains(x) || x == val) implies cur.contains(x) by {
                if x == val {
                    assert(cur[i as int] == x);
                } else {
                    let j = choose|j: int| 0 <= j < orig.len() && orig[j] == x;
                    if j < i {
                        assert(cur[j] == x);
                    } else {
                        assert(cur[j + 1] == x);
                    }
                }
            }
        }
        true
    }
}

impl IntermediateDistinct {
    /// Internal consistency: the collected values are strictly ascending.
    pub open spec fn wf(&self) -> bool {
        terms_sorted(self.terms@)
    }

    /// Rebuilds an intermediate state from a plain list of values and a
    /// count, accepting the list only if it is strictly ascending.
    pub fn from_parts(terms: Vec<u64>, term_count: u64) -> (r: Option<IntermediateDistinct>)
        ensures
            match r {
                Some(d) => terms_sorted(terms@) && d.terms@ == terms@ && d.term_count
                    == term_count,
                None => !terms_sorted(terms@),
            },
    {
        let n = terms.len();
        let mut i: usize = 1;
        while i < n
            invariant
                terms@.len() == n,
                1 <= i,
                n > 0 ==> i <= n,
                n == 0 ==> i == 1,
                forall|a: int, b: int| 0 <= a < b < i && b < n ==> terms@[a] < terms@[b],
            decreases n - i,
        {
            if terms[i - 1] >= terms[i] {
                proof {
                    assert(!terms_sorted(terms@)) by {
                        assert(terms@[i - 1] >= terms@[i as int]);
                    }
                }
                return None;
            }
            proof {
                assert forall|a: int, b: int| 0 <= a < b < i + 1 && b < n implies terms@[a]
                    < terms@[b] by {
                    if b == i {
                        if a < i - 1 {
                            assert(terms@[a] < terms@[i - 1]);
                        }
                    }
                }
            }
            i += 1;
        }
        Some(IntermediateDistinct { terms, term_count })
    }

    /// Takes the intermediate state out of a segment collector.
    pub fn from_collector(collector: SegmentDistinctCollector) -> (r: Self)
        ensures
            r == collector.data,
    {
        collector.data
    }

    /// Merges another intermediate state into this one: the value sets are
    /// united, the counts are summed.
    pub fn merge_fruits(&mut self, other: IntermediateDistinct)
        requires
            old(self).wf(),
            other.wf(),
            old(self).term_count + other.term_count <= u64::MAX,
        ensures
            final(self).wf(),
            forall|x: u64|
                final(self).terms@.contains(x) <==> (old(self).terms@.contains(x)
                    || other.terms@.contains(x)),
            final(self).term_count == old(self).term_count + other.term_count,
    {
        let ghost incoming = other.terms@;
        let mut i: usize = 0;
        while i < other.terms.len()
            invariant
                0 <= i <= incoming.len(),
                other.terms@ == incoming,
                self.wf(),
                self.term_count == old(self).term_count,
                forall|x: u64|
                    self.terms@.contains(x) <==> (old(self).terms@.contains(x) || incoming.take(
                        i as int,
                    ).contains(x)),
            decreases incoming.len() - i,
        {
            let v = other.terms[i];
            insert_sorted(&mut self.terms, v);
            proof {
                let t = incoming.take(i as int + 1);
                assert(t.drop_last() =~= incoming.take(i as int));
                assert(t.last() == v);
                assert forall|x: u64| t.contains(x) implies (incoming.take(i as int).contains(x) || x
                    == v) by {
                    let j = choose|j: int| 0 <= j < t.len() && t[j] == x;
                    if j < t.len() - 1 {
                        assert(t.drop_last()[j] == x);
                    }
                }
                assert forall|x: u64| (incoming.take(i as int).contains(x) || x == v) implies
                    t.contains(x) by {
                    if incoming.take(i as int).contains(x) {
                        let j = choose|j: int|
                            0 <= j < incoming.take(i as int).len() && incoming.take(i as int)[j]
                                == x;
                        assert(t[j] == x);
                    } else {
                        assert(t[t.len() - 1] == x);
                    }
                }
            }
            i += 1;
        }
        proof {
            assert(incoming.take(incoming.len() as int) =~= incoming);
        }
        self.term_count = self.term_count + other.term_count;
    }

    /// Records one value: inserts it if new and advances the count exactly
    /// when it was new.
    pub fn collect(&mut self, val: u64)
        requires
            old(self).wf(),
            old(self).terms@.contains(val) || old(self).term_count < u64::MAX,
        ensures
            final(self).wf(),
            forall|x: u64|
                final(self).terms@.contains(x) <==> (old(self).terms@.contains(x) || x == val),
            final(self).term_count == old(self).term_count + if old(self).terms@.contains(val) {
                0int
            } else {
                1int
            },
            final(self).terms@.len() == old(self).terms@.len() + if old(self).terms@.contains(
                val,
            ) {
                0int
            } else {
                1int
            },
    {
        if insert_sorted(&mut self.terms, val) {
            self.term_count = self.term_count + 1;
        }
    }
}

/// Per-segment collector of the distinct aggregation: feeds blocks of
/// docids through a `u64` fast-field view into the intermediate state.
#[derive(Clone, Debug, PartialEq)]
pub struct SegmentDistinctCollector {
    /// The intermediate state being filled.
    pub data: IntermediateDistinct,
    /// The declared type of the field being aggregated.
    pub field_type: Type,
}

impl SegmentDistinctCollector {
    /// Creates a collector for a field of the given type, with empty state.
    pub fn from_req(field_type: Type) -> (r: Self)
        ensures
            r.data.terms@ == Seq::<u64>::empty(),
            r.data.term_count == 0,
    {
        Self { field_type, data: Default::default() }
    }

    /// Collects the field value of every docid of the block, four documents
    /// at a stride and then the remainder: afterwards the state holds
    /// exactly the values seen before plus the block's values, and the
    /// count has advanced by the number of genuinely new values.
    pub fn collect_block<V: ColumnValues<u64>>(&mut self, docs: &[u32], field: &V)
        requires
            old(self).data.wf(),
            field.wf(),
            forall|i: int| 0 <= i < docs@.len() ==> ((#[trigger] docs@[i]) as int) < field.vals().len(),
            old(self).data.term_count + docs@.len() <= u64::MAX,
        ensures
            final(self).data.wf(),
            forall|x: u64|
                final(self).data.terms@.contains(x) <==> (old(self).data.terms@.contains(x) || seen(
                    field.vals(),
                    docs@,
                    docs@.len() as int,
                    x,
                )),
            final(self).data.term_count - final(self).data.terms@.len() == old(
                self,
            ).data.term_count - old(self).data.terms@.len(),
            final(self).data.term_count <= old(self).data.term_count + docs@.len(),
    {
        let n = docs.len();
        let mut i: usize = 0;
        while n - i >= 4
            invariant
                0 <= i <= n == docs@.len(),
                self.data.wf(),
                field.wf(),
                forall|k: int|
                    0 <= k < docs@.len() ==> ((#[trigger] docs@[k]) as int) < field.vals().len(),
                old(self).data.term_count + docs@.len() <= u64::MAX,
                forall|x: u64|
                    self.data.terms@.contains(x) <==> (old(self).data.terms@.contains(x) || seen(
                        field.vals(),
                        docs@,
                        i as int,
                        x,
                    )),
                self.data.term_count - self.data.terms@.len() == old(self).data.term_count - old(
                    self,
                ).data.terms@.len(),
                self.data.term_count <= old(self).data.term_count + i,
            decreases n - i,
        {
            let val1 = field.get_val(docs[i]);
            let val2 = field.get_val(docs[i + 1]);
            let val3 = field.get_val(docs[i + 2]);
            let val4 = field.get_val(docs[i + 3]);
            self.data.collect(val1);
            proof {
                lemma_seen_step(field.vals(), docs@, i as int);
            }
            self.data.collect(val2);
            proof {
                lemma_seen_step(field.vals(), docs@, i as int + 1);
            }
            self.data.collect(val3);
            proof {
                lemma_seen_step(field.vals(), docs@, i as int + 2);
            }
            self.data.collect(val4);
            proof {
                lemma_seen_step(field.vals(), docs@, i as int + 3);
            }
            i += 4;
        }
        while i < n
            invariant
                0 <= i <= n == docs@.len(),
                self.data.wf(),
                field.wf(),
                forall|k: int|
                    0 <= k < docs@.len() ==> ((#[trigger] docs@[k]) as int) < field.vals().len(),
                old(self).data.term_count + docs@.len() <= u64::MAX,
                forall|x: u64|
                    self.data.terms@.contains(x) <==> (old(self).data.terms@.contains(x) || seen(
                        field.vals(),
                        docs@,
                        i as int,
                        x,
                    )),
                self.data.term_count - self.data.terms@.len() == old(self).data.term_count - old(
                    self,
                ).data.terms@.len(),
                self.data.term_count <= old(self).data.term_count + i,
            decreases n - i,
        {
            let val = field.get_val(docs[i]);
            self.data.collect(val);
            proof {
                lemma_seen_step(field.vals(), docs@, i as int);
            }
            i += 1;
        }
    }
}

} // verus!
