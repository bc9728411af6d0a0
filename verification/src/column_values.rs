//! The value-store abstraction: an ordered, indexable sequence of typed
//! scalar values keyed by row id, with min/max sentinels and a
//! range-to-rowids query.

use vstd::prelude::*;

use crate::monotonic::MonotonicallyMappableToU64;
use crate::seqs::sorted_strict;
use core::marker::PhantomData;

verus! {

/// Whether `v` lies in the inclusive value range `[lo, hi]`, compared in the
/// canonical `u64` order.
pub open spec fn in_value_range<T: MonotonicallyMappableToU64>(v: T, lo: T, hi: T) -> bool {
    lo.key() <= v.key() && v.key() <= hi.key()
}

/// The row ids in `[row_start, row_end)` whose value lies in `[lo, hi]`, in
/// ascending order.
pub open spec fn rows_in_value_range<T: MonotonicallyMappableToU64>(
    vals: Seq<T>,
    lo: T,
    hi: T,
    row_start: int,
    row_end: int,
) -> Seq<u32>
    decreases row_end - row_start,
{
    if row_end <= row_start {
        Seq::empty()
    } else {
        let prefix = rows_in_value_range(vals, lo, hi, row_start, row_end - 1);
        if in_value_range(vals[row_end - 1], lo, hi) {
            prefix.push((row_end - 1) as u32)
        } else {
            prefix
        }
    }
}

/// The matched row ids are exactly the rows of the scanned range whose value
/// lies in the range, and they come out strictly ascending.
pub proof fn lemma_rows_in_value_range_props<T: MonotonicallyMappableToU64>(
    vals: Seq<T>,
    lo: T,
    hi: T,
    row_start: int,
    row_end: int,
)
    requires
        0 <= row_start <= row_end <= vals.len(),
        vals.len() <= u32::MAX,
    ensures
        ({
            let s = rows_in_value_range(vals, lo, hi, row_start, row_end);
            &&& forall|k: int|
                0 <= k < s.len() ==> row_start <= #[trigger] s[k] < row_end && in_value_range(
                    vals[s[k] as int],
                    lo,
                    hi,
                )
            &&& sorted_strict(s)
            &&& forall|r: u32|
                #[trigger] s.contains(r) <==> (row_start <= r < row_end && in_value_range(
                    vals[r as int],
                    lo,
                    hi,
                ))
        }),
    decreases row_end - row_start,
{
    if row_end > row_start {
        lemma_rows_in_value_range_props(vals, lo, hi, row_start, row_end - 1);
        let p = rows_in_value_range(vals, lo, hi, row_start, row_end - 1);
        let s = rows_in_value_range(vals, lo, hi, row_start, row_end);
        if in_value_range(vals[row_end - 1], lo, hi) {
            assert(s == p.push((row_end - 1) as u32));
            assert forall|r: u32| #[trigger] s.contains(r) implies (row_start <= r < row_end
                && in_value_range(vals[r as int], lo, hi)) by {
                let k = choose|k: int| 0 <= k < s.len() && s[k] == r;
                if k < p.len() {
                    assert(p.contains(r));
                }
            }
            assert forall|r: u32| (row_start <= r < row_end && in_value_range(
                vals[r as int],
                lo,
                hi,
            )) implies #[trigger] s.contains(r) by {
                if r < row_end - 1 {
                    assert(p.contains(r));
                    let k = choose|k: int| 0 <= k < p.len() && p[k] == r;
                    assert(s[k] == r);
                } else {
                    assert(s[s.len() - 1] == r);
                }
            }
        } else {
            assert(s == p);
            assert forall|r: u32| #[trigger] s.contains(r) implies (row_start <= r < row_end
                && in_value_range(vals[r as int], lo, hi)) by {}
            assert forall|r: u32| (row_start <= r < row_end && in_value_range(
                vals[r as int],
                lo,
                hi,
            )) implies #[trigger] s.contains(r) by {
                if r < row_end - 1 {
                    assert(p.contains(r));
                }
            }
        }
    }
}

/// The contract every value store of this crate satisfies: a well-formedness
/// predicate, a mathematical view of the stored sequence, declared min/max
/// sentinels, positional access, and the inclusive value-range query.
pub trait ColumnValues<T: MonotonicallyMappableToU64> {
    /// Internal consistency of the store; every method assumes it.
    spec fn wf(&self) -> bool;

    /// The stored values, in row-id order.
    spec fn vals(&self) -> Seq<T>;

    /// The min sentinel this store declares.
    spec fn min_spec(&self) -> T;

    /// The max sentinel this store declares.
    spec fn max_spec(&self) -> T;

    /// Returns the value at row `idx`.
    fn get_val(&self, idx: u32) -> (r: T)
        requires
            self.wf(),
            (idx as int) < self.vals().len(),
        ensures
            r == self.vals()[idx as int],
    ;

    /// Returns the number of stored values.
    fn num_vals(&self) -> (r: u32)
        requires
            self.wf(),
        ensures
            r as int == self.vals().len(),
    ;

    /// Returns the store's min sentinel.
    fn min_value(&self) -> (r: T)
        requires
            self.wf(),
        ensures
            r == self.min_spec(),
    ;

    /// Returns the store's max sentinel.
    fn max_value(&self) -> (r: T)
        requires
            self.wf(),
        ensures
            r == self.max_spec(),
    ;

    /// Appends to `row_id_hits` every row id in `[row_start, row_end)` whose
    /// value lies in the inclusive range `[value_lo, value_hi]`, in
    /// ascending order. Prior content of `row_id_hits` is kept.
    fn get_row_ids_for_value_range(
        &self,
        value_lo: T,
        value_hi: T,
        row_start: u32,
        row_end: u32,
        row_id_hits: &mut Vec<u32>,
    )
        requires
            self.wf(),
            row_start <= row_end,
            row_end as int <= self.vals().len(),
        ensures
            final(row_id_hits)@ == old(row_id_hits)@ + rows_in_value_range(
                self.vals(),
                value_lo,
                value_hi,
                row_start as int,
                row_end as int,
            ),
    ;
}

/// Scans `[row_start, row_end)` of a vector-backed store and appends the
/// row ids whose value falls in the inclusive range.
fn scan_vec_rows<T: MonotonicallyMappableToU64>(
    vals: &Vec<T>,
    value_lo: T,
    value_hi: T,
    row_start: u32,
    row_end: u32,
    row_id_hits: &mut Vec<u32>,
)
    requires
        row_start <= row_end,
        row_end as int <= vals@.len(),
    ensures
        final(row_id_hits)@ == old(row_id_hits)@ + rows_in_value_range(
            vals@,
            value_lo,
            value_hi,
            row_start as int,
            row_end as int,
        ),
{
    let ghost orig: Seq<u32> = row_id_hits@;
    let lo_key = value_lo.to_u64();
    let hi_key = value_hi.to_u64();
    let mut i = row_start;
    while i < row_end
        invariant
            row_start <= i <= row_end,
            row_end as int <= vals@.len(),
            lo_key == value_lo.key(),
            hi_key == value_hi.key(),
            row_id_hits@ == orig + rows_in_value_range(
                vals@,
                value_lo,
                value_hi,
                row_start as int,
                i as int,
            ),
        decreases row_end - i,
    {
        let v = vals[i as usize];
        let k = v.to_u64();
        proof {
            let pre = rows_in_value_range(vals@, value_lo, value_hi, row_start as int, i as int);
            let post = rows_in_value_range(vals@, value_lo, value_hi, row_start as int,
                i as int + 1);
            if in_value_range(vals@[i as int], value_lo, value_hi) {
                assert(post == pre.push(i));
                assert(orig + pre.push(i) =~= (orig + pre).push(i));
            } else {
                assert(post == pre);
            }
        }
        if lo_key <= k && k <= hi_key {
            row_id_hits.push(i);
        }
        i += 1;
    }
}

/// The canonical `u64` images of a stored sequence, position by position.
pub open spec fn mapped_keys<T: MonotonicallyMappableToU64>(vals: Seq<T>) -> Seq<u64> {
    Seq::new(vals.len(), |i: int| vals[i].key())
}

/// Scans `[row_start, row_end)` of a wrapped store, comparing the canonical
/// `u64` image of each value against the inclusive range, and appends the
/// matching row ids.
fn scan_mapped_rows<T: MonotonicallyMappableToU64, V: ColumnValues<T>>(
    inner: &V,
    value_lo: u64,
    value_hi: u64,
    row_start: u32,
    row_end: u32,
    row_id_hits: &mut Vec<u32>,
)
    requires
        inner.wf(),
        row_start <= row_end,
        row_end as int <= inner.vals().len(),
    ensures
        final(row_id_hits)@ == old(row_id_hits)@ + rows_in_value_range(
            mapped_keys(inner.vals()),
            value_lo,
            value_hi,
            row_start as int,
            row_end as int,
        ),
{
    let ghost orig: Seq<u32> = row_id_hits@;
    let mut i = row_start;
    while i < row_end
        invariant
            inner.wf(),
            row_start <= i <= row_end,
            row_end as int <= inner.vals().len(),
            row_id_hits@ == orig + rows_in_value_range(
                mapped_keys(inner.vals()),
                value_lo,
                value_hi,
                row_start as int,
                i as int,
            ),
        decreases row_end - i,
    {
        let v = inner.get_val(i);
        let k = v.to_u64();
        proof {
            let m = mapped_keys(inner.vals());
            let pre = rows_in_value_range(m, value_lo, value_hi, row_start as int, i as int);
            let post = rows_in_value_range(m, value_lo, value_hi, row_start as int, i as int + 1);
            assert(m[i as int] == inner.vals()[i as int].key());
            if in_value_range(m[i as int], value_lo, value_hi) {
                assert(post == pre.push(i));
                assert(orig + pre.push(i) =~= (orig + pre).push(i));
            } else {
                assert(post == pre);
            }
        }
        if value_lo <= k && k <= value_hi {
            row_id_hits.push(i);
        }
        i += 1;
    }
}

/// A value store backed by a vector, with its min/max sentinels computed at
/// construction; the zero image of the scalar type stands in for both when
/// the store is empty.
pub struct VecColumnValues<T> {
    /// The stored values, in row-id order.
    pub vals: Vec<T>,
    /// Min sentinel: no stored value has a smaller canonical key.
    pub min: T,
    /// Max sentinel: no stored value has a larger canonical key.
    pub max: T,
}

impl<T: MonotonicallyMappableToU64> VecColumnValues<T> {
    /// Builds a store over `vals`, scanning once for the min and max
    /// sentinels; an empty store falls back to the zero image as sentinel.
    pub fn from_vals(vals: Vec<T>) -> (r: VecColumnValues<T>)
        requires
            vals@.len() <= u32::MAX,
        ensures
            r.wf(),
            r.vals@ == vals@,
            vals@.len() > 0 ==> vals@.contains(r.min) && vals@.contains(r.max),
            vals@.len() == 0 ==> r.min == T::from_u64_spec(0) && r.max == T::from_u64_spec(0),
    {
        if vals.len() == 0 {
            let sentinel = T::from_u64(0);
            VecColumnValues { vals, min: sentinel, max: sentinel }
        } else {
            let mut min = vals[0];
            let mut max = vals[0];
            let mut min_key = min.to_u64();
            let mut max_key = max.to_u64();
            let mut i: usize = 1;
            while i < vals.len()
                invariant
                    1 <= i <= vals@.len() <= u32::MAX,
                    vals@.contains(min),
                    vals@.contains(max),
                    min_key == min.key(),
                    max_key == max.key(),
                    forall|k: int| 0 <= k < i ==> min.key() <= #[trigger] vals@[k].key(),
                    forall|k: int| 0 <= k < i ==> #[trigger] vals@[k].key() <= max.key(),
                decreases vals@.len() - i,
            {
                let v = vals[i];
                let key = v.to_u64();
                if key < min_key {
                    min = v;
                    min_key = key;
                }
                if key > max_key {
                    max = v;
                    max_key = key;
                }
                i += 1;
            }
            VecColumnValues { vals, min, max }
        }
    }
}

impl<T: MonotonicallyMappableToU64> ColumnValues<T> for VecColumnValues<T> {
    open spec fn wf(&self) -> bool {
        &&& self.vals@.len() <= u32::MAX
        &&& forall|i: int|
            0 <= i < self.vals@.len() ==> self.min.key() <= #[trigger] self.vals@[i].key()
                <= self.max.key()
    }

    open spec fn vals(&self) -> Seq<T> {
        self.vals@
    }

    open spec fn min_spec(&self) -> T {
        self.min
    }

    open spec fn max_spec(&self) -> T {
        self.max
    }

    fn get_val(&self, idx: u32) -> T {
        self.vals[idx as usize]
    }

    fn num_vals(&self) -> u32 {
        self.vals.len() as u32
    }

    fn min_value(&self) -> T {
        self.min
    }

    fn max_value(&self) -> T {
        self.max
    }

    fn get_row_ids_for_value_range(
        &self,
        value_lo: T,
        value_hi: T,
        row_start: u32,
        row_end: u32,
        row_id_hits: &mut Vec<u32>,
    ) {
        scan_vec_rows(&self.vals, value_lo, value_hi, row_start, row_end, row_id_hits);
    }
}

/// A value store that lazily applies the canonical `u64` mapping of the
/// wrapped store's scalar type on every access; nothing is materialized.
pub struct MonotonicMapColumn<T, V> {
    /// The wrapped store.
    pub inner: V,
    /// Carries the wrapped scalar type, which only the mapping uses.
    pub marker: PhantomData<T>,
}

/// Wraps a value store so that every read yields the canonical `u64` image
/// of the stored value.
pub fn monotonic_map_column<T: MonotonicallyMappableToU64, V: ColumnValues<T>>(inner: V) -> (r:
    MonotonicMapColumn<T, V>)
    ensures
        r.inner == inner,
{
    MonotonicMapColumn { inner, marker: PhantomData }
}

impl<T: MonotonicallyMappableToU64, V: ColumnValues<T>> ColumnValues<u64> for MonotonicMapColumn<
    T,
    V,
> {
    open spec fn wf(&self) -> bool {
        self.inner.wf()
    }

    open spec fn vals(&self) -> Seq<u64> {
        mapped_keys(self.inner.vals())
    }

    open spec fn min_spec(&self) -> u64 {
        self.inner.min_spec().key()
    }

    open spec fn max_spec(&self) -> u64 {
        self.inner.max_spec().key()
    }

    fn get_val(&self, idx: u32) -> u64 {
        self.inner.get_val(idx).to_u64()
    }

    fn num_vals(&self) -> u32 {
        self.inner.num_vals()
    }

    fn min_value(&self) -> u64 {
        self.inner.min_value().to_u64()
    }

    fn max_value(&self) -> u64 {
        self.inner.max_value().to_u64()
    }

    fn get_row_ids_for_value_range(
        &self,
        value_lo: u64,
        value_hi: u64,
        row_start: u32,
        row_end: u32,
        row_id_hits: &mut Vec<u32>,
    ) {
        scan_mapped_rows(&self.inner, value_lo, value_hi, row_start, row_end, row_id_hits);
    }
}

} // verus!
