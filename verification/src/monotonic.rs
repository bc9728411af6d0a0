//! The strictly order-preserving coercion from a supported scalar type to
//! the canonical `u64` representation, and its inverse.

use vstd::prelude::*;

verus! {

/// A scalar type with a canonical, strictly order-preserving, invertible
/// mapping into `u64`.
///
/// `key` is the mathematical mapping; `to_u64` computes it and `from_u64`
/// inverts it. Every implementation must prove that `from_u64` undoes
/// `to_u64` exactly, which makes `key` injective: two distinct values never
/// share a key, so comparing keys is the same as comparing values.
pub trait MonotonicallyMappableToU64: Copy + Sized {
    /// The canonical `u64` image of this value.
    spec fn key(self) -> u64;

    /// What `from_u64` returns for an arbitrary `u64`.
    spec fn from_u64_spec(v: u64) -> Self;

    /// Inverting the key of a value gives the value back.
    proof fn lemma_key_roundtrip(self)
        ensures
            Self::from_u64_spec(self.key()) == self,
    ;

    /// Maps this value to its canonical `u64` image.
    fn to_u64(self) -> (r: u64)
        ensures
            r == self.key(),
    ;

    /// Maps a canonical `u64` image back to the scalar domain.
    fn from_u64(v: u64) -> (r: Self)
        ensures
            r == Self::from_u64_spec(v),
    ;
}

impl MonotonicallyMappableToU64 for u64 {
    open spec fn key(self) -> u64 {
        self
    }

    open spec fn from_u64_spec(v: u64) -> u64 {
        v
    }

    proof fn lemma_key_roundtrip(self) {
    }

    fn to_u64(self) -> u64 {
        self
    }

    fn from_u64(v: u64) -> u64 {
        v
    }
}

impl MonotonicallyMappableToU64 for i64 {
    open spec fn key(self) -> u64 {
        (self as u64) ^ 0x8000_0000_0000_0000u64
    }

    open spec fn from_u64_spec(v: u64) -> i64 {
        (v ^ 0x8000_0000_0000_0000u64) as i64
    }

    proof fn lemma_key_roundtrip(self) {
        assert((((self as u64) ^ 0x8000_0000_0000_0000u64) ^ 0x8000_0000_0000_0000u64) as i64
            == self) by (bit_vector);
    }

    fn to_u64(self) -> u64 {
        (self as u64) ^ 0x8000_0000_0000_0000u64
    }

    fn from_u64(v: u64) -> i64 {
        (v ^ 0x8000_0000_0000_0000u64) as i64
    }
}

impl MonotonicallyMappableToU64 for bool {
    open spec fn key(self) -> u64 {
        if self {
            1u64
        } else {
            0u64
        }
    }

    open spec fn from_u64_spec(v: u64) -> bool {
        v > 0
    }

    proof fn lemma_key_roundtrip(self) {
    }

    fn to_u64(self) -> u64 {
        if self {
            1u64
        } else {
            0u64
        }
    }

    fn from_u64(v: u64) -> bool {
        v > 0
    }
}

/// The `u64` mapping preserves the native order exactly.
pub proof fn lemma_u64_key_preserves_order(a: u64, b: u64)
    ensures
        (a < b) <==> (a.key() < b.key()),
        (a == b) <==> (a.key() == b.key()),
{
}

/// The `i64` mapping preserves the native signed order exactly: flipping the
/// sign bit lays negative values below non-negative ones in unsigned order.
pub proof fn lemma_i64_key_preserves_order(a: i64, b: i64)
    ensures
        (a < b) <==> (a.key() < b.key()),
        (a == b) <==> (a.key() == b.key()),
{
    assert((a < b) <==> (((a as u64) ^ 0x8000_0000_0000_0000u64) < ((b as u64)
        ^ 0x8000_0000_0000_0000u64))) by (bit_vector);
    assert((a == b) <==> (((a as u64) ^ 0x8000_0000_0000_0000u64) == ((b as u64)
        ^ 0x8000_0000_0000_0000u64))) by (bit_vector);
}

/// The `bool` mapping preserves the native order exactly
/// (`false` below `true`).
pub proof fn lemma_bool_key_preserves_order(a: bool, b: bool)
    ensures
        (!a && b) <==> (a.key() < b.key()),
        (a == b) <==> (a.key() == b.key()),
{
}

} // verus!
