//! The cardinality tag of a column and its single-byte wire encoding.

use vstd::prelude::*;

verus! {

/// How many values a single document may carry in a column.
///
/// The tag is fixed when a column is built and never changes afterwards.
#[derive(Clone, Copy, Debug, PartialEq, Eq, Structural)]
pub enum Cardinality {
    /// Every document has exactly one value; row id and docid coincide.
    Full,
    /// A document has zero or one value.
    Optional,
    /// A document has zero or more values, stored contiguously.
    Multivalued,
}

/// Why decoding a serialized cardinality byte failed.
#[derive(Clone, Copy, Debug, PartialEq, Eq, Structural)]
pub enum DecodeError {
    /// The input ended before the one cardinality byte could be read.
    UnexpectedEnd,
    /// The byte read does not name any cardinality variant.
    InvalidCode(u8),
}

impl Cardinality {
    /// The stable one-byte wire code of this variant.
    pub open spec fn to_code_spec(self) -> u8 {
        match self {
            Cardinality::Full => 0u8,
            Cardinality::Optional => 1u8,
            Cardinality::Multivalued => 2u8,
        }
    }

    /// What decoding a single code byte yields.
    pub open spec fn try_from_code_spec(code: u8) -> Result<Cardinality, DecodeError> {
        if code == 0u8 {
            Ok(Cardinality::Full)
        } else if code == 1u8 {
            Ok(Cardinality::Optional)
        } else if code == 2u8 {
            Ok(Cardinality::Multivalued)
        } else {
            Err(DecodeError::InvalidCode(code))
        }
    }

    /// What deserializing from a byte sequence yields: the first byte is
    /// decoded, any trailing bytes are left for the caller.
    pub open spec fn deserialize_spec(bytes: Seq<u8>) -> Result<Cardinality, DecodeError> {
        if bytes.len() == 0 {
            Err(DecodeError::UnexpectedEnd)
        } else {
            Cardinality::try_from_code_spec(bytes[0])
        }
    }

    /// Returns the stable one-byte wire code of this variant.
    pub fn to_code(&self) -> (code: u8)
        ensures
            code == self.to_code_spec(),
    {
        match self {
            Cardinality::Full => 0u8,
            Cardinality::Optional => 1u8,
            Cardinality::Multivalued => 2u8,
        }
    }

    /// Maps a wire code back to its variant; an unknown code is rejected
    /// with a decode error rather than a panic.
    pub fn try_from_code(code: u8) -> (r: Result<Cardinality, DecodeError>)
        ensures
            r == Cardinality::try_from_code_spec(code),
    {
        if code == 0u8 {
            Ok(Cardinality::Full)
        } else if code == 1u8 {
            Ok(Cardinality::Optional)
        } else if code == 2u8 {
            Ok(Cardinality::Multivalued)
        } else {
            Err(DecodeError::InvalidCode(code))
        }
    }

    /// Appends the one-byte wire encoding of this variant to `out`.
    pub fn serialize(&self, out: &mut Vec<u8>)
        ensures
            final(out)@ == old(out)@.push(self.to_code_spec()),
    {
        let code = self.to_code();
        out.push(code);
    }

    /// Reads the leading byte of `bytes` and decodes it; malformed input is
    /// reported as a recoverable decode error.
    pub fn deserialize(bytes: &[u8]) -> (r: Result<Cardinality, DecodeError>)
        ensures
            r == Cardinality::deserialize_spec(bytes@),
    {
        if bytes.len() == 0 {
            Err(DecodeError::UnexpectedEnd)
        } else {
            Cardinality::try_from_code(bytes[0])
        }
    }
}

/// Encoding each variant and decoding the resulting byte reproduces the
/// variant, both at the code level and through `serialize`/`deserialize`.
pub proof fn lemma_cardinality_code_roundtrip(c: Cardinality)
    ensures
        Cardinality::try_from_code_spec(c.to_code_spec()) == Ok::<Cardinality, DecodeError>(c),
        Cardinality::deserialize_spec(seq![c.to_code_spec()]) == Ok::<Cardinality, DecodeError>(c),
{
}

/// A byte that is not the code of any variant is rejected by decoding: it
/// produces a decode error naming that byte, never a variant.
pub proof fn lemma_cardinality_bad_code_rejected(code: u8)
    requires
        forall|c: Cardinality| c.to_code_spec() != code,
    ensures
        Cardinality::try_from_code_spec(code) == Err::<Cardinality, DecodeError>(
            DecodeError::InvalidCode(code),
        ),
{
    assert(Cardinality::Full.to_code_spec() != code);
    assert(Cardinality::Optional.to_code_spec() != code);
    assert(Cardinality::Multivalued.to_code_spec() != code);
}

} // verus!
