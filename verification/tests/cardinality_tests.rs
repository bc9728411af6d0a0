use columnar::{Cardinality, DecodeError};

#[test]
fn codes_are_stable() {
    assert_eq!(Cardinality::Full.to_code(), 0);
    assert_eq!(Cardinality::Optional.to_code(), 1);
    assert_eq!(Cardinality::Multivalued.to_code(), 2);
}

#[test]
fn code_roundtrip_every_variant() {
    let variants = [Cardinality::Full, Cardinality::Optional, Cardinality::Multivalued];
    for c in variants {
        assert_eq!(Cardinality::try_from_code(c.to_code()), Ok(c));
    }
}

#[test]
fn unknown_codes_are_rejected() {
    for code in 3..=255u8 {
        assert_eq!(Cardinality::try_from_code(code), Err(DecodeError::InvalidCode(code)));
    }
}

#[test]
fn serialize_appends_one_byte() {
    let mut out: Vec<u8> = vec![9];
    Cardinality::Multivalued.serialize(&mut out);
    assert_eq!(out, vec![9, 2]);
}

#[test]
fn serialize_deserialize_roundtrip() {
    let variants = [Cardinality::Full, Cardinality::Optional, Cardinality::Multivalued];
    for c in variants {
        let mut out: Vec<u8> = Vec::new();
        c.serialize(&mut out);
        assert_eq!(out.len(), 1);
        assert_eq!(Cardinality::deserialize(&out), Ok(c));
    }
}

#[test]
fn deserialize_rejects_empty_input() {
    assert_eq!(Cardinality::deserialize(&[]), Err(DecodeError::UnexpectedEnd));
}

#[test]
fn deserialize_rejects_bad_byte() {
    assert_eq!(Cardinality::deserialize(&[7]), Err(DecodeError::InvalidCode(7)));
}

#[test]
fn deserialize_reads_leading_byte_only() {
    assert_eq!(Cardinality::deserialize(&[1, 200, 200]), Ok(Cardinality::Optional));
}
