use arena_codec::arena::{Arena, ArenaArray};
use arena_codec::error::DecodeError;
use arena_codec::incremental::{decode_array, encode_array, Reader};
use arena_codec::syntax::{BigintBase, NumberBase};

#[test]
fn number_base_10() {
    assert!(NumberBase::Float.is_base_10());
    assert!(NumberBase::Decimal.is_base_10());
    assert!(!NumberBase::Binary.is_base_10());
    assert!(!NumberBase::Octal.is_base_10());
    assert!(!NumberBase::Hex.is_base_10());
}

#[test]
fn bigint_base_10() {
    assert!(BigintBase::Decimal.is_base_10());
    assert!(!BigintBase::Binary.is_base_10());
    assert!(!BigintBase::Octal.is_base_10());
    assert!(!BigintBase::Hex.is_base_10());
}

#[test]
fn number_base_round_trip() {
    let mut arena = Arena::new();
    let bases = [
        NumberBase::Float,
        NumberBase::Hex,
        NumberBase::Octal,
        NumberBase::Decimal,
        NumberBase::Binary,
    ];
    let v: ArenaArray<NumberBase> = ArenaArray::from_slice_in(&bases, &mut arena);
    let mut bytes: Vec<u8> = Vec::new();
    encode_array(&v, &mut bytes);
    let mut reader = Reader::new(bytes);
    let decoded: ArenaArray<NumberBase> = decode_array(&mut reader, &mut arena).unwrap();
    assert_eq!(decoded.as_slice(), v.as_slice());
}

#[test]
fn bad_tag_is_format_error() {
    let mut bytes = 1u64.to_le_bytes().to_vec();
    bytes.push(9);
    let mut arena = Arena::new();
    let mut reader = Reader::new(bytes);
    let res: Result<ArenaArray<NumberBase>, DecodeError> = decode_array(&mut reader, &mut arena);
    assert!(matches!(res, Err(DecodeError::FormatError)));
}
