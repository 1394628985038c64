use arena_codec::arena::{Arena, ArenaArray, ArenaBox, ArenaByteBox};
use arena_codec::archive::{
    archive_array, archive_box, archive_byte_box, archived_array_get, archived_array_len,
    archived_box_eq, archived_box_le, dematerialize_array, dematerialize_box,
    dematerialize_byte_box,
};
use arena_codec::cell::{CellContent, MutCell};
use arena_codec::error::DecodeError;
use arena_codec::incremental::{
    borrow_decode_bytes, decode_array, decode_box, encode_array, encode_box, Reader,
};

#[test]
fn test_encode_decode_vec() {
    let mut allocator = Arena::new();

    let v: ArenaArray<i32> = ArenaArray::from_slice_in(&[1, 2, 3], &mut allocator);
    let mut bytes: Vec<u8> = Vec::new();
    encode_array(&v, &mut bytes);
    let mut reader = Reader::new(bytes);
    let decoded: ArenaArray<i32> = decode_array(&mut reader, &mut allocator).unwrap();
    assert_eq!(decoded.as_slice(), v.as_slice());

    let v: ArenaArray<u8> = ArenaArray::from_slice_in(&[1, 2, 3], &mut allocator);
    let mut bytes: Vec<u8> = Vec::new();
    encode_array(&v, &mut bytes);
    let mut reader = Reader::new(bytes);
    let decoded: ArenaArray<u8> = decode_array(&mut reader, &mut allocator).unwrap();
    assert_eq!(decoded.as_slice(), v.as_slice());
}

#[test]
fn rkyv_box() {
    let mut allocator = Arena::new();

    let value = ArenaBox::new_in(42u8, &mut allocator);

    let bytes = archive_box(&value);

    let deserialized: ArenaBox<u8> = dematerialize_box(&bytes, &mut allocator);

    assert_eq!(*deserialized.get(), 42);
}

#[test]
fn rkyv_vec() {
    let mut allocator = Arena::new();

    let value = ArenaArray::from_slice_in(&[1u8, 2, 3], &mut allocator);

    let bytes = archive_array(&value);

    let deserialized: ArenaArray<u8> = dematerialize_array(&bytes, &mut allocator);

    assert_eq!(deserialized.as_slice(), [1, 2, 3]);
}

#[test]
fn incremental_box_round_trip() {
    let mut allocator = Arena::new();
    let value = ArenaBox::new_in(-7i32, &mut allocator);
    let mut bytes: Vec<u8> = Vec::new();
    encode_box(&value, &mut bytes);
    let mut reader = Reader::new(bytes);
    let decoded: ArenaBox<i32> = decode_box(&mut reader, &mut allocator).unwrap();
    assert_eq!(*decoded.get(), -7);
}

#[test]
fn byte_fast_path_image_is_header_plus_raw_bytes() {
    let mut allocator = Arena::new();
    let v: ArenaArray<u8> = ArenaArray::from_slice_in(&[5, 6, 7], &mut allocator);
    let mut bytes: Vec<u8> = Vec::new();
    encode_array(&v, &mut bytes);
    assert_eq!(bytes, vec![3, 0, 0, 0, 0, 0, 0, 0, 5, 6, 7]);
    let archived = archive_array(&v);
    assert_eq!(archived, bytes);
    let mut reader = Reader::new(bytes);
    let decoded: ArenaArray<u8> = decode_array(&mut reader, &mut allocator).unwrap();
    assert_eq!(decoded.as_slice(), [5, 6, 7]);
}

#[test]
fn order_preserved_for_empty_singleton_and_mixed() {
    let mut allocator = Arena::new();

    let empty: ArenaArray<i32> = ArenaArray::from_slice_in(&[], &mut allocator);
    let one: ArenaArray<i32> = ArenaArray::from_slice_in(&[-1], &mut allocator);
    let mixed: ArenaArray<i32> =
        ArenaArray::from_slice_in(&[7, -1000000, 123456789, 0, -2147483648], &mut allocator);

    for v in [&empty, &one, &mixed] {
        let mut bytes: Vec<u8> = Vec::new();
        encode_array(v, &mut bytes);
        let mut reader = Reader::new(bytes);
        let decoded: ArenaArray<i32> = decode_array(&mut reader, &mut allocator).unwrap();
        assert_eq!(decoded.as_slice(), v.as_slice());

        let archived = archive_array(v);
        let back: ArenaArray<i32> = dematerialize_array(&archived, &mut allocator);
        assert_eq!(back.as_slice(), v.as_slice());
    }
}

#[test]
fn budget_exceeded_before_any_allocation() {
    let mut bytes = 1000u64.to_le_bytes().to_vec();
    bytes.extend_from_slice(&[1, 2, 3]);
    let mut arena = Arena::new();
    let mut reader = Reader::new(bytes);
    let res: Result<ArenaArray<i32>, DecodeError> = decode_array(&mut reader, &mut arena);
    assert!(matches!(res, Err(DecodeError::BudgetExceeded)));
    assert_eq!(arena.allocation_count(), 0);
}

#[test]
fn oversized_length_rejected_without_allocation() {
    let mut bytes = u64::MAX.to_le_bytes().to_vec();
    bytes.push(7);
    let mut arena = Arena::new();
    let mut reader = Reader::new(bytes);
    let res: Result<ArenaArray<u8>, DecodeError> = decode_array(&mut reader, &mut arena);
    assert!(matches!(
        res,
        Err(DecodeError::BudgetExceeded) | Err(DecodeError::LengthOverflow)
    ));
    assert_eq!(arena.allocation_count(), 0);
}

#[test]
fn truncated_header_is_unexpected_end() {
    let mut arena = Arena::new();
    let mut reader = Reader::new(vec![1, 2, 3]);
    let res: Result<ArenaArray<u8>, DecodeError> = decode_array(&mut reader, &mut arena);
    assert!(matches!(res, Err(DecodeError::UnexpectedEnd)));
    assert_eq!(arena.allocation_count(), 0);
}

#[test]
fn cell_adapter_round_trip_yields_independent_cell() {
    let cell = MutCell::new(7i32);
    let mut out: Vec<u8> = Vec::new();
    CellContent::serialize_with(&cell, &mut out);
    let mut reader = Reader::new(out);
    let mut fresh: MutCell<i32> = CellContent::deserialize_with(&mut reader).unwrap();
    assert_eq!(fresh.get(), 7);
    fresh.set(9);
    assert_eq!(fresh.get(), 9);
    assert_eq!(cell.get(), 7);
}

#[test]
fn archived_array_readable_in_place() {
    let mut allocator = Arena::new();
    let v: ArenaArray<i32> = ArenaArray::from_slice_in(&[10, 20, 30], &mut allocator);
    let archived = archive_array(&v);
    assert_eq!(archived_array_len::<i32>(&archived), 3);
    assert_eq!(archived_array_get::<i32>(&archived, 0), 10);
    assert_eq!(archived_array_get::<i32>(&archived, 1), 20);
    assert_eq!(archived_array_get::<i32>(&archived, 2), 30);
}

#[test]
fn archived_box_compares_against_live_box() {
    let mut allocator = Arena::new();
    let boxed = ArenaBox::new_in(42u8, &mut allocator);
    let archived = archive_box(&boxed);
    assert!(archived_box_eq(&archived, &boxed));
    let other = ArenaBox::new_in(43u8, &mut allocator);
    assert!(!archived_box_eq(&archived, &other));
}

#[test]
fn borrowed_decode_hands_back_input_range() {
    let mut allocator = Arena::new();
    let v: ArenaArray<u8> = ArenaArray::from_slice_in(&[9, 8, 7], &mut allocator);
    let mut bytes: Vec<u8> = Vec::new();
    encode_array(&v, &mut bytes);
    let mut reader = Reader::new(bytes);
    let (start, n) = borrow_decode_bytes(&mut reader).unwrap();
    assert_eq!((start, n), (8, 3));
    assert_eq!(reader.input_slice(start, start + n), [9, 8, 7]);
}

#[test]
fn string_copied_into_arena() {
    let mut arena = Arena::new();
    let s = arena.alloc_str("hello");
    assert_eq!(s.as_str(), "hello");
    assert_eq!(arena.allocation_count(), 1);
}

#[test]
fn archived_box_orders_against_live_box() {
    let mut allocator = Arena::new();
    let boxed = ArenaBox::new_in(-5i32, &mut allocator);
    let archived = archive_box(&boxed);
    assert!(archived_box_le(&archived, &boxed));
    let larger = ArenaBox::new_in(10i32, &mut allocator);
    assert!(archived_box_le(&archived, &larger));
    let smaller = ArenaBox::new_in(-6i32, &mut allocator);
    assert!(!archived_box_le(&archived, &smaller));
}

#[test]
fn boxed_byte_sequence_archive_round_trip() {
    let mut allocator = Arena::new();
    let boxed = ArenaByteBox::new_in(vec![1, 2, 3], &mut allocator);
    let bytes = archive_byte_box(&boxed);
    let back = dematerialize_byte_box(&bytes, &mut allocator);
    assert_eq!(back.as_slice(), [1, 2, 3]);
}
