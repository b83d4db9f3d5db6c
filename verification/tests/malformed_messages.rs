use lib::arena::ReaderArena;
use lib::reader::{PointerReader, ReadError, StructReader};
use lib::wire::{FieldSize, WirePointer};
use lib::wire_helpers::{
    bounds_check, follow_fars, read_list_pointer, read_struct_pointer, read_text_pointer, try_follow_fars, try_read_list_pointer, try_read_struct_pointer, try_read_text_pointer,
};

fn word(offset_and_kind: u32, upper: u32) -> Vec<u8> {
    let mut v = offset_and_kind.to_le_bytes().to_vec();
    v.extend_from_slice(&upper.to_le_bytes());
    v
}

fn segment(words: &[Vec<u8>]) -> Vec<u8> {
    words.concat()
}

fn arena(segments: Vec<Vec<u8>>) -> ReaderArena {
    ReaderArena::new(segments).unwrap()
}

fn list_at_root(a: &ReaderArena, expected: FieldSize) -> Result<lib::reader::ListReader, ReadError> {
    PointerReader { segment: 0, pointer: Some(0), nesting_limit: 64 }.try_get_list(a, expected)
}

#[test]
fn struct_out_of_bounds() {
    let a = arena(vec![segment(&[word(0, 2), word(0, 0)])]);
    assert_eq!(StructReader::try_read_root(&a, 0, 0, 64), Err(ReadError::OutOfBounds));
}

#[test]
fn struct_in_bounds_at_the_end() {
    let a = arena(vec![segment(&[word(0, 1), word(42, 0)])]);
    let r = StructReader::try_read_root(&a, 0, 0, 64).unwrap();
    assert_eq!(r.get_data_field::<u64>(&a, 0), 42);
}

#[test]
fn far_pointer_to_missing_segment() {
    let a = arena(vec![segment(&[word(2, 5)])]);
    assert_eq!(StructReader::try_read_root(&a, 0, 0, 64), Err(ReadError::UnknownSegment));
}

#[test]
fn far_pointer_pad_out_of_bounds() {
    let a = arena(vec![segment(&[word(8 + 2, 1)]), segment(&[word(0, 0)])]);
    assert_eq!(StructReader::try_read_root(&a, 0, 0, 64), Err(ReadError::OutOfBounds));
}

#[test]
fn single_far_pointer() {
    let a = arena(vec![segment(&[word(2, 1)]), segment(&[word(0, 1), word(7, 0)])]);
    let r = StructReader::try_read_root(&a, 0, 0, 64).unwrap();
    assert_eq!(r.segment, 1);
    assert_eq!(r.get_data_field::<u64>(&a, 0), 7);
}

#[test]
fn double_far_pointer() {
    let a = arena(vec![
        segment(&[word(6, 1)]),
        segment(&[word(2, 2), word(0, 1)]),
        segment(&[word(42, 0)]),
    ]);
    let r = StructReader::try_read_root(&a, 0, 0, 64).unwrap();
    assert_eq!(r.segment, 2);
    assert_eq!(r.data, 0);
    assert_eq!(r.get_data_field::<u64>(&a, 0), 42);
}

#[test]
fn double_far_pointer_to_missing_segment() {
    let a = arena(vec![segment(&[word(6, 1)]), segment(&[word(2, 9), word(0, 1)])]);
    assert_eq!(StructReader::try_read_root(&a, 0, 0, 64), Err(ReadError::UnknownSegment));
}

#[test]
fn follow_fars_leaves_near_pointers() {
    let a = arena(vec![segment(&[word(4, 1), word(0, 0), word(0, 0)])]);
    let mut p = WirePointer { offset_and_kind: 4, upper32bits: 1 };
    let mut s = 0usize;
    assert_eq!(try_follow_fars(&a, &mut p, 16, &mut s), Ok(16));
    assert_eq!(s, 0);
    assert_eq!(p, WirePointer { offset_and_kind: 4, upper32bits: 1 });
}

#[test]
fn bounds_check_within_segment() {
    let a = arena(vec![vec![0u8; 24]]);
    assert!(bounds_check(&a, 0, 8, 24));
    assert!(!bounds_check(&a, 0, 8, 32));
    assert!(!bounds_check(&a, 0, 16, 8));
}

#[test]
fn list_through_struct_pointer() {
    let a = arena(vec![segment(&[word(0, 1), word(0, 0)])]);
    assert_eq!(list_at_root(&a, FieldSize::BYTE), Err(ReadError::ExpectedList));
}

#[test]
fn list_out_of_bounds() {
    let a = arena(vec![segment(&[word(1, 9 * 8 + 2), word(0, 0)])]);
    assert_eq!(list_at_root(&a, FieldSize::BYTE), Err(ReadError::OutOfBounds));
}

#[test]
fn list_element_too_small() {
    let a = arena(vec![segment(&[word(1, 4 * 8 + 2), word(0, 0)])]);
    assert_eq!(list_at_root(&a, FieldSize::EIGHT_BYTES), Err(ReadError::ElementTooSmall));
    assert_eq!(list_at_root(&a, FieldSize::POINTER), Err(ReadError::ElementTooSmall));
    let l = list_at_root(&a, FieldSize::BIT).unwrap();
    assert_eq!(l.size(), 4);
    assert_eq!(l.step, 8);
}

fn composite(tag_kind: u32, count: u32, data: u32, pointers: u32, words: u32) -> ReaderArena {
    let mut ws = vec![word(1, words * 8 + 7), word(count * 4 + tag_kind, data + 65536 * pointers)];
    for _ in 0..words {
        ws.push(word(0, 0));
    }
    arena(vec![segment(&ws)])
}

#[test]
fn composite_list_with_list_tag() {
    let a = composite(1, 1, 1, 0, 1);
    assert_eq!(list_at_root(&a, FieldSize::INLINE_COMPOSITE), Err(ReadError::InlineCompositeNotStruct));
}

#[test]
fn composite_list_overrun() {
    let a = composite(0, 3, 1, 0, 2);
    assert_eq!(list_at_root(&a, FieldSize::INLINE_COMPOSITE), Err(ReadError::InlineCompositeOverrun));
}

#[test]
fn composite_list_word_count_out_of_bounds() {
    let a = arena(vec![segment(&[word(1, 5 * 8 + 7), word(4, 1), word(0, 0)])]);
    assert_eq!(list_at_root(&a, FieldSize::INLINE_COMPOSITE), Err(ReadError::OutOfBounds));
}

#[test]
fn composite_list_as_bit_list() {
    let a = composite(0, 2, 1, 0, 2);
    assert_eq!(list_at_root(&a, FieldSize::BIT), Err(ReadError::ExpectedBitList));
}

#[test]
fn composite_list_of_pointer_only_structs_as_bytes() {
    let a = composite(0, 2, 0, 1, 2);
    assert_eq!(list_at_root(&a, FieldSize::BYTE), Err(ReadError::ExpectedPrimitiveList));
    let l = list_at_root(&a, FieldSize::POINTER).unwrap();
    assert_eq!(l.ptr, 16);
}

#[test]
fn composite_list_of_data_only_structs_as_pointers() {
    let a = composite(0, 2, 1, 0, 2);
    assert_eq!(list_at_root(&a, FieldSize::POINTER), Err(ReadError::ExpectedPointerList));
    let l = list_at_root(&a, FieldSize::TWO_BYTES).unwrap();
    assert_eq!(l.size(), 2);
    assert_eq!(l.step, 64);
    assert_eq!(l.struct_data_size, 64);
}

#[test]
fn composite_list_of_mixed_structs_as_pointers() {
    let a = composite(0, 2, 1, 1, 4);
    let l = list_at_root(&a, FieldSize::POINTER).unwrap();
    assert_eq!(l.ptr, 24);
    assert_eq!(l.step, 128);
    let v = list_at_root(&a, FieldSize::VOID).unwrap();
    assert_eq!(v.ptr, 16);
}

#[test]
fn text_through_struct_pointer() {
    let a = arena(vec![segment(&[word(0, 1), word(0, 0)])]);
    assert_eq!(try_read_text_pointer(&a, 0, Some(0), ""), Err(ReadError::ExpectedText));
}

#[test]
fn text_of_wrong_element_size() {
    let a = arena(vec![segment(&[word(1, 2 * 8 + 3), word(0, 0)])]);
    assert_eq!(try_read_text_pointer(&a, 0, Some(0), ""), Err(ReadError::TextNotBytes));
}

#[test]
fn text_without_nul() {
    let mut s = segment(&[word(1, 3 * 8 + 2)]);
    s.extend_from_slice(&[b'a', b'b', b'c', 0, 0, 0, 0, 0]);
    let a = arena(vec![s]);
    assert_eq!(try_read_text_pointer(&a, 0, Some(0), ""), Err(ReadError::TextNotNulTerminated));
}

#[test]
fn text_of_size_zero() {
    let a = arena(vec![segment(&[word(1, 2)])]);
    assert_eq!(try_read_text_pointer(&a, 0, Some(0), ""), Err(ReadError::TextNotNulTerminated));
}

#[test]
fn text_out_of_bounds() {
    let a = arena(vec![segment(&[word(1, 20 * 8 + 2), word(0, 0)])]);
    assert_eq!(try_read_text_pointer(&a, 0, Some(0), ""), Err(ReadError::OutOfBounds));
}

#[test]
fn text_read_from_bytes() {
    let mut s = segment(&[word(1, 3 * 8 + 2)]);
    s.extend_from_slice(&[b'o', b'k', 0, 0, 0, 0, 0, 0]);
    let a = arena(vec![s]);
    assert_eq!(try_read_text_pointer(&a, 0, Some(0), "no"), Ok(b"ok".to_vec()));
    assert_eq!(try_read_text_pointer(&a, 0, None, "no"), Ok(b"no".to_vec()));
}

#[test]
fn reads_with_missing_pointer() {
    let a = arena(vec![]);
    assert_eq!(try_read_struct_pointer(&a, 0, None, 5), Ok(StructReader::new_default()));
    assert_eq!(try_read_list_pointer(&a, 0, None, FieldSize::BYTE, 5).unwrap().size(), 0);
}

#[test]
fn root_outside_the_message() {
    let empty = arena(vec![Vec::new()]);
    assert_eq!(StructReader::try_read_root(&empty, 0, 0, 64), Err(ReadError::OutOfBounds));
    let one = arena(vec![segment(&[word(0, 0)])]);
    assert_eq!(StructReader::try_read_root(&one, 1, 0, 64), Err(ReadError::OutOfBounds));
    assert_eq!(StructReader::try_read_root(&one, 0, 1, 64), Err(ReadError::OutOfBounds));
    assert_eq!(StructReader::try_read_root(&one, usize::MAX, 0, 64), Err(ReadError::OutOfBounds));
    assert_eq!(StructReader::try_read_root(&one, 0, 0, 64).unwrap().get_data_section_size(), 0);
}

#[test]
fn well_formed_reads_without_checks() {
    let a = arena(vec![segment(&[word(2, 1)]), segment(&[word(0, 1), word(7, 0)])]);
    let r = StructReader::read_root(&a, 0, 0, 64);
    assert_eq!(r.segment, 1);
    assert_eq!(r.nesting_limit, 63);
    assert_eq!(read_struct_pointer(&a, 0, Some(0), 64), r);
    let p = PointerReader { segment: 0, pointer: Some(0), nesting_limit: 64 };
    assert_eq!(p.get_struct(&a), r);
    let mut tag = WirePointer { offset_and_kind: 2, upper32bits: 1 };
    let mut s = 0usize;
    assert_eq!(follow_fars(&a, &mut tag, 8, &mut s), 8);
    assert_eq!(s, 1);
    assert_eq!(tag, WirePointer { offset_and_kind: 0, upper32bits: 1 });

    let mut t = segment(&[word(1, 3 * 8 + 2)]);
    t.extend_from_slice(&[b'o', b'k', 0, 0, 0, 0, 0, 0]);
    let b = arena(vec![t]);
    assert_eq!(read_text_pointer(&b, 0, Some(0), "no"), b"ok".to_vec());
    let l = read_list_pointer(&b, 0, Some(0), FieldSize::BYTE, 3);
    assert_eq!(l.size(), 3);
    assert_eq!(l.nesting_limit, 2);
    let q = PointerReader { segment: 0, pointer: Some(0), nesting_limit: 3 };
    assert_eq!(q.get_list(&b, FieldSize::BYTE), l);
}
