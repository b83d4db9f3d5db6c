use lib::arena::{BuilderArena, ReaderArena};
use lib::builder::StructBuilder;
use lib::primitive::PrimitiveElement;
use lib::reader::{ListReader, PointerReader, ReadError, StructReader};
use lib::wire::{FieldSize, StructSize};
use lib::write_helpers::{try_zero_object, zero_object};

fn size(data: u16, pointers: u16) -> StructSize {
    StructSize { data, pointers, preferred_list_encoding: FieldSize::INLINE_COMPOSITE }
}

fn new_message(words: usize) -> (BuilderArena, usize) {
    let mut arena = BuilderArena::new(words);
    let root = arena.allocate(0, 1).unwrap();
    (arena, root)
}

#[test]
fn root_struct_pointer_encoding() {
    let (mut arena, root) = new_message(16);
    assert_eq!(root, 0);
    let b = StructBuilder::init_root(&mut arena, 0, root, size(2, 2));
    assert_eq!(b.segment, 0);
    assert_eq!(b.data, 8);
    assert_eq!(b.pointers, 24);
    assert_eq!(b.data_size, 128);
    assert_eq!(b.pointer_count, 2);
    assert_eq!(&arena.reader.segments[0][0..8], &[0, 0, 0, 0, 2, 0, 2, 0]);
    assert_eq!(arena.used[0], 5);
}

#[test]
fn data_fields_written_are_read_back() {
    let (mut arena, root) = new_message(16);
    let b = StructBuilder::init_root(&mut arena, 0, root, size(2, 0));
    b.set_data_field::<u32>(&mut arena, 0, 0xdead_beef);
    b.set_data_field::<i16>(&mut arena, 2, -5);
    b.set_data_field::<u8>(&mut arena, 7, 0x5a);
    b.set_data_field::<u64>(&mut arena, 1, 123_456_789_012);
    b.set_bool_field(&mut arena, 48, true);
    assert_eq!(b.get_data_field::<u32>(&arena, 0), 0xdead_beef);
    assert_eq!(b.get_data_field::<i16>(&arena, 2), -5);
    assert_eq!(b.get_data_field::<u8>(&arena, 7), 0x5a);
    assert_eq!(b.get_data_field::<u64>(&arena, 1), 123_456_789_012);
    assert!(b.get_bool_field(&arena, 48));
    assert!(!b.get_bool_field(&arena, 49));
    assert_eq!(&arena.reader.segments[0][8..16], &[0xef, 0xbe, 0xad, 0xde, 0xfb, 0xff, 0x01, 0x5a]);

    let segs = arena.as_reader();
    let r = StructReader::read_root(segs, 0, 0, 64);
    assert_eq!(r.get_data_section_size(), 128);
    assert_eq!(r.get_pointer_section_size(), 0);
    assert_eq!(r.nesting_limit, 63);
    assert_eq!(r.get_data_field::<u32>(segs, 0), 0xdead_beef);
    assert_eq!(r.get_data_field::<i16>(segs, 2), -5);
    assert_eq!(r.get_data_field::<u64>(segs, 1), 123_456_789_012);
    assert_eq!(r.get_data_field::<i64>(segs, 1), 123_456_789_012);
    assert!(r.get_bool_field(segs, 48));
    assert!(!r.get_bool_field(segs, 49));
}

#[test]
fn builder_as_reader_sees_writes() {
    let (mut arena, root) = new_message(16);
    let b = StructBuilder::init_root(&mut arena, 0, root, size(1, 0));
    b.set_data_field::<i32>(&mut arena, 1, -77);
    let r = b.as_reader(&arena);
    assert_eq!(r.nesting_limit, 0x7fff_ffff);
    assert_eq!(r.get_data_field::<i32>(arena.as_reader(), 1), -77);
}

#[test]
fn fields_past_the_data_section_read_as_zero() {
    let (mut arena, root) = new_message(16);
    let b = StructBuilder::init_root(&mut arena, 0, root, size(1, 0));
    b.set_data_field::<u64>(&mut arena, 0, u64::MAX);
    let segs = arena.as_reader();
    let r = StructReader::read_root(segs, 0, 0, 64);
    assert_eq!(r.get_data_field::<u64>(segs, 1), 0);
    assert_eq!(r.get_data_field::<u32>(segs, 2), 0);
    assert_eq!(r.get_data_field::<u32>(segs, 1), u32::MAX);
    assert!(!r.get_bool_field(segs, 64));
    assert!(r.get_bool_field(segs, 63));
}

#[test]
fn masked_fields_flip_bits() {
    let (mut arena, root) = new_message(16);
    let b = StructBuilder::init_root(&mut arena, 0, root, size(1, 0));
    b.set_data_field::<u16>(&mut arena, 0, 0x00ff);
    let segs = arena.as_reader();
    let r = StructReader::read_root(segs, 0, 0, 64);
    assert_eq!(r.get_data_field_mask::<u16>(segs, 0, 0x0f0f), 0x0ff0);
    assert!(r.get_bool_field_mask(segs, 20, true));
    assert!(!r.get_bool_field_mask(segs, 0, true));
}

#[test]
fn fresh_struct_is_all_zero() {
    let (mut arena, root) = new_message(32);
    let b = StructBuilder::init_root(&mut arena, 0, root, size(2, 2));
    let c = b.init_struct_field(&mut arena, 0, size(3, 1));
    for i in 0..3 {
        assert_eq!(c.get_data_field::<u64>(&arena, i), 0);
    }
    assert!(!c.get_bool_field(&arena, 5));
    let segs = arena.as_reader();
    let r = StructReader::read_root(segs, 0, 0, 64);
    let cr = r.get_struct_field(segs, 0, None);
    assert_eq!(cr.get_data_section_size(), 192);
    assert_eq!(cr.get_pointer_section_size(), 1);
    assert!(cr.get_pointer_field(segs, 0).is_null(segs));
    assert_eq!(cr.get_data_field::<u64>(segs, 2), 0);
}

#[test]
fn nested_struct_fields_are_independent() {
    let (mut arena, root) = new_message(32);
    let b = StructBuilder::init_root(&mut arena, 0, root, size(1, 2));
    b.set_data_field::<u64>(&mut arena, 0, 11);
    let c0 = b.init_struct_field(&mut arena, 0, size(1, 0));
    c0.set_data_field::<u64>(&mut arena, 0, 22);
    let c1 = b.init_struct_field(&mut arena, 1, size(1, 0));
    c1.set_data_field::<u64>(&mut arena, 0, 33);
    let segs = arena.as_reader();
    let r = StructReader::read_root(segs, 0, 0, 64);
    assert_eq!(r.get_data_field::<u64>(segs, 0), 11);
    assert_eq!(r.get_struct_field(segs, 0, None).get_data_field::<u64>(segs, 0), 22);
    assert_eq!(r.get_struct_field(segs, 1, None).get_data_field::<u64>(segs, 0), 33);
    let p = r.get_pointer_field(segs, 1);
    assert!(!p.is_null(segs));
    assert_eq!(p.get_struct(segs).get_data_field::<u64>(segs, 0), 33);
}

#[test]
fn missing_pointers_read_as_defaults() {
    let (mut arena, root) = new_message(16);
    let b = StructBuilder::init_root(&mut arena, 0, root, size(0, 1));
    let segs = arena.as_reader();
    let r = StructReader::read_root(segs, 0, 0, 64);
    assert_eq!(r.get_struct_field(segs, 0, None), StructReader::new_default());
    assert_eq!(r.get_struct_field(segs, 5, None), StructReader::new_default());
    assert_eq!(r.get_list_field(segs, 3, FieldSize::BYTE, None), ListReader::new_default());
    assert_eq!(r.get_text_field(segs, 4, "fallback"), b"fallback".to_vec());
    assert_eq!(r.get_text_field(segs, 0, "x"), b"x".to_vec());
    assert_eq!(r.get_pointer_field(segs, 9), PointerReader::new_default());
    assert!(PointerReader::new_default().is_null(segs));
    let _ = b;
}

#[test]
fn primitive_list_round_trip() {
    let (mut arena, root) = new_message(32);
    let b = StructBuilder::init_root(&mut arena, 0, root, size(0, 1));
    let l = b.init_list_field(&mut arena, 0, FieldSize::TWO_BYTES, 3);
    assert_eq!(l.size(), 3);
    <u16 as PrimitiveElement>::set(&l, &mut arena, 0, 100);
    <u16 as PrimitiveElement>::set(&l, &mut arena, 2, 65535);
    assert_eq!(<u16 as PrimitiveElement>::get_from_builder(&l, &arena, 0), 100);
    assert_eq!(<u16 as PrimitiveElement>::get_from_builder(&l, &arena, 1), 0);
    let segs = arena.as_reader();
    let r = StructReader::read_root(segs, 0, 0, 64);
    let lr = r.get_list_field(segs, 0, FieldSize::TWO_BYTES, None);
    assert_eq!(lr.size(), 3);
    assert_eq!(lr.step, 16);
    assert_eq!(<u16 as PrimitiveElement>::get(&lr, segs, 0), 100);
    assert_eq!(<u16 as PrimitiveElement>::get(&lr, segs, 1), 0);
    assert_eq!(<u16 as PrimitiveElement>::get(&lr, segs, 2), 65535);
    let lr8 = r.get_list_field(segs, 0, FieldSize::BYTE, None);
    assert_eq!(<u8 as PrimitiveElement>::get(&lr8, segs, 2), 255);
}

#[test]
fn signed_list_round_trip() {
    let (mut arena, root) = new_message(32);
    let b = StructBuilder::init_root(&mut arena, 0, root, size(0, 1));
    let l = b.init_list_field(&mut arena, 0, FieldSize::EIGHT_BYTES, 2);
    <i64 as PrimitiveElement>::set(&l, &mut arena, 1, -42);
    let segs = arena.as_reader();
    let r = StructReader::read_root(segs, 0, 0, 64);
    let lr = r.get_list_field(segs, 0, FieldSize::EIGHT_BYTES, None);
    assert_eq!(<i64 as PrimitiveElement>::get(&lr, segs, 1), -42);
    assert_eq!(<u64 as PrimitiveElement>::get(&lr, segs, 1), (-42i64) as u64);
    assert_eq!(<i32 as PrimitiveElement>::get(&lr, segs, 1), -42);
}

#[test]
fn bit_list_round_trip() {
    let (mut arena, root) = new_message(32);
    let b = StructBuilder::init_root(&mut arena, 0, root, size(0, 1));
    let l = b.init_list_field(&mut arena, 0, FieldSize::BIT, 10);
    <bool as PrimitiveElement>::set(&l, &mut arena, 3, true);
    <bool as PrimitiveElement>::set(&l, &mut arena, 9, true);
    <bool as PrimitiveElement>::set(&l, &mut arena, 9, false);
    <bool as PrimitiveElement>::set(&l, &mut arena, 8, true);
    assert!(<bool as PrimitiveElement>::get_from_builder(&l, &arena, 3));
    let segs = arena.as_reader();
    let r = StructReader::read_root(segs, 0, 0, 64);
    let lr = r.get_list_field(segs, 0, FieldSize::BIT, None);
    let bits: Vec<bool> = (0..10).map(|i| <bool as PrimitiveElement>::get(&lr, segs, i)).collect();
    assert_eq!(bits, vec![false, false, false, true, false, false, false, false, true, false]);
    let e = lr.get_struct_element(segs, 8);
    assert_eq!(e.bit0offset, 0);
    assert_eq!(e.data, lr.ptr + 1);
    assert!(e.get_bool_field(segs, 0));
    let e3 = lr.get_struct_element(segs, 3);
    assert_eq!(e3.bit0offset, 3);
    assert!(e3.get_bool_field(segs, 0));
}

#[test]
fn void_list_elements() {
    let (mut arena, root) = new_message(16);
    let b = StructBuilder::init_root(&mut arena, 0, root, size(0, 1));
    let l = b.init_list_field(&mut arena, 0, FieldSize::VOID, 5);
    <() as PrimitiveElement>::set(&l, &mut arena, 4, ());
    let segs = arena.as_reader();
    let r = StructReader::read_root(segs, 0, 0, 64);
    let lr = r.get_list_field(segs, 0, FieldSize::VOID, None);
    assert_eq!(lr.size(), 5);
    assert_eq!(<() as PrimitiveElement>::get(&lr, segs, 4), ());
}

#[test]
fn struct_list_round_trip() {
    let (mut arena, root) = new_message(64);
    let b = StructBuilder::init_root(&mut arena, 0, root, size(0, 1));
    let l = b.init_struct_list_field(&mut arena, 0, 3, size(1, 1));
    assert_eq!(l.step, 128);
    for i in 0..3 {
        let e = l.get_struct_element(&arena, i);
        e.set_data_field::<u64>(&mut arena, 0, 1000 + i as u64);
        e.set_text_field(&mut arena, 0, "hi");
    }
    let segs = arena.as_reader();
    let r = StructReader::read_root(segs, 0, 0, 64);
    let lr = r.get_list_field(segs, 0, FieldSize::INLINE_COMPOSITE, None);
    assert_eq!(lr.size(), 3);
    for i in 0..3 {
        let e = lr.get_struct_element(segs, i);
        assert_eq!(e.get_data_field::<u64>(segs, 0), 1000 + i as u64);
        assert_eq!(e.get_text_field(segs, 0, ""), b"hi".to_vec());
    }
    let as_u64 = r.get_list_field(segs, 0, FieldSize::EIGHT_BYTES, None);
    assert_eq!(<u64 as PrimitiveElement>::get(&as_u64, segs, 2), 1002);
}

#[test]
fn struct_list_with_primitive_encoding() {
    let (mut arena, root) = new_message(32);
    let b = StructBuilder::init_root(&mut arena, 0, root, size(0, 1));
    let es = StructSize { data: 1, pointers: 0, preferred_list_encoding: FieldSize::FOUR_BYTES };
    let l = b.init_struct_list_field(&mut arena, 0, 4, es);
    assert_eq!(l.step, 32);
    let e = l.get_struct_element(&arena, 2);
    e.set_data_field::<u32>(&mut arena, 0, 7);
    let segs = arena.as_reader();
    let r = StructReader::read_root(segs, 0, 0, 64);
    let lr = r.get_list_field(segs, 0, FieldSize::FOUR_BYTES, None);
    assert_eq!(<u32 as PrimitiveElement>::get(&lr, segs, 2), 7);
    let er = lr.get_struct_element(segs, 2);
    assert_eq!(er.get_data_field::<u32>(segs, 0), 7);
    assert_eq!(er.get_data_field::<u64>(segs, 0), 0);
}

#[test]
fn text_round_trip() {
    let (mut arena, root) = new_message(32);
    let b = StructBuilder::init_root(&mut arena, 0, root, size(0, 2));
    b.set_text_field(&mut arena, 0, "hello, world");
    b.set_text_field(&mut arena, 1, "");
    let segs = arena.as_reader();
    let r = StructReader::read_root(segs, 0, 0, 64);
    assert_eq!(r.get_text_field(segs, 0, "d"), b"hello, world".to_vec());
    assert_eq!(r.get_text_field(segs, 1, "d"), Vec::<u8>::new());
    let lr = r.get_list_field(segs, 0, FieldSize::BYTE, None);
    assert_eq!(lr.size(), 13);
    assert_eq!(<u8 as PrimitiveElement>::get(&lr, segs, 12), 0);
}

#[test]
fn text_stops_at_first_nul() {
    let (mut arena, root) = new_message(32);
    let b = StructBuilder::init_root(&mut arena, 0, root, size(0, 1));
    b.set_text_field(&mut arena, 0, "ab\0cd");
    let segs = arena.as_reader();
    let r = StructReader::read_root(segs, 0, 0, 64);
    assert_eq!(r.get_text_field(segs, 0, ""), b"ab".to_vec());
}

#[test]
fn far_pointer_when_segment_is_full() {
    let (mut arena, root) = new_message(2);
    let b = StructBuilder::init_root(&mut arena, 0, root, size(2, 0));
    assert_eq!(arena.segment_count(), 2);
    assert_eq!(b.segment, 1);
    assert_eq!(b.data, 8);
    assert_eq!(&arena.reader.segments[0][0..8], &[2, 0, 0, 0, 1, 0, 0, 0]);
    assert_eq!(&arena.reader.segments[1][0..8], &[0, 0, 0, 0, 2, 0, 0, 0]);
    b.set_data_field::<u64>(&mut arena, 1, 77);
    let segs = arena.as_reader();
    let r = StructReader::read_root(segs, 0, 0, 64);
    assert_eq!(r.segment, 1);
    assert_eq!(r.get_data_field::<u64>(segs, 1), 77);
}

#[test]
fn far_pointers_for_children() {
    let (mut arena, root) = new_message(4);
    let b = StructBuilder::init_root(&mut arena, 0, root, size(0, 3));
    let l = b.init_list_field(&mut arena, 0, FieldSize::FOUR_BYTES, 5);
    <u32 as PrimitiveElement>::set(&l, &mut arena, 4, 9);
    b.set_text_field(&mut arena, 1, "segmented");
    let c = b.init_struct_field(&mut arena, 2, size(1, 0));
    c.set_data_field::<u64>(&mut arena, 0, 5);
    assert!(arena.segment_count() > 1);
    let segs = arena.as_reader();
    let r = StructReader::read_root(segs, 0, 0, 64);
    let lr = r.get_list_field(segs, 0, FieldSize::FOUR_BYTES, None);
    assert_eq!(<u32 as PrimitiveElement>::get(&lr, segs, 4), 9);
    assert_eq!(r.get_text_field(segs, 1, ""), b"segmented".to_vec());
    assert_eq!(r.get_struct_field(segs, 2, None).get_data_field::<u64>(segs, 0), 5);
}

#[test]
fn reinitializing_a_field_zeroes_the_old_object() {
    let (mut arena, root) = new_message(32);
    let b = StructBuilder::init_root(&mut arena, 0, root, size(0, 1));
    let c = b.init_struct_field(&mut arena, 0, size(2, 0));
    c.set_data_field::<u64>(&mut arena, 0, 0x1111);
    c.set_data_field::<u64>(&mut arena, 1, 0x2222);
    let old_data = c.data;
    let d = b.init_struct_field(&mut arena, 0, size(1, 0));
    assert!(d.data != old_data);
    assert_eq!(&arena.reader.segments[0][old_data..old_data + 16], &[0u8; 16]);
    let segs = arena.as_reader();
    let r = StructReader::read_root(segs, 0, 0, 64);
    assert_eq!(r.get_struct_field(segs, 0, None).get_data_section_size(), 64);
}

#[test]
fn zero_object_clears_a_tree() {
    let (mut arena, root) = new_message(32);
    let b = StructBuilder::init_root(&mut arena, 0, root, size(1, 1));
    b.set_data_field::<u64>(&mut arena, 0, 3);
    let l = b.init_list_field(&mut arena, 0, FieldSize::POINTER, 2);
    let _ = l;
    b.set_text_field(&mut arena, 0, "gone");
    assert!(try_zero_object(&mut arena, 0, root));
    let used = arena.used[0];
    assert!(arena.reader.segments[0][8..used * 8].iter().all(|&x| x == 0));
    assert_eq!(&arena.reader.segments[0][0..8], &[0, 0, 0, 0, 1, 0, 1, 0]);
}

#[test]
fn zero_object_refuses_capabilities() {
    let mut arena = BuilderArena::new(8);
    let p = arena.allocate(0, 2).unwrap();
    let cap = lib::wire::WirePointer { offset_and_kind: 3, upper32bits: 0 };
    arena.write_pointer(0, p, cap);
    assert!(!try_zero_object(&mut arena, 0, p));
}

#[test]
fn reader_arena_accepts_segments() {
    let a = ReaderArena::new(vec![vec![0u8; 16], vec![]]).unwrap();
    assert_eq!(a.segment_count(), 2);
    let r = StructReader::read_root(&a, 0, 0, 64);
    assert_eq!(r, StructReader::new_default());
}

#[test]
fn get_segment_with_available_adds_segments() {
    let mut arena = BuilderArena::new(2);
    assert_eq!(arena.get_segment_with_available(2), 0);
    arena.allocate(0, 2).unwrap();
    assert!(arena.allocate(0, 1).is_none());
    assert_eq!(arena.get_segment_with_available(5), 1);
    assert_eq!(arena.segment_len(1), 40);
    assert_eq!(arena.allocate(1, 5), Some(0));
}

#[test]
fn list_reader_default_is_empty() {
    let l = ListReader::new_default();
    assert_eq!(l.size(), 0);
    assert_eq!(l.nesting_limit, 0x7fff_ffff);
}

#[test]
fn nesting_limit_stops_deep_reads() {
    let (mut arena, root) = new_message(32);
    let b = StructBuilder::init_root(&mut arena, 0, root, size(0, 1));
    let c = b.init_struct_field(&mut arena, 0, size(1, 1));
    let _ = c.init_list_field(&mut arena, 0, FieldSize::BYTE, 3);
    let segs = arena.as_reader();
    let r = StructReader::read_root(segs, 0, 0, 1);
    assert_eq!(r.nesting_limit, 0);
    assert_eq!(r.try_get_struct_field(segs, 0, None), Err(ReadError::NestingLimitExceeded));
    let r = StructReader::read_root(segs, 0, 0, 2);
    let cr = r.get_struct_field(segs, 0, None);
    assert_eq!(cr.try_get_list_field(segs, 0, FieldSize::BYTE, None), Err(ReadError::NestingLimitExceeded));
    assert_eq!(StructReader::try_read_root(segs, 0, 0, 0), Err(ReadError::NestingLimitExceeded));
}

#[test]
fn empty_struct_reads_as_empty() {
    let (mut arena, root) = new_message(16);
    let b = StructBuilder::init_root(&mut arena, 0, root, size(0, 2));
    let e = b.init_struct_field(&mut arena, 1, size(0, 0));
    assert_eq!(e.data_size, 0);
    assert_eq!(e.pointer_count, 0);
    let segs = arena.as_reader();
    let r = StructReader::read_root(segs, 0, 0, 64);
    let s = r.get_struct_field(segs, 1, None);
    assert_eq!(s.get_data_section_size(), 0);
    assert_eq!(s.get_pointer_section_size(), 0);
}

#[test]
fn empty_void_list_reads_as_empty() {
    let (mut arena, root) = new_message(16);
    let b = StructBuilder::init_root(&mut arena, 0, root, size(0, 1));
    let l = b.init_list_field(&mut arena, 0, FieldSize::VOID, 0);
    assert_eq!(l.size(), 0);
    let segs = arena.as_reader();
    let r = StructReader::read_root(segs, 0, 0, 64);
    let lr = r.get_list_field(segs, 0, FieldSize::VOID, None);
    assert_eq!(lr.size(), 0);
}

#[test]
fn zero_object_clears_exactly_a_flat_struct() {
    let (mut arena, root) = new_message(16);
    let b = StructBuilder::init_root(&mut arena, 0, root, size(2, 0));
    b.set_data_field::<u64>(&mut arena, 0, u64::MAX);
    b.set_data_field::<u64>(&mut arena, 1, 7);
    let before_pointer = arena.reader.segments[0][0..8].to_vec();
    assert!(try_zero_object(&mut arena, 0, root));
    assert_eq!(&arena.reader.segments[0][0..8], &before_pointer[..]);
    assert!(arena.reader.segments[0][8..24].iter().all(|&x| x == 0));
}

#[test]
fn zero_object_refuses_a_list_past_its_segment() {
    let mut arena = BuilderArena::new(4);
    let p = arena.allocate(0, 2).unwrap();
    // A byte list of 100 elements right after the pointer: 13 words, more
    // than the segment holds.
    let list = lib::wire::WirePointer { offset_and_kind: 1, upper32bits: 100 * 8 + 2 };
    arena.write_pointer(0, p, list);
    arena.store(0, p + 8, 8, u64::MAX);
    let before = arena.reader.segments.clone();
    assert!(!try_zero_object(&mut arena, 0, p));
    assert_eq!(arena.reader.segments, before);
}

#[test]
fn zero_object_without_check_clears_a_struct() {
    let (mut arena, root) = new_message(16);
    let b = StructBuilder::init_root(&mut arena, 0, root, size(1, 0));
    b.set_data_field::<u64>(&mut arena, 0, 9);
    zero_object(&mut arena, 0, root);
    assert!(arena.reader.segments[0][8..16].iter().all(|&x| x == 0));
    assert_eq!(&arena.reader.segments[0][0..8], &[0, 0, 0, 0, 1, 0, 0, 0]);
}

#[test]
fn zero_object_clears_what_a_pointer_list_reaches() {
    let mut arena = BuilderArena::new(4);
    let p = arena.allocate(0, 3).unwrap();
    assert_eq!(p, 0);
    // A list of one pointer right after the list pointer, and that pointer
    // to a struct of one data word right after it.
    let list = lib::wire::WirePointer { offset_and_kind: 1, upper32bits: 0xE };
    let child = lib::wire::WirePointer { offset_and_kind: 0, upper32bits: 1 };
    arena.write_pointer(0, 0, list);
    arena.write_pointer(0, 8, child);
    arena.store(0, 16, 8, 0x55);
    zero_object(&mut arena, 0, 0);
    assert_eq!(&arena.reader.segments[0][0..8], &[1, 0, 0, 0, 0xE, 0, 0, 0]);
    assert!(arena.reader.segments[0][8..24].iter().all(|&x| x == 0));
}

#[test]
fn zero_object_clears_a_landing_pad_and_its_object() {
    let (mut arena, root) = new_message(2);
    let b = StructBuilder::init_root(&mut arena, 0, root, size(2, 0));
    b.set_data_field::<u64>(&mut arena, 0, 5);
    b.set_data_field::<u64>(&mut arena, 1, 6);
    assert_eq!(b.segment, 1);
    let before_pointer = arena.reader.segments[0][0..8].to_vec();
    assert!(try_zero_object(&mut arena, 0, root));
    assert_eq!(&arena.reader.segments[0][0..8], &before_pointer[..]);
    assert!(arena.reader.segments[1][0..24].iter().all(|&x| x == 0));
}

#[test]
fn zero_object_clears_a_double_far_pointer() {
    let mut arena = BuilderArena::new(1);
    let root = arena.allocate(0, 1).unwrap();
    let pads = arena.get_segment_with_available(2);
    assert_eq!(pads, 1);
    assert_eq!(arena.allocate(pads, 2), Some(0));
    let objs = arena.get_segment_with_available(2);
    assert_eq!(objs, 2);
    assert_eq!(arena.allocate(objs, 2), Some(0));
    // Double far pointer to the pad at word 0 of segment 1; the pad points
    // at word 0 of segment 2 and its tag describes a struct of two data words.
    arena.write_pointer(0, root, lib::wire::WirePointer { offset_and_kind: 6, upper32bits: 1 });
    arena.write_pointer(1, 0, lib::wire::WirePointer { offset_and_kind: 2, upper32bits: 2 });
    arena.write_pointer(1, 8, lib::wire::WirePointer { offset_and_kind: 0, upper32bits: 2 });
    arena.store(2, 0, 8, 0x77);
    arena.store(2, 8, 8, 0x88);
    let segs = arena.as_reader();
    assert_eq!(StructReader::read_root(segs, 0, root, 64).get_data_field::<u64>(segs, 1), 0x88);
    assert!(try_zero_object(&mut arena, 0, root));
    assert_eq!(&arena.reader.segments[0][0..8], &[6, 0, 0, 0, 1, 0, 0, 0]);
    assert!(arena.reader.segments[1][0..16].iter().all(|&x| x == 0));
    assert!(arena.reader.segments[2][0..16].iter().all(|&x| x == 0));
}

#[test]
fn reinitializing_a_field_zeroes_what_the_old_object_reached() {
    let (mut arena, root) = new_message(64);
    let b = StructBuilder::init_root(&mut arena, 0, root, size(0, 1));
    let c = b.init_struct_field(&mut arena, 0, size(1, 1));
    c.set_data_field::<u64>(&mut arena, 0, 0x1234);
    c.set_text_field(&mut arena, 0, "grandchild");
    let used = arena.used[0];
    let first_free = c.data + 16;
    let _ = b.init_struct_field(&mut arena, 0, size(1, 0));
    assert!(arena.reader.segments[0][c.data..first_free].iter().all(|&x| x == 0));
    assert!(arena.reader.segments[0][first_free..used * 8].iter().all(|&x| x == 0));
}
