use lib::wire::{
    data_bits_per_element, pointers_per_element, FarRef, FieldSize, ListRef, StructRef,
    StructSize, WirePointer, WirePointerKind,
};
use lib::wire_helpers::{round_bits_up_to_bytes, round_bits_up_to_words, round_bytes_up_to_words};

#[test]
fn data_bits_per_element_of_each_size() {
    assert_eq!(data_bits_per_element(FieldSize::VOID), 0);
    assert_eq!(data_bits_per_element(FieldSize::BIT), 1);
    assert_eq!(data_bits_per_element(FieldSize::BYTE), 8);
    assert_eq!(data_bits_per_element(FieldSize::TWO_BYTES), 16);
    assert_eq!(data_bits_per_element(FieldSize::FOUR_BYTES), 32);
    assert_eq!(data_bits_per_element(FieldSize::EIGHT_BYTES), 64);
    assert_eq!(data_bits_per_element(FieldSize::POINTER), 0);
    assert_eq!(data_bits_per_element(FieldSize::INLINE_COMPOSITE), 0);
}

#[test]
fn pointers_per_element_of_each_size() {
    assert_eq!(pointers_per_element(FieldSize::POINTER), 1);
    assert_eq!(pointers_per_element(FieldSize::EIGHT_BYTES), 0);
    assert_eq!(pointers_per_element(FieldSize::INLINE_COMPOSITE), 0);
    assert_eq!(pointers_per_element(FieldSize::VOID), 0);
}

#[test]
fn field_size_codes_round_trip() {
    for c in 0u32..8 {
        assert_eq!(FieldSize::from_code(c).to_code(), c);
    }
    assert_eq!(FieldSize::from_code(5), FieldSize::EIGHT_BYTES);
}

#[test]
fn struct_size_total_counts_both_sections() {
    let s = StructSize { data: 3, pointers: 4, preferred_list_encoding: FieldSize::INLINE_COMPOSITE };
    assert_eq!(s.total(), 7);
}

#[test]
fn struct_ref_set_and_word_size() {
    let mut r = StructRef { data_size: 0, ptr_count: 0 };
    r.set(StructSize { data: 2, pointers: 5, preferred_list_encoding: FieldSize::VOID });
    assert_eq!(r.data_size, 2);
    assert_eq!(r.ptr_count, 5);
    assert_eq!(r.word_size(), 7);
}

#[test]
fn list_ref_packs_size_and_count() {
    let mut r = ListRef { element_size_and_count: 0 };
    r.set(FieldSize::BYTE, 13);
    assert_eq!(r.element_size_and_count, 13 * 8 + 2);
    assert_eq!(r.element_size(), FieldSize::BYTE);
    assert_eq!(r.element_count(), 13);
    r.set_inline_composite(7);
    assert_eq!(r.element_size_and_count, 63);
    assert_eq!(r.element_size(), FieldSize::INLINE_COMPOSITE);
    assert_eq!(r.inline_composite_word_count(), 7);
}

#[test]
fn list_ref_largest_count() {
    let mut r = ListRef { element_size_and_count: 0 };
    r.set(FieldSize::EIGHT_BYTES, (1 << 29) - 1);
    assert_eq!(r.element_count(), (1 << 29) - 1);
    assert_eq!(r.element_size(), FieldSize::EIGHT_BYTES);
}

#[test]
fn wire_pointer_kind_from_low_bits() {
    let p = WirePointer { offset_and_kind: 0x11, upper32bits: 0 };
    assert_eq!(p.kind(), WirePointerKind::WP_LIST);
    let p = WirePointer { offset_and_kind: 0x13, upper32bits: 0 };
    assert_eq!(p.kind(), WirePointerKind::WP_CAPABILITY);
    let p = WirePointer { offset_and_kind: 0x10, upper32bits: 0 };
    assert_eq!(p.kind(), WirePointerKind::WP_STRUCT);
}

#[test]
fn set_kind_and_target_round_trip() {
    let mut p = WirePointer { offset_and_kind: 0, upper32bits: 99 };
    p.set_kind_and_target(WirePointerKind::WP_LIST, 48, 8);
    assert_eq!(p.offset_and_kind, 4 * 4 + 1);
    assert_eq!(p.upper32bits, 99);
    assert_eq!(p.kind(), WirePointerKind::WP_LIST);
    assert_eq!(p.target(8), 48);
    let mut q = p;
    assert_eq!(q.mut_target(8), 48);
}

#[test]
fn target_right_after_pointer_has_zero_offset() {
    let mut p = WirePointer { offset_and_kind: 0, upper32bits: 0 };
    p.set_kind_and_target(WirePointerKind::WP_STRUCT, 16, 8);
    assert_eq!(p.offset_and_kind, 0);
    assert_eq!(p.target(8), 16);
}

#[test]
fn target_before_pointer_wraps_offset() {
    let mut p = WirePointer { offset_and_kind: 0, upper32bits: 5 };
    p.set_kind_and_target(WirePointerKind::WP_LIST, 8, 16);
    assert_eq!(p.offset_and_kind, 0xFFFF_FFF8 | 1);
    assert_eq!(p.upper32bits, 5);
    p.set_kind_and_target(WirePointerKind::WP_STRUCT, 8, 8);
    assert_eq!(p.offset_and_kind, 0xFFFF_FFFC);
}

#[test]
fn set_kind_with_zero_offset_keeps_upper() {
    let mut p = WirePointer { offset_and_kind: 0xfff0, upper32bits: 7 };
    p.set_kind_with_zero_offset(WirePointerKind::WP_FAR);
    assert_eq!(p.offset_and_kind, 2);
    assert_eq!(p.upper32bits, 7);
}

#[test]
fn inline_composite_element_count_round_trip() {
    let mut p = WirePointer { offset_and_kind: 0, upper32bits: 0 };
    p.set_kind_and_inline_composite_list_element_count(WirePointerKind::WP_STRUCT, 1000);
    assert_eq!(p.offset_and_kind, 4000);
    assert_eq!(p.inline_composite_list_element_count(), 1000);
    assert_eq!(p.kind(), WirePointerKind::WP_STRUCT);
}

#[test]
fn set_far_round_trip() {
    let mut p = WirePointer { offset_and_kind: 0, upper32bits: 0 };
    p.set_far(true, 5);
    assert_eq!(p.offset_and_kind, 5 * 8 + 4 + 2);
    assert_eq!(p.kind(), WirePointerKind::WP_FAR);
    assert!(p.is_double_far());
    assert_eq!(p.far_position_in_segment(), 5);
    p.set_far(false, 9);
    assert!(!p.is_double_far());
    assert_eq!(p.far_position_in_segment(), 9);
}

#[test]
fn upper_half_views() {
    let mut p = WirePointer { offset_and_kind: 0, upper32bits: 0x0003_0002 };
    assert_eq!(p.struct_ref(), StructRef { data_size: 2, ptr_count: 3 });
    assert_eq!(p.list_ref().element_size_and_count, 0x0003_0002);
    assert_eq!(p.far_ref().segment_id, 0x0003_0002);
    p.set_struct_ref(StructRef { data_size: 7, ptr_count: 1 });
    assert_eq!(p.upper32bits, 0x0001_0007);
    p.set_far_ref(FarRef { segment_id: 4 });
    assert_eq!(p.upper32bits, 4);
    p.set_list_ref(ListRef { element_size_and_count: 21 });
    assert_eq!(p.upper32bits, 21);
}

#[test]
fn null_pointer_is_all_zero() {
    assert!(WirePointer::null().is_null());
    assert!(!WirePointer { offset_and_kind: 0, upper32bits: 1 }.is_null());
    assert!(!WirePointer { offset_and_kind: 4, upper32bits: 0 }.is_null());
}

#[test]
fn pointer_bytes_are_little_endian() {
    let p = WirePointer { offset_and_kind: 0x0403_0201, upper32bits: 0x0807_0605 };
    let mut s = vec![0u8; 16];
    p.write_to(&mut s, 8);
    assert_eq!(&s[8..16], &[1, 2, 3, 4, 5, 6, 7, 8]);
    assert_eq!(&s[0..8], &[0; 8]);
    assert_eq!(WirePointer::read_from(&s, 8), p);
}

#[test]
fn rounding_up() {
    assert_eq!(round_bytes_up_to_words(0), 0);
    assert_eq!(round_bytes_up_to_words(1), 1);
    assert_eq!(round_bytes_up_to_words(8), 1);
    assert_eq!(round_bytes_up_to_words(9), 2);
    assert_eq!(round_bits_up_to_words(64), 1);
    assert_eq!(round_bits_up_to_words(65), 2);
    assert_eq!(round_bits_up_to_bytes(9), 2);
    assert_eq!(round_bits_up_to_bytes(8), 1);
}
