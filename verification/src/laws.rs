//! Properties of the layout that span several operations: a builder and a
//! reader over the same struct agree, fields are independent of each other,
//! and freshly allocated objects read as their defaults; and what the wire
//! format says of values and pointers: how each integer type is encoded, that
//! a mask flips bits, where far pointers lead, and how structs and lists are
//! laid out behind their pointers.
use vstd::prelude::*;
use crate::arena::{BuilderArena, segment_wf};
use crate::builder::{StructBuilder, ListBuilder, with_bit, lemma_with_bit};
use crate::le::{read_le, write_le, lemma_write_le, lemma_read_le_same, lemma_le_value_zero};
use crate::primitive::{DataValue, PrimitiveElement, value_get};
use crate::reader::{ListReader, StructReader, bit_of};
use crate::wire::wire_pointer_at;
use crate::write_helpers::kept_but_old_object;
use crate::arena::arena_nonzero;
use crate::footprint::{in_value, lemma_in_value_null};
use crate::wire::{FieldSize, WirePointer, WirePointerKind, spec_data_bits_per_element, spec_pointers_per_element};
use crate::wire_helpers::{spec_list_from_tag, spec_follow_fars, spec_read_struct_pointer};
use crate::reader::ReadError;

verus! {

/// A data field that fits the data section reads the same through a builder
/// and through the reader over the same struct.
pub proof fn lemma_reader_sees_builder_data_field<T: DataValue>(
    b: StructBuilder,
    segs: Seq<Seq<u8>>,
    offset: nat,
    nesting_limit: int,
)
    requires
        b.data_field_fits::<T>(offset),
    ensures
        b.spec_as_reader(nesting_limit).spec_data_field::<T>(segs, offset) == b.spec_data_field::<T>(
            segs,
            offset,
        ),
{
}

/// A bool field that fits the data section reads the same through a builder
/// and through the reader over the same struct.
pub proof fn lemma_reader_sees_builder_bool_field(
    b: StructBuilder,
    segs: Seq<Seq<u8>>,
    offset: nat,
    nesting_limit: int,
)
    requires
        b.bool_field_fits(offset),
    ensures
        b.spec_as_reader(nesting_limit).spec_bool_field(segs, offset) == b.spec_bool_field(
            segs,
            offset,
        ),
{
    if offset > 0 {
        assert(offset < b.data_size);
        assert((offset as u32) as nat == offset);
    }
}

/// Writing one data field leaves every data field whose bytes do not overlap
/// it unchanged.
pub proof fn lemma_data_fields_independent<T: DataValue, U: DataValue>(
    b: StructBuilder,
    segs: Seq<Seq<u8>>,
    offset: nat,
    value: T,
    other: nat,
)
    requires
        b.segment < segs.len(),
        b.data_field_pos::<T>(offset) + T::byte_width() <= segs[b.segment as int].len(),
        b.data_field_pos::<U>(other) + U::byte_width() <= segs[b.segment as int].len(),
        b.data_field_pos::<T>(offset) + T::byte_width() <= b.data_field_pos::<U>(other)
            || b.data_field_pos::<U>(other) + U::byte_width() <= b.data_field_pos::<T>(offset),
    ensures
        ({
            let after = segs.update(
                b.segment as int,
                write_le(
                    segs[b.segment as int],
                    b.data_field_pos::<T>(offset),
                    T::byte_width(),
                    value.spec_to_bits(),
                ),
            );
            b.spec_data_field::<U>(after, other) == b.spec_data_field::<U>(segs, other)
        }),
{
    let s = segs[b.segment as int];
    let pos = b.data_field_pos::<T>(offset);
    lemma_write_le(s, pos, T::byte_width(), value.spec_to_bits());
    let w = write_le(s, pos, T::byte_width(), value.spec_to_bits());
    lemma_read_le_same(s, w, b.data_field_pos::<U>(other), U::byte_width());
}

/// Setting one bool field leaves every other bool field unchanged.
pub proof fn lemma_bool_fields_independent(
    b: StructBuilder,
    segs: Seq<Seq<u8>>,
    offset: nat,
    value: bool,
    other: nat,
)
    requires
        b.segment < segs.len(),
        b.data + b.bool_bit(offset) / 8 < segs[b.segment as int].len(),
        b.data + b.bool_bit(other) / 8 < segs[b.segment as int].len(),
        b.bool_bit(offset) != b.bool_bit(other),
    ensures
        ({
            let s = segs[b.segment as int];
            let pos = b.data + b.bool_bit(offset) / 8;
            let after = segs.update(
                b.segment as int,
                s.update(pos, with_bit(s[pos], b.bool_bit(offset) % 8, value)),
            );
            b.spec_bool_field(after, other) == b.spec_bool_field(segs, other)
        }),
{
    let s = segs[b.segment as int];
    let k = b.bool_bit(offset);
    let k2 = b.bool_bit(other);
    if k / 8 == k2 / 8 {
        assert(k % 8 != k2 % 8);
        lemma_with_bit(s[b.data + k / 8], k % 8, value, k2 % 8);
    }
}

/// Every data field of a struct whose data section is all zero reads zero,
/// and every bool field reads false: the default state that initializing a
/// struct leaves it in.
pub proof fn lemma_zero_struct_fields<T: DataValue>(
    b: StructBuilder,
    segs: Seq<Seq<u8>>,
    offset: nat,
    bool_offset: nat,
)
    requires
        b.segment < segs.len(),
        b.data * 8 + b.bit0offset + b.data_size <= 8 * segs[b.segment as int].len(),
        forall|j: int|
            b.data <= j < b.data + (b.bit0offset + b.data_size + 7) / 8 ==> #[trigger] segs[b.segment as int][j]
                == 0,
    ensures
        b.data_field_fits::<T>(offset) ==> b.spec_data_field::<T>(segs, offset) == T::spec_zero(),
        b.bool_field_fits(bool_offset) ==> !b.spec_bool_field(segs, bool_offset),
{
    let s = segs[b.segment as int];
    if b.data_field_fits::<T>(offset) {
        let w = T::byte_width();
        assert((offset + 1) * (8 * w) == 8 * (offset * w + w)) by (nonlinear_arith);
        let sub = s.subrange(b.data_field_pos::<T>(offset), b.data_field_pos::<T>(offset) + w);
        assert forall|i: int| 0 <= i < sub.len() implies sub[i] == 0 by {
            assert(s[b.data_field_pos::<T>(offset) + i] == 0);
        }
        lemma_le_value_zero(sub);
        T::lemma_zero_bits();
    }
    if b.bool_field_fits(bool_offset) {
        let k = b.bool_bit(bool_offset);
        assert(s[b.data + k / 8] == 0);
        assert(bit_of(0u8, k % 8) == false) by {
            let kk = (k % 8) as u8;
            assert(0u8 & (1u8 << kk) == 0) by (bit_vector);
        }
    }
}

/// Every pointer of a struct whose pointer section is all zero is null.
pub proof fn lemma_zero_struct_pointers(b: StructBuilder, segs: Seq<Seq<u8>>, ptr_index: nat)
    requires
        b.segment < segs.len(),
        ptr_index < b.pointer_count,
        b.pointers + 8 * b.pointer_count <= segs[b.segment as int].len(),
        forall|j: int|
            b.pointers <= j < b.pointers + 8 * b.pointer_count ==> #[trigger] segs[b.segment as int][j]
                == 0,
    ensures
        wire_pointer_at(segs[b.segment as int], b.pointer_pos(ptr_index)).spec_is_null(),
{
    let s = segs[b.segment as int];
    let p = b.pointer_pos(ptr_index);
    let lo = s.subrange(p, p + 4);
    let hi = s.subrange(p + 4, p + 8);
    assert forall|i: int| 0 <= i < lo.len() implies lo[i] == 0 by {
        assert(s[p + i] == 0);
    }
    assert forall|i: int| 0 <= i < hi.len() implies hi[i] == 0 by {
        assert(s[p + 4 + i] == 0);
    }
    lemma_le_value_zero(lo);
    lemma_le_value_zero(hi);
}

/// Every element of a list whose elements are all zero reads zero.
pub proof fn lemma_zero_list_elements<T: DataValue>(
    s: Seq<u8>,
    ptr: nat,
    step: nat,
    index: nat,
    extent: nat,
)
    requires
        ptr * 8 + index * step + 8 * T::byte_width() <= 8 * (ptr + extent),
        ptr + extent <= s.len(),
        forall|j: int| ptr <= j < ptr + extent ==> #[trigger] s[j] == 0,
    ensures
        value_get::<T>(s, ptr, step, index) == T::spec_zero(),
{
    let pos = ptr + index * step / 8;
    assert((index * step / 8) * 8 <= index * step) by (nonlinear_arith);
    let sub = s.subrange(pos as int, (pos + T::byte_width()) as int);
    assert forall|i: int| 0 <= i < sub.len() implies sub[i] == 0 by {
        assert(s[pos + i] == 0);
    }
    lemma_le_value_zero(sub);
    T::lemma_zero_bits();
}

/// Writing an element of a list and reading the same element back, through
/// the builder or through a reader over the same list, gives the value
/// written.
pub proof fn lemma_list_element_roundtrip<T: PrimitiveElement>(
    l: ListBuilder,
    arena: BuilderArena,
    index: nat,
    value: T,
    nesting_limit: int,
)
    requires
        arena.wf(),
        l.wf(arena),
        index < l.element_count,
        T::set_fits(l, index),
        T::same_place(l.step as nat),
        T::read_bits() <= l.struct_data_size + 64 * l.struct_pointer_count,
        l.step >= 1,
    ensures
        ({
            let s = arena@[l.segment as int];
            let after = T::spec_set(s, l.ptr as nat, l.step as nat, index, value);
            let r = l.spec_as_reader(nesting_limit);
            &&& T::spec_get(after, l.ptr as nat, l.step as nat, index) == value
            &&& T::spec_get(after, r.ptr as nat, r.step as nat, index) == value
        }),
{
    let s = arena@[l.segment as int];
    crate::reader::lemma_element_position(index as int, l.element_count as int, l.step as int);
    assert(segment_wf(s, arena.used@[l.segment as int] as nat));
    assert(index <= index * l.step) by (nonlinear_arith)
        requires
            l.step >= 1,
    ;
    T::lemma_get_after_set(s, l.ptr as nat, l.step as nat, index, value);
}


/// Allocating an object for a pointer keeps every data field of every
/// struct already built, other than fields that overlap the pointer itself
/// or what the pointer reached before (its old object, landing pads, and
/// what their pointers led to); over a null pointer, that is every field
/// but those overlapping the pointer.
pub proof fn lemma_allocation_keeps_fields<T: DataValue>(
    b: StructBuilder,
    before: BuilderArena,
    after: Seq<Seq<u8>>,
    s0: int,
    p0: int,
    offset: nat,
)
    requires
        before.wf(),
        b.wf(before),
        b.data_field_fits::<T>(offset),
        kept_but_old_object(before, after, s0, p0),
        b.segment < after.len(),
        after[b.segment as int].len() == before@[b.segment as int].len(),
        b.segment != s0 || b.data_field_pos::<T>(offset) + T::byte_width() <= p0 || p0 + 8
            <= b.data_field_pos::<T>(offset),
        forall|j: int|
            b.data_field_pos::<T>(offset) <= j < b.data_field_pos::<T>(offset) + T::byte_width()
                ==> !#[trigger] in_value(
                before@,
                s0,
                p0,
                wire_pointer_at(before@[s0], p0),
                arena_nonzero(before@),
                b.segment as int,
                j,
            ),
    ensures
        b.spec_data_field::<T>(after, offset) == b.spec_data_field::<T>(before@, offset),
{
    let w = T::byte_width();
    let pos = b.data_field_pos::<T>(offset);
    T::lemma_width();
    assert((offset + 1) * (8 * w) == 8 * (offset * w + w)) by (nonlinear_arith);
    assert(b.data_size > 0);
    assert(segment_wf(before@[b.segment as int], before.used@[b.segment as int] as nat));
    assert forall|j: int| pos <= j < pos + w implies #[trigger] after[b.segment as int][j]
        == before@[b.segment as int][j] by {
        assert(j < 8 * before.used@[b.segment as int]);
    }
    lemma_read_le_same(after[b.segment as int], before@[b.segment as int], pos, w);
}

/// A null pointer reaches nothing, so allocating over it keeps every byte
/// that was allocated other than the pointer itself.
pub proof fn lemma_allocation_over_null_keeps_all(
    before: BuilderArena,
    after: Seq<Seq<u8>>,
    s0: int,
    p0: int,
    i: int,
    j: int,
)
    requires
        kept_but_old_object(before, after, s0, p0),
        wire_pointer_at(before@[s0], p0).spec_is_null(),
        0 <= i < before@.len(),
        0 <= j < 8 * before.used@[i],
        !(i == s0 && p0 <= j < p0 + 8),
    ensures
        after[i][j] == before@[i][j],
{
    lemma_in_value_null(before@, s0, p0, wire_pointer_at(before@[s0], p0), arena_nonzero(before@), i, j);
}

/// An element of a list read as a list of fixed-width values is the first
/// data field of the same element read as a struct; so a list of structs can
/// stand in for a list of values without branching.
pub proof fn lemma_list_element_is_first_field<T: DataValue>(
    l: ListReader,
    segs: Seq<Seq<u8>>,
    index: nat,
)
    requires
        8 * T::byte_width() <= l.struct_data_size,
        l.ptr + index * l.step / 8 <= usize::MAX,
    ensures
        value_get::<T>(segs[l.segment as int], l.ptr as nat, l.step as nat, index)
            == l.spec_struct_element(index).spec_data_field::<T>(segs, 0),
{
    let w = T::byte_width();
    let e = l.spec_struct_element(index);
    assert((0 + 1) * (8 * w) == 8 * w) by (nonlinear_arith);
    assert(0 * w == 0) by (nonlinear_arith);
    assert(e.data + 0 * w == l.ptr + index * l.step / 8);
}

/// An element of a list read as a list of bits is bool field 0 of the same
/// element read as a struct.
pub proof fn lemma_list_bit_is_first_bool_field(l: ListReader, segs: Seq<Seq<u8>>, index: nat)
    requires
        l.struct_data_size > 0,
        l.ptr + index * l.step / 8 <= usize::MAX,
    ensures
        <bool as PrimitiveElement>::spec_get(
            segs[l.segment as int],
            l.ptr as nat,
            l.step as nat,
            index,
        ) == l.spec_struct_element(index).spec_bool_field(segs, 0),
{
    let x = index * l.step;
    assert((l.ptr * 8 + x) / 8 == l.ptr + x / 8);
    assert((l.ptr * 8 + x) % 8 == x % 8);
}


/// Bits of data and pointers in one element of a list whose element-size
/// code (the low three bits of the pointer's upper half) is `c`, for the
/// codes below 7: nothing, a bit, one, two, four or eight bytes, a pointer.
pub open spec fn element_layout(c: nat) -> (nat, nat) {
    if c == 0 {
        (0, 0)
    } else if c == 1 {
        (1, 0)
    } else if c == 2 {
        (8, 0)
    } else if c == 3 {
        (16, 0)
    } else if c == 4 {
        (32, 0)
    } else if c == 5 {
        (64, 0)
    } else {
        (0, 1)
    }
}

/// A list pointer that is not inline-composite is read with its own element
/// size to the list of its elements, or refused only because its elements
/// run past the segment; and reading it as a list of structs
/// (`INLINE_COMPOSITE`) or of `VOID`, which ask each element for no data
/// and no pointers, gives that same list.
pub proof fn lemma_any_list_reads_as_struct_list(
    segs: Seq<Seq<u8>>,
    tag: WirePointer,
    s: int,
    t: int,
    n: int,
)
    requires
        tag.spec_kind() == WirePointerKind::WP_LIST,
        tag.upper32bits % 8 != 7,
        0 <= s <= usize::MAX,
        0 <= t <= usize::MAX,
        0 < n <= i32::MAX,
    ensures
        ({
            let own = tag.spec_list_ref().spec_element_size();
            let count = tag.upper32bits / 8;
            let (bits, ptrs) = element_layout((tag.upper32bits % 8) as nat);
            let step = bits + 64 * ptrs;
            let r = spec_list_from_tag(segs, tag, s, t, own, n);
            &&& r is Ok <==> t + 8 * ((count * step + 63) / 64) <= segs[s].len()
            &&& r is Err ==> r == Err::<ListReader, ReadError>(ReadError::OutOfBounds)
            &&& r matches Ok(l) ==> {
                &&& l.segment == s
                &&& l.ptr == t
                &&& l.element_count == count
                &&& l.step == step
                &&& l.struct_data_size == bits
                &&& l.struct_pointer_count == ptrs
                &&& l.nesting_limit == n - 1
            }
            &&& spec_list_from_tag(segs, tag, s, t, FieldSize::INLINE_COMPOSITE, n) == r
            &&& spec_list_from_tag(segs, tag, s, t, FieldSize::VOID, n) == r
        }),
{
    let c = tag.upper32bits % 8;
    let count = tag.upper32bits / 8;
    assert(count * 64 <= 0x2000_0000 * 64);
    assert(0 <= count * 64);
    assert(count * 0 == 0);
    assert(count * 1 == count);
}

/// A struct pointer that is not null is read to the struct that the tag it
/// leads to describes: its data section (as many words as the low half of
/// the tag's upper word says) starts where the pointer leads, its pointer
/// section (as many pointers as the high half says) right after; reading
/// fails with `OutOfBounds` exactly where the two run past the segment.
pub proof fn lemma_struct_read_layout(segs: Seq<Seq<u8>>, seg: int, reff: usize, n: int)
    requires
        0 <= seg < segs.len(),
        segs.len() <= usize::MAX,
        reff + 8 <= segs[seg].len(),
        forall|i: int| 0 <= i < segs.len() ==> #[trigger] segs[i].len() <= usize::MAX,
        !wire_pointer_at(segs[seg], reff as int).spec_is_null(),
        0 < n <= i32::MAX,
        spec_follow_fars(
            segs,
            wire_pointer_at(segs[seg], reff as int),
            wire_pointer_at(segs[seg], reff as int).spec_target(reff as int),
            seg,
        ) is Ok,
    ensures
        ({
            let p = wire_pointer_at(segs[seg], reff as int);
            let (tag, s, t) = spec_follow_fars(segs, p, p.spec_target(reff as int), seg)->Ok_0;
            let data = tag.upper32bits % 0x1_0000;
            let ptrs = tag.upper32bits / 0x1_0000;
            let r = spec_read_struct_pointer(segs, seg, Some(reff), n);
            &&& r is Ok <==> t + 8 * (data + ptrs) <= segs[s].len()
            &&& r is Err ==> r == Err::<StructReader, ReadError>(ReadError::OutOfBounds)
            &&& r matches Ok(sr) ==> {
                &&& sr.segment == s
                &&& sr.data == t
                &&& sr.pointers == t + 8 * data
                &&& sr.data_size == 64 * data
                &&& sr.pointer_count == ptrs
                &&& sr.bit0offset == 0
                &&& sr.nesting_limit == n - 1
            }
        }),
{
    let p = wire_pointer_at(segs[seg], reff as int);
    let (tag, s, t) = spec_follow_fars(segs, p, p.spec_target(reff as int), seg)->Ok_0;
    if p.spec_kind() == WirePointerKind::WP_FAR {
        assert(0 <= s < segs.len());
    } else {
        assert(s == seg);
    }
    assert(segs[s].len() <= usize::MAX);
}

/// An inline-composite list is read to the elements that follow its element
/// tag: as many as the tag's offset field counts, each as wide as the data
/// and pointer sections the tag gives, all within the segment. Read as a list
/// of structs, of `VOID` or of values it starts at the first element; read as
/// a list of pointers, at the first element's pointer section, and only
/// where the elements have a pointer; read as a list of values, only where
/// they have data; it is never a list of bits.
pub proof fn lemma_composite_list_layout(
    segs: Seq<Seq<u8>>,
    tag: WirePointer,
    s: int,
    t: int,
    e: FieldSize,
    n: int,
)
    requires
        tag.upper32bits % 8 == 7,
        0 <= s <= usize::MAX,
        0 <= t,
        t + 0x10_0000 <= usize::MAX,
        0 < n <= i32::MAX,
        spec_list_from_tag(segs, tag, s, t, e, n) is Ok,
    ensures
        ({
            let l = spec_list_from_tag(segs, tag, s, t, e, n)->Ok_0;
            let etag = wire_pointer_at(segs[s], t);
            let data = etag.upper32bits % 0x1_0000;
            let ptrs = etag.upper32bits / 0x1_0000;
            let count = etag.offset_and_kind / 4;
            &&& tag.spec_kind() == WirePointerKind::WP_LIST
            &&& etag.offset_and_kind % 4 == 0
            &&& t + 8 + 8 * (count * (data + ptrs)) <= segs[s].len()
            &&& l.segment == s
            &&& l.element_count == count
            &&& l.step == 64 * (data + ptrs)
            &&& l.struct_data_size == 64 * data
            &&& l.struct_pointer_count == ptrs
            &&& l.nesting_limit == n - 1
            &&& l.ptr == if e == FieldSize::POINTER {
                t + 8 + 8 * data
            } else {
                t + 8
            }
            &&& e != FieldSize::BIT
            &&& e == FieldSize::POINTER ==> ptrs > 0
            &&& spec_data_bits_per_element(e) > 0 ==> data > 0
        }),
{
    let etag = wire_pointer_at(segs[s], t);
    let data = etag.upper32bits % 0x1_0000;
    let ptrs = etag.upper32bits / 0x1_0000;
    let count = etag.offset_and_kind / 4;
    assert(count * (data + ptrs) == etag.offset_words() * etag.spec_struct_ref().spec_word_size());
    assert(count * (data + ptrs) <= (tag.upper32bits / 8));
}

/// Reading a list that is not inline-composite asks each element for the
/// data bits and pointers of the expected element size: where reading with
/// one expected size succeeds, reading with any size that asks for no more
/// data bits and no more pointers gives the same list.
pub proof fn lemma_list_expecting_less(
    segs: Seq<Seq<u8>>,
    tag: WirePointer,
    s: int,
    t: int,
    e1: FieldSize,
    e2: FieldSize,
    n: int,
)
    requires
        tag.upper32bits % 8 != 7,
        spec_data_bits_per_element(e1) <= spec_data_bits_per_element(e2),
        spec_pointers_per_element(e1) <= spec_pointers_per_element(e2),
        spec_list_from_tag(segs, tag, s, t, e2, n) is Ok,
    ensures
        spec_list_from_tag(segs, tag, s, t, e1, n) == spec_list_from_tag(segs, tag, s, t, e2, n),
{
}

/// Following a far pointer: its landing pad is at word `offset_and_kind / 8`
/// of segment `upper32bits`. A single pad is the pointer to the object, whose
/// target is the object; a double pad is a far pointer to the object's first
/// word (word `offset_and_kind / 8` of the pad's segment `upper32bits`),
/// followed by the tag that describes the object. Any other pointer leads to
/// its own target.
pub proof fn lemma_follow_fars_positions(
    segs: Seq<Seq<u8>>,
    reff: WirePointer,
    target: int,
    seg: int,
)
    requires
        spec_follow_fars(segs, reff, target, seg) is Ok,
    ensures
        ({
            let (tag, s, t) = spec_follow_fars(segs, reff, target, seg)->Ok_0;
            let id = reff.upper32bits as int;
            let pad_pos = 8 * (reff.offset_and_kind / 8);
            let pad = wire_pointer_at(segs[id], pad_pos);
            if reff.offset_and_kind % 4 != 2 {
                tag == reff && s == seg && t == target
            } else if (reff.offset_and_kind / 4) % 2 == 0 {
                &&& tag == pad
                &&& s == id
                &&& t == pad_pos + 8 + 8 * (pad.offset_and_kind / 4)
            } else {
                &&& tag == wire_pointer_at(segs[id], pad_pos + 8)
                &&& s == pad.upper32bits
                &&& t == 8 * (pad.offset_and_kind / 8)
            }
        }),
{
}


/// The wire encoding of a `u8` is the value itself, in 8 bits; and every
/// 8-bit pattern decodes to the number it is.
pub proof fn lemma_u8_encoding(v: u8, b: nat)
    requires
        b < 0x100,
    ensures
        <u8 as DataValue>::spec_to_bits(v) == v as int,
        <u8 as DataValue>::spec_from_bits(b) as int == b,
{
}

/// Masking a `u8` flips exactly the bits that are set in the mask: the bits
/// outside the mask keep their value and those inside are inverted. So
/// masking twice with the same mask gives the value back, masking a value
/// with itself gives zero, and the zero mask changes nothing.
pub proof fn lemma_u8_mask(x: u8, m: u8)
    ensures
        <u8 as DataValue>::spec_mask(x, m) & !m == x & !m,
        <u8 as DataValue>::spec_mask(x, m) & m == !x & m,
        <u8 as DataValue>::spec_mask(<u8 as DataValue>::spec_mask(x, m), m) == x,
        <u8 as DataValue>::spec_mask(m, m) == 0,
        <u8 as DataValue>::spec_mask(x, 0) == x,
{
    assert(((x ^ m) & !m == x & !m) && ((x ^ m) & m == !x & m) && ((x ^ m) ^ m == x) && (m ^ m == 0)
        && (x ^ 0 == x)) by (bit_vector);
}

/// The wire encoding of a `u16` is the value itself, in 16 bits; and every
/// 16-bit pattern decodes to the number it is.
pub proof fn lemma_u16_encoding(v: u16, b: nat)
    requires
        b < 0x10000,
    ensures
        <u16 as DataValue>::spec_to_bits(v) == v as int,
        <u16 as DataValue>::spec_from_bits(b) as int == b,
{
}

/// Masking a `u16` flips exactly the bits that are set in the mask: the bits
/// outside the mask keep their value and those inside are inverted. So
/// masking twice with the same mask gives the value back, masking a value
/// with itself gives zero, and the zero mask changes nothing.
pub proof fn lemma_u16_mask(x: u16, m: u16)
    ensures
        <u16 as DataValue>::spec_mask(x, m) & !m == x & !m,
        <u16 as DataValue>::spec_mask(x, m) & m == !x & m,
        <u16 as DataValue>::spec_mask(<u16 as DataValue>::spec_mask(x, m), m) == x,
        <u16 as DataValue>::spec_mask(m, m) == 0,
        <u16 as DataValue>::spec_mask(x, 0) == x,
{
    assert(((x ^ m) & !m == x & !m) && ((x ^ m) & m == !x & m) && ((x ^ m) ^ m == x) && (m ^ m == 0)
        && (x ^ 0 == x)) by (bit_vector);
}

/// The wire encoding of a `u32` is the value itself, in 32 bits; and every
/// 32-bit pattern decodes to the number it is.
pub proof fn lemma_u32_encoding(v: u32, b: nat)
    requires
        b < 0x100000000,
    ensures
        <u32 as DataValue>::spec_to_bits(v) == v as int,
        <u32 as DataValue>::spec_from_bits(b) as int == b,
{
}

/// Masking a `u32` flips exactly the bits that are set in the mask: the bits
/// outside the mask keep their value and those inside are inverted. So
/// masking twice with the same mask gives the value back, masking a value
/// with itself gives zero, and the zero mask changes nothing.
pub proof fn lemma_u32_mask(x: u32, m: u32)
    ensures
        <u32 as DataValue>::spec_mask(x, m) & !m == x & !m,
        <u32 as DataValue>::spec_mask(x, m) & m == !x & m,
        <u32 as DataValue>::spec_mask(<u32 as DataValue>::spec_mask(x, m), m) == x,
        <u32 as DataValue>::spec_mask(m, m) == 0,
        <u32 as DataValue>::spec_mask(x, 0) == x,
{
    assert(((x ^ m) & !m == x & !m) && ((x ^ m) & m == !x & m) && ((x ^ m) ^ m == x) && (m ^ m == 0)
        && (x ^ 0 == x)) by (bit_vector);
}

/// The wire encoding of a `u64` is the value itself, in 64 bits; and every
/// 64-bit pattern decodes to the number it is.
pub proof fn lemma_u64_encoding(v: u64, b: nat)
    requires
        b < 0x10000000000000000,
    ensures
        <u64 as DataValue>::spec_to_bits(v) == v as int,
        <u64 as DataValue>::spec_from_bits(b) as int == b,
{
}

/// Masking a `u64` flips exactly the bits that are set in the mask: the bits
/// outside the mask keep their value and those inside are inverted. So
/// masking twice with the same mask gives the value back, masking a value
/// with itself gives zero, and the zero mask changes nothing.
pub proof fn lemma_u64_mask(x: u64, m: u64)
    ensures
        <u64 as DataValue>::spec_mask(x, m) & !m == x & !m,
        <u64 as DataValue>::spec_mask(x, m) & m == !x & m,
        <u64 as DataValue>::spec_mask(<u64 as DataValue>::spec_mask(x, m), m) == x,
        <u64 as DataValue>::spec_mask(m, m) == 0,
        <u64 as DataValue>::spec_mask(x, 0) == x,
{
    assert(((x ^ m) & !m == x & !m) && ((x ^ m) & m == !x & m) && ((x ^ m) ^ m == x) && (m ^ m == 0)
        && (x ^ 0 == x)) by (bit_vector);
}

/// The wire encoding of an `i8` is its two's complement in 8 bits: a value
/// that is not negative is its own encoding, a negative one is encoded as
/// itself plus 2^8; and every 8-bit pattern decodes to the value it encodes.
pub proof fn lemma_i8_encoding(v: i8, b: nat)
    requires
        b < 0x100,
    ensures
        <i8 as DataValue>::spec_to_bits(v) == if v >= 0 {
            v as int
        } else {
            v + 0x100
        },
        <i8 as DataValue>::spec_from_bits(b) as int == if b < 0x80 {
            b as int
        } else {
            b - 0x100
        },
{
    assert(v < 0 ==> (v as u8) as i16 == (v as i16) + 0x100i16) by (bit_vector);
    assert(v >= 0 ==> (v as u8) as i16 == v as i16) by (bit_vector);
    let c = b as u8;
    assert(c as nat == b);
    assert(c < 0x80u8 ==> (c as i8) as i16 == c as i16) by (bit_vector);
    assert(c >= 0x80u8 ==> (c as i8) as i16 == (c as i16) - 0x100i16) by (bit_vector);
}

/// Masking a `i8` flips exactly the bits that are set in the mask: the bits
/// outside the mask keep their value and those inside are inverted. So
/// masking twice with the same mask gives the value back, masking a value
/// with itself gives zero, and the zero mask changes nothing.
pub proof fn lemma_i8_mask(x: i8, m: i8)
    ensures
        <i8 as DataValue>::spec_mask(x, m) & !m == x & !m,
        <i8 as DataValue>::spec_mask(x, m) & m == !x & m,
        <i8 as DataValue>::spec_mask(<i8 as DataValue>::spec_mask(x, m), m) == x,
        <i8 as DataValue>::spec_mask(m, m) == 0,
        <i8 as DataValue>::spec_mask(x, 0) == x,
{
    assert(((x ^ m) & !m == x & !m) && ((x ^ m) & m == !x & m) && ((x ^ m) ^ m == x) && (m ^ m == 0)
        && (x ^ 0 == x)) by (bit_vector);
}

/// The wire encoding of an `i16` is its two's complement in 16 bits: a value
/// that is not negative is its own encoding, a negative one is encoded as
/// itself plus 2^16; and every 16-bit pattern decodes to the value it encodes.
pub proof fn lemma_i16_encoding(v: i16, b: nat)
    requires
        b < 0x10000,
    ensures
        <i16 as DataValue>::spec_to_bits(v) == if v >= 0 {
            v as int
        } else {
            v + 0x10000
        },
        <i16 as DataValue>::spec_from_bits(b) as int == if b < 0x8000 {
            b as int
        } else {
            b - 0x10000
        },
{
    assert(v < 0 ==> (v as u16) as i32 == (v as i32) + 0x10000i32) by (bit_vector);
    assert(v >= 0 ==> (v as u16) as i32 == v as i32) by (bit_vector);
    let c = b as u16;
    assert(c as nat == b);
    assert(c < 0x8000u16 ==> (c as i16) as i32 == c as i32) by (bit_vector);
    assert(c >= 0x8000u16 ==> (c as i16) as i32 == (c as i32) - 0x10000i32) by (bit_vector);
}

/// Masking a `i16` flips exactly the bits that are set in the mask: the bits
/// outside the mask keep their value and those inside are inverted. So
/// masking twice with the same mask gives the value back, masking a value
/// with itself gives zero, and the zero mask changes nothing.
pub proof fn lemma_i16_mask(x: i16, m: i16)
    ensures
        <i16 as DataValue>::spec_mask(x, m) & !m == x & !m,
        <i16 as DataValue>::spec_mask(x, m) & m == !x & m,
        <i16 as DataValue>::spec_mask(<i16 as DataValue>::spec_mask(x, m), m) == x,
        <i16 as DataValue>::spec_mask(m, m) == 0,
        <i16 as DataValue>::spec_mask(x, 0) == x,
{
    assert(((x ^ m) & !m == x & !m) && ((x ^ m) & m == !x & m) && ((x ^ m) ^ m == x) && (m ^ m == 0)
        && (x ^ 0 == x)) by (bit_vector);
}

/// The wire encoding of an `i32` is its two's complement in 32 bits: a value
/// that is not negative is its own encoding, a negative one is encoded as
/// itself plus 2^32; and every 32-bit pattern decodes to the value it encodes.
pub proof fn lemma_i32_encoding(v: i32, b: nat)
    requires
        b < 0x100000000,
    ensures
        <i32 as DataValue>::spec_to_bits(v) == if v >= 0 {
            v as int
        } else {
            v + 0x100000000
        },
        <i32 as DataValue>::spec_from_bits(b) as int == if b < 0x80000000 {
            b as int
        } else {
            b - 0x100000000
        },
{
    assert(v < 0 ==> (v as u32) as i64 == (v as i64) + 0x100000000i64) by (bit_vector);
    assert(v >= 0 ==> (v as u32) as i64 == v as i64) by (bit_vector);
    let c = b as u32;
    assert(c as nat == b);
    assert(c < 0x80000000u32 ==> (c as i32) as i64 == c as i64) by (bit_vector);
    assert(c >= 0x80000000u32 ==> (c as i32) as i64 == (c as i64) - 0x100000000i64) by (bit_vector);
}

/// Masking a `i32` flips exactly the bits that are set in the mask: the bits
/// outside the mask keep their value and those inside are inverted. So
/// masking twice with the same mask gives the value back, masking a value
/// with itself gives zero, and the zero mask changes nothing.
pub proof fn lemma_i32_mask(x: i32, m: i32)
    ensures
        <i32 as DataValue>::spec_mask(x, m) & !m == x & !m,
        <i32 as DataValue>::spec_mask(x, m) & m == !x & m,
        <i32 as DataValue>::spec_mask(<i32 as DataValue>::spec_mask(x, m), m) == x,
        <i32 as DataValue>::spec_mask(m, m) == 0,
        <i32 as DataValue>::spec_mask(x, 0) == x,
{
    assert(((x ^ m) & !m == x & !m) && ((x ^ m) & m == !x & m) && ((x ^ m) ^ m == x) && (m ^ m == 0)
        && (x ^ 0 == x)) by (bit_vector);
}

/// The wire encoding of an `i64` is its two's complement in 64 bits: a value
/// that is not negative is its own encoding, a negative one is encoded as
/// itself plus 2^64; and every 64-bit pattern decodes to the value it encodes.
pub proof fn lemma_i64_encoding(v: i64, b: nat)
    requires
        b < 0x10000000000000000,
    ensures
        <i64 as DataValue>::spec_to_bits(v) == if v >= 0 {
            v as int
        } else {
            v + 0x10000000000000000
        },
        <i64 as DataValue>::spec_from_bits(b) as int == if b < 0x8000000000000000 {
            b as int
        } else {
            b - 0x10000000000000000
        },
{
    assert(v < 0 ==> (v as u64) as i128 == (v as i128) + 0x10000000000000000i128) by (bit_vector);
    assert(v >= 0 ==> (v as u64) as i128 == v as i128) by (bit_vector);
    let c = b as u64;
    assert(c as nat == b);
    assert(c < 0x8000000000000000u64 ==> (c as i64) as i128 == c as i128) by (bit_vector);
    assert(c >= 0x8000000000000000u64 ==> (c as i64) as i128 == (c as i128) - 0x10000000000000000i128) by (bit_vector);
}

/// Masking a `i64` flips exactly the bits that are set in the mask: the bits
/// outside the mask keep their value and those inside are inverted. So
/// masking twice with the same mask gives the value back, masking a value
/// with itself gives zero, and the zero mask changes nothing.
pub proof fn lemma_i64_mask(x: i64, m: i64)
    ensures
        <i64 as DataValue>::spec_mask(x, m) & !m == x & !m,
        <i64 as DataValue>::spec_mask(x, m) & m == !x & m,
        <i64 as DataValue>::spec_mask(<i64 as DataValue>::spec_mask(x, m), m) == x,
        <i64 as DataValue>::spec_mask(m, m) == 0,
        <i64 as DataValue>::spec_mask(x, 0) == x,
{
    assert(((x ^ m) & !m == x & !m) && ((x ^ m) & m == !x & m) && ((x ^ m) ^ m == x) && (m ^ m == 0)
        && (x ^ 0 == x)) by (bit_vector);
}
} // verus!
