//! Fixed-width values stored in data sections and primitive lists.
use vstd::prelude::*;
use crate::le::{pow256, read_le, write_le, lemma_write_le, lemma_le_value_bound};
use crate::arena::{ReaderArena, BuilderArena, segment_wf};
use crate::reader::{ListReader, bit_of, lemma_element_position};
use crate::builder::{ListBuilder, with_bit, lemma_with_bit};

verus! {

/// A fixed-width integer as it is stored on the wire: `byte_width` bytes,
/// little-endian.
pub trait DataValue: Sized + Copy {
    /// Number of bytes the value occupies.
    spec fn byte_width() -> nat;

    /// The value whose encoding, read as an unsigned number, is `bits`.
    spec fn spec_from_bits(bits: nat) -> Self;

    /// The encoding of the value, read as an unsigned number.
    spec fn spec_to_bits(self) -> nat;

    /// The zero value.
    spec fn spec_zero() -> Self;

    /// The value with the bits of `mask` flipped.
    spec fn spec_mask(self, mask: Self) -> Self;

    fn width() -> (w: usize)
        ensures
            w == Self::byte_width(),
            w == 1 || w == 2 || w == 4 || w == 8,
    ;

    fn from_bits(bits: u64) -> (v: Self)
        requires
            bits < pow256(Self::byte_width()),
        ensures
            v == Self::spec_from_bits(bits as nat),
    ;

    fn to_bits(&self) -> (b: u64)
        ensures
            b == self.spec_to_bits(),
    ;

    fn zero() -> (v: Self)
        ensures
            v == Self::spec_zero(),
    ;

    /// Flips the bits of the value that are set in `mask`.
    fn mask(&self, mask: Self) -> (v: Self)
        ensures
            v == self.spec_mask(mask),
    ;

    /// The encoding fits the width and decodes to the value.
    proof fn lemma_bits_roundtrip(v: Self)
        ensures
            v.spec_to_bits() < pow256(Self::byte_width()),
            Self::spec_from_bits(v.spec_to_bits()) == v,
    ;

    /// Zero bytes decode to zero.
    proof fn lemma_zero_bits()
        ensures
            Self::spec_from_bits(0) == Self::spec_zero(),
    ;

    /// The width is one of the four the wire format knows.
    proof fn lemma_width()
        ensures
            Self::byte_width() == 1 || Self::byte_width() == 2 || Self::byte_width() == 4
                || Self::byte_width() == 8,
    ;
}

impl DataValue for u8 {
    open spec fn byte_width() -> nat {
        1
    }

    open spec fn spec_from_bits(bits: nat) -> u8 {
        bits as u8
    }

    open spec fn spec_to_bits(self) -> nat {
        self as nat
    }

    open spec fn spec_zero() -> u8 {
        0
    }

    open spec fn spec_mask(self, mask: u8) -> u8 {
        self ^ mask
    }

    fn width() -> usize {
        1
    }

    fn from_bits(bits: u64) -> u8 {
        bits as u8
    }

    fn to_bits(&self) -> u64 {
        *self as u64
    }

    fn zero() -> u8 {
        0
    }

    fn mask(&self, mask: u8) -> u8 {
        *self ^ mask
    }

    proof fn lemma_bits_roundtrip(v: u8) {
        crate::le::lemma_pow256_values();
    }

    proof fn lemma_width() {
    }

    proof fn lemma_zero_bits() {
    }
}

impl DataValue for u16 {
    open spec fn byte_width() -> nat {
        2
    }

    open spec fn spec_from_bits(bits: nat) -> u16 {
        bits as u16
    }

    open spec fn spec_to_bits(self) -> nat {
        self as nat
    }

    open spec fn spec_zero() -> u16 {
        0
    }

    open spec fn spec_mask(self, mask: u16) -> u16 {
        self ^ mask
    }

    fn width() -> usize {
        2
    }

    fn from_bits(bits: u64) -> u16 {
        bits as u16
    }

    fn to_bits(&self) -> u64 {
        *self as u64
    }

    fn zero() -> u16 {
        0
    }

    fn mask(&self, mask: u16) -> u16 {
        *self ^ mask
    }

    proof fn lemma_bits_roundtrip(v: u16) {
        crate::le::lemma_pow256_values();
    }

    proof fn lemma_width() {
    }

    proof fn lemma_zero_bits() {
    }
}

impl DataValue for u32 {
    open spec fn byte_width() -> nat {
        4
    }

    open spec fn spec_from_bits(bits: nat) -> u32 {
        bits as u32
    }

    open spec fn spec_to_bits(self) -> nat {
        self as nat
    }

    open spec fn spec_zero() -> u32 {
        0
    }

    open spec fn spec_mask(self, mask: u32) -> u32 {
        self ^ mask
    }

    fn width() -> usize {
        4
    }

    fn from_bits(bits: u64) -> u32 {
        bits as u32
    }

    fn to_bits(&self) -> u64 {
        *self as u64
    }

    fn zero() -> u32 {
        0
    }

    fn mask(&self, mask: u32) -> u32 {
        *self ^ mask
    }

    proof fn lemma_bits_roundtrip(v: u32) {
        crate::le::lemma_pow256_values();
    }

    proof fn lemma_width() {
    }

    proof fn lemma_zero_bits() {
    }
}

impl DataValue for u64 {
    open spec fn byte_width() -> nat {
        8
    }

    open spec fn spec_from_bits(bits: nat) -> u64 {
        bits as u64
    }

    open spec fn spec_to_bits(self) -> nat {
        self as nat
    }

    open spec fn spec_zero() -> u64 {
        0
    }

    open spec fn spec_mask(self, mask: u64) -> u64 {
        self ^ mask
    }

    fn width() -> usize {
        8
    }

    fn from_bits(bits: u64) -> u64 {
        bits
    }

    fn to_bits(&self) -> u64 {
        *self
    }

    fn zero() -> u64 {
        0
    }

    fn mask(&self, mask: u64) -> u64 {
        *self ^ mask
    }

    proof fn lemma_bits_roundtrip(v: u64) {
        crate::le::lemma_pow256_values();
    }

    proof fn lemma_width() {
    }

    proof fn lemma_zero_bits() {
    }
}

impl DataValue for i8 {
    open spec fn byte_width() -> nat {
        1
    }

    open spec fn spec_from_bits(bits: nat) -> i8 {
        (bits as u8) as i8
    }

    open spec fn spec_to_bits(self) -> nat {
        (self as u8) as nat
    }

    open spec fn spec_zero() -> i8 {
        0
    }

    open spec fn spec_mask(self, mask: i8) -> i8 {
        self ^ mask
    }

    fn width() -> usize {
        1
    }

    fn from_bits(bits: u64) -> i8 {
        (bits as u8) as i8
    }

    fn to_bits(&self) -> u64 {
        (*self as u8) as u64
    }

    fn zero() -> i8 {
        0
    }

    fn mask(&self, mask: i8) -> i8 {
        *self ^ mask
    }

    proof fn lemma_bits_roundtrip(v: i8) {
        crate::le::lemma_pow256_values();
        assert(((v as u8) as i8) == v) by (bit_vector);
        assert((((v as u8) as nat) as u8) == (v as u8));
    }

    proof fn lemma_width() {
    }

    proof fn lemma_zero_bits() {
    }
}

impl DataValue for i16 {
    open spec fn byte_width() -> nat {
        2
    }

    open spec fn spec_from_bits(bits: nat) -> i16 {
        (bits as u16) as i16
    }

    open spec fn spec_to_bits(self) -> nat {
        (self as u16) as nat
    }

    open spec fn spec_zero() -> i16 {
        0
    }

    open spec fn spec_mask(self, mask: i16) -> i16 {
        self ^ mask
    }

    fn width() -> usize {
        2
    }

    fn from_bits(bits: u64) -> i16 {
        (bits as u16) as i16
    }

    fn to_bits(&self) -> u64 {
        (*self as u16) as u64
    }

    fn zero() -> i16 {
        0
    }

    fn mask(&self, mask: i16) -> i16 {
        *self ^ mask
    }

    proof fn lemma_bits_roundtrip(v: i16) {
        crate::le::lemma_pow256_values();
        assert(((v as u16) as i16) == v) by (bit_vector);
        assert((((v as u16) as nat) as u16) == (v as u16));
    }

    proof fn lemma_width() {
    }

    proof fn lemma_zero_bits() {
    }
}

impl DataValue for i32 {
    open spec fn byte_width() -> nat {
        4
    }

    open spec fn spec_from_bits(bits: nat) -> i32 {
        (bits as u32) as i32
    }

    open spec fn spec_to_bits(self) -> nat {
        (self as u32) as nat
    }

    open spec fn spec_zero() -> i32 {
        0
    }

    open spec fn spec_mask(self, mask: i32) -> i32 {
        self ^ mask
    }

    fn width() -> usize {
        4
    }

    fn from_bits(bits: u64) -> i32 {
        (bits as u32) as i32
    }

    fn to_bits(&self) -> u64 {
        (*self as u32) as u64
    }

    fn zero() -> i32 {
        0
    }

    fn mask(&self, mask: i32) -> i32 {
        *self ^ mask
    }

    proof fn lemma_bits_roundtrip(v: i32) {
        crate::le::lemma_pow256_values();
        assert(((v as u32) as i32) == v) by (bit_vector);
        assert((((v as u32) as nat) as u32) == (v as u32));
    }

    proof fn lemma_width() {
    }

    proof fn lemma_zero_bits() {
    }
}

impl DataValue for i64 {
    open spec fn byte_width() -> nat {
        8
    }

    open spec fn spec_from_bits(bits: nat) -> i64 {
        (bits as u64) as i64
    }

    open spec fn spec_to_bits(self) -> nat {
        (self as u64) as nat
    }

    open spec fn spec_zero() -> i64 {
        0
    }

    open spec fn spec_mask(self, mask: i64) -> i64 {
        self ^ mask
    }

    fn width() -> usize {
        8
    }

    fn from_bits(bits: u64) -> i64 {
        bits as i64
    }

    fn to_bits(&self) -> u64 {
        *self as u64
    }

    fn zero() -> i64 {
        0
    }

    fn mask(&self, mask: i64) -> i64 {
        *self ^ mask
    }

    proof fn lemma_bits_roundtrip(v: i64) {
        crate::le::lemma_pow256_values();
        assert(((v as u64) as i64) == v) by (bit_vector);
        assert((((v as u64) as nat) as u64) == (v as u64));
    }

    proof fn lemma_width() {
    }

    proof fn lemma_zero_bits() {
    }
}


/// A value that a list can hold as its elements: read and written by index.
pub trait PrimitiveElement: Sized {
    /// Bits, from an element's start, that reading an element covers.
    spec fn read_bits() -> nat;

    /// The element at `index` of a list whose first element starts at byte
    /// `ptr` of segment `s`, with elements `step` bits apart.
    spec fn spec_get(s: Seq<u8>, ptr: nat, step: nat, index: nat) -> Self;

    /// Where writing element `index` of the list `l` fits the list.
    spec fn set_fits(l: ListBuilder, index: nat) -> bool;

    /// Segment `s` after element `index` of such a list is set to `value`.
    spec fn spec_set(s: Seq<u8>, ptr: nat, step: nat, index: nat, value: Self) -> Seq<u8>;

    /// Whether writing and reading an element address the same bits, for
    /// elements `step` bits apart.
    spec fn same_place(step: nat) -> bool;

    /// Reads element `index`.
    fn get(list_reader: &ListReader, arena: &ReaderArena, index: usize) -> (v: Self)
        requires
            arena.wf(),
            index < list_reader.element_count,
            list_reader.elements_fit(arena@, Self::read_bits()),
        ensures
            v == Self::spec_get(
                arena@[list_reader.segment as int],
                list_reader.ptr as nat,
                list_reader.step as nat,
                index as nat,
            ),
    ;

    /// Reads element `index` of a list under construction.
    fn get_from_builder(list_builder: &ListBuilder, arena: &BuilderArena, index: usize) -> (v: Self)
        requires
            arena.wf(),
            list_builder.wf(*arena),
            index < list_builder.element_count,
            Self::read_bits() <= list_builder.struct_data_size + 64 * list_builder.struct_pointer_count,
        ensures
            v == Self::spec_get(
                arena@[list_builder.segment as int],
                list_builder.ptr as nat,
                list_builder.step as nat,
                index as nat,
            ),
    ;

    /// Writes `value` as element `index`.
    fn set(list_builder: &ListBuilder, arena: &mut BuilderArena, index: usize, value: Self)
        requires
            old(arena).wf(),
            list_builder.wf(*old(arena)),
            index < list_builder.element_count,
            Self::set_fits(*list_builder, index as nat),
        ensures
            final(arena).wf(),
            final(arena).used@ == old(arena).used@,
            final(arena).segment_words == old(arena).segment_words,
            final(arena)@ == old(arena)@.update(
                list_builder.segment as int,
                Self::spec_set(
                    old(arena)@[list_builder.segment as int],
                    list_builder.ptr as nat,
                    list_builder.step as nat,
                    index as nat,
                    value,
                ),
            ),
    ;

    /// Reading an element just written gives the value written.
    proof fn lemma_get_after_set(s: Seq<u8>, ptr: nat, step: nat, index: nat, value: Self)
        requires
            Self::same_place(step),
            ptr * 8 + index * step + Self::read_bits() <= 8 * s.len(),
        ensures
            Self::spec_get(Self::spec_set(s, ptr, step, index, value), ptr, step, index) == value,
    ;
}

/// The value of a fixed-width element.
pub open spec fn value_get<T: DataValue>(s: Seq<u8>, ptr: nat, step: nat, index: nat) -> T {
    T::spec_from_bits(read_le(s, (ptr + index * step / 8) as int, T::byte_width()))
}

/// Segment `s` after a fixed-width element is written.
pub open spec fn value_set<T: DataValue>(
    s: Seq<u8>,
    ptr: nat,
    step: nat,
    index: nat,
    value: T,
) -> Seq<u8> {
    write_le(s, (ptr + index * step / 8) as int, T::byte_width(), value.spec_to_bits())
}

/// The byte and bit of element `index` that a fixed-width element starts at.
proof fn lemma_value_position(ptr: nat, step: nat, index: nat, bits: nat, len: nat)
    requires
        ptr * 8 + index * step + bits <= 8 * len,
    ensures
        ptr + index * step / 8 + bits / 8 <= len,
{
    assert((index * step / 8) * 8 <= index * step) by (nonlinear_arith);
    assert((bits / 8) * 8 <= bits) by (nonlinear_arith);
}

fn value_get_reader<T: DataValue>(list_reader: &ListReader, arena: &ReaderArena, index: usize) -> (v: T)
    requires
        arena.wf(),
        index < list_reader.element_count,
        list_reader.elements_fit(arena@, 8 * T::byte_width()),
    ensures
        v == value_get::<T>(
            arena@[list_reader.segment as int],
            list_reader.ptr as nat,
            list_reader.step as nat,
            index as nat,
        ),
{
    let w = T::width();
    proof {
        lemma_element_position(index as int, list_reader.element_count as int, list_reader.step as int);
        lemma_value_position(list_reader.ptr as nat, list_reader.step as nat, index as nat, 8 * w as nat,
            arena@[list_reader.segment as int].len());
        assert(arena@[list_reader.segment as int] == arena.segments@[list_reader.segment as int]@);
        assert(arena@[list_reader.segment as int].len() < crate::arena::segment_byte_limit());
    }
    let bit: u64 = index as u64 * list_reader.step as u64;
    let pos = list_reader.ptr + (bit / 8) as usize;
    let bits = crate::le::load_le(&arena.segments[list_reader.segment], pos, w);
    proof {
        lemma_le_value_bound(arena@[list_reader.segment as int].subrange(pos as int, pos + w));
    }
    T::from_bits(bits)
}

fn value_get_builder<T: DataValue>(list_builder: &ListBuilder, arena: &BuilderArena, index: usize) -> (v: T)
    requires
        arena.wf(),
        list_builder.wf(*arena),
        index < list_builder.element_count,
        8 * T::byte_width() <= list_builder.struct_data_size + 64 * list_builder.struct_pointer_count,
    ensures
        v == value_get::<T>(
            arena@[list_builder.segment as int],
            list_builder.ptr as nat,
            list_builder.step as nat,
            index as nat,
        ),
{
    let w = T::width();
    proof {
        lemma_element_position(index as int, list_builder.element_count as int, list_builder.step as int);
        assert(segment_wf(arena@[list_builder.segment as int], arena.used@[list_builder.segment as int] as nat));
        lemma_value_position(list_builder.ptr as nat, list_builder.step as nat, index as nat, 8 * w as nat,
            arena@[list_builder.segment as int].len());
    }
    let bit: u64 = index as u64 * list_builder.step as u64;
    let pos = list_builder.ptr + (bit / 8) as usize;
    let bits = arena.load(list_builder.segment, pos, w);
    proof {
        lemma_le_value_bound(arena@[list_builder.segment as int].subrange(pos as int, pos + w));
    }
    T::from_bits(bits)
}

fn value_set_builder<T: DataValue>(
    list_builder: &ListBuilder,
    arena: &mut BuilderArena,
    index: usize,
    value: T,
)
    requires
        old(arena).wf(),
        list_builder.wf(*old(arena)),
        index < list_builder.element_count,
        8 * T::byte_width() <= list_builder.struct_data_size + 64 * list_builder.struct_pointer_count,
    ensures
        final(arena).wf(),
        final(arena).used@ == old(arena).used@,
        final(arena).segment_words == old(arena).segment_words,
        final(arena)@ == old(arena)@.update(
            list_builder.segment as int,
            value_set::<T>(
                old(arena)@[list_builder.segment as int],
                list_builder.ptr as nat,
                list_builder.step as nat,
                index as nat,
                value,
            ),
        ),
{
    let w = T::width();
    proof {
        lemma_element_position(index as int, list_builder.element_count as int, list_builder.step as int);
        assert(segment_wf(arena@[list_builder.segment as int], arena.used@[list_builder.segment as int] as nat));
        lemma_value_position(list_builder.ptr as nat, list_builder.step as nat, index as nat, 8 * w as nat,
            8 * arena.used@[list_builder.segment as int] as nat);
    }
    let bit: u64 = index as u64 * list_builder.step as u64;
    let pos = list_builder.ptr + (bit / 8) as usize;
    arena.store(list_builder.segment, pos, w, value.to_bits());
}

proof fn lemma_value_get_after_set<T: DataValue>(s: Seq<u8>, ptr: nat, step: nat, index: nat, value: T)
    requires
        ptr * 8 + index * step + 8 * T::byte_width() <= 8 * s.len(),
    ensures
        value_get::<T>(value_set::<T>(s, ptr, step, index, value), ptr, step, index) == value,
{
    lemma_value_position(ptr, step, index, 8 * T::byte_width(), s.len());
    T::lemma_bits_roundtrip(value);
    lemma_write_le(s, (ptr + index * step / 8) as int, T::byte_width(), value.spec_to_bits());
    vstd::arithmetic::div_mod::lemma_small_mod(value.spec_to_bits(), pow256(T::byte_width()));
}


impl PrimitiveElement for u8 {
    open spec fn read_bits() -> nat {
        8 * <u8 as DataValue>::byte_width()
    }

    open spec fn spec_get(s: Seq<u8>, ptr: nat, step: nat, index: nat) -> u8 {
        value_get::<u8>(s, ptr, step, index)
    }

    open spec fn set_fits(l: ListBuilder, index: nat) -> bool {
        8 * <u8 as DataValue>::byte_width() <= l.struct_data_size + 64 * l.struct_pointer_count
    }

    open spec fn spec_set(s: Seq<u8>, ptr: nat, step: nat, index: nat, value: u8) -> Seq<u8> {
        value_set::<u8>(s, ptr, step, index, value)
    }

    open spec fn same_place(step: nat) -> bool {
        true
    }

    fn get(list_reader: &ListReader, arena: &ReaderArena, index: usize) -> u8 {
        value_get_reader::<u8>(list_reader, arena, index)
    }

    fn get_from_builder(list_builder: &ListBuilder, arena: &BuilderArena, index: usize) -> u8 {
        value_get_builder::<u8>(list_builder, arena, index)
    }

    fn set(list_builder: &ListBuilder, arena: &mut BuilderArena, index: usize, value: u8) {
        value_set_builder::<u8>(list_builder, arena, index, value)
    }

    proof fn lemma_get_after_set(s: Seq<u8>, ptr: nat, step: nat, index: nat, value: u8) {
        lemma_value_get_after_set::<u8>(s, ptr, step, index, value);
    }
}

impl PrimitiveElement for u16 {
    open spec fn read_bits() -> nat {
        8 * <u16 as DataValue>::byte_width()
    }

    open spec fn spec_get(s: Seq<u8>, ptr: nat, step: nat, index: nat) -> u16 {
        value_get::<u16>(s, ptr, step, index)
    }

    open spec fn set_fits(l: ListBuilder, index: nat) -> bool {
        8 * <u16 as DataValue>::byte_width() <= l.struct_data_size + 64 * l.struct_pointer_count
    }

    open spec fn spec_set(s: Seq<u8>, ptr: nat, step: nat, index: nat, value: u16) -> Seq<u8> {
        value_set::<u16>(s, ptr, step, index, value)
    }

    open spec fn same_place(step: nat) -> bool {
        true
    }

    fn get(list_reader: &ListReader, arena: &ReaderArena, index: usize) -> u16 {
        value_get_reader::<u16>(list_reader, arena, index)
    }

    fn get_from_builder(list_builder: &ListBuilder, arena: &BuilderArena, index: usize) -> u16 {
        value_get_builder::<u16>(list_builder, arena, index)
    }

    fn set(list_builder: &ListBuilder, arena: &mut BuilderArena, index: usize, value: u16) {
        value_set_builder::<u16>(list_builder, arena, index, value)
    }

    proof fn lemma_get_after_set(s: Seq<u8>, ptr: nat, step: nat, index: nat, value: u16) {
        lemma_value_get_after_set::<u16>(s, ptr, step, index, value);
    }
}

impl PrimitiveElement for u32 {
    open spec fn read_bits() -> nat {
        8 * <u32 as DataValue>::byte_width()
    }

    open spec fn spec_get(s: Seq<u8>, ptr: nat, step: nat, index: nat) -> u32 {
        value_get::<u32>(s, ptr, step, index)
    }

    open spec fn set_fits(l: ListBuilder, index: nat) -> bool {
        8 * <u32 as DataValue>::byte_width() <= l.struct_data_size + 64 * l.struct_pointer_count
    }

    open spec fn spec_set(s: Seq<u8>, ptr: nat, step: nat, index: nat, value: u32) -> Seq<u8> {
        value_set::<u32>(s, ptr, step, index, value)
    }

    open spec fn same_place(step: nat) -> bool {
        true
    }

    fn get(list_reader: &ListReader, arena: &ReaderArena, index: usize) -> u32 {
        value_get_reader::<u32>(list_reader, arena, index)
    }

    fn get_from_builder(list_builder: &ListBuilder, arena: &BuilderArena, index: usize) -> u32 {
        value_get_builder::<u32>(list_builder, arena, index)
    }

    fn set(list_builder: &ListBuilder, arena: &mut BuilderArena, index: usize, value: u32) {
        value_set_builder::<u32>(list_builder, arena, index, value)
    }

    proof fn lemma_get_after_set(s: Seq<u8>, ptr: nat, step: nat, index: nat, value: u32) {
        lemma_value_get_after_set::<u32>(s, ptr, step, index, value);
    }
}

impl PrimitiveElement for u64 {
    open spec fn read_bits() -> nat {
        8 * <u64 as DataValue>::byte_width()
    }

    open spec fn spec_get(s: Seq<u8>, ptr: nat, step: nat, index: nat) -> u64 {
        value_get::<u64>(s, ptr, step, index)
    }

    open spec fn set_fits(l: ListBuilder, index: nat) -> bool {
        8 * <u64 as DataValue>::byte_width() <= l.struct_data_size + 64 * l.struct_pointer_count
    }

    open spec fn spec_set(s: Seq<u8>, ptr: nat, step: nat, index: nat, value: u64) -> Seq<u8> {
        value_set::<u64>(s, ptr, step, index, value)
    }

    open spec fn same_place(step: nat) -> bool {
        true
    }

    fn get(list_reader: &ListReader, arena: &ReaderArena, index: usize) -> u64 {
        value_get_reader::<u64>(list_reader, arena, index)
    }

    fn get_from_builder(list_builder: &ListBuilder, arena: &BuilderArena, index: usize) -> u64 {
        value_get_builder::<u64>(list_builder, arena, index)
    }

    fn set(list_builder: &ListBuilder, arena: &mut BuilderArena, index: usize, value: u64) {
        value_set_builder::<u64>(list_builder, arena, index, value)
    }

    proof fn lemma_get_after_set(s: Seq<u8>, ptr: nat, step: nat, index: nat, value: u64) {
        lemma_value_get_after_set::<u64>(s, ptr, step, index, value);
    }
}

impl PrimitiveElement for i8 {
    open spec fn read_bits() -> nat {
        8 * <i8 as DataValue>::byte_width()
    }

    open spec fn spec_get(s: Seq<u8>, ptr: nat, step: nat, index: nat) -> i8 {
        value_get::<i8>(s, ptr, step, index)
    }

    open spec fn set_fits(l: ListBuilder, index: nat) -> bool {
        8 * <i8 as DataValue>::byte_width() <= l.struct_data_size + 64 * l.struct_pointer_count
    }

    open spec fn spec_set(s: Seq<u8>, ptr: nat, step: nat, index: nat, value: i8) -> Seq<u8> {
        value_set::<i8>(s, ptr, step, index, value)
    }

    open spec fn same_place(step: nat) -> bool {
        true
    }

    fn get(list_reader: &ListReader, arena: &ReaderArena, index: usize) -> i8 {
        value_get_reader::<i8>(list_reader, arena, index)
    }

    fn get_from_builder(list_builder: &ListBuilder, arena: &BuilderArena, index: usize) -> i8 {
        value_get_builder::<i8>(list_builder, arena, index)
    }

    fn set(list_builder: &ListBuilder, arena: &mut BuilderArena, index: usize, value: i8) {
        value_set_builder::<i8>(list_builder, arena, index, value)
    }

    proof fn lemma_get_after_set(s: Seq<u8>, ptr: nat, step: nat, index: nat, value: i8) {
        lemma_value_get_after_set::<i8>(s, ptr, step, index, value);
    }
}

impl PrimitiveElement for i16 {
    open spec fn read_bits() -> nat {
        8 * <i16 as DataValue>::byte_width()
    }

    open spec fn spec_get(s: Seq<u8>, ptr: nat, step: nat, index: nat) -> i16 {
        value_get::<i16>(s, ptr, step, index)
    }

    open spec fn set_fits(l: ListBuilder, index: nat) -> bool {
        8 * <i16 as DataValue>::byte_width() <= l.struct_data_size + 64 * l.struct_pointer_count
    }

    open spec fn spec_set(s: Seq<u8>, ptr: nat, step: nat, index: nat, value: i16) -> Seq<u8> {
        value_set::<i16>(s, ptr, step, index, value)
    }

    open spec fn same_place(step: nat) -> bool {
        true
    }

    fn get(list_reader: &ListReader, arena: &ReaderArena, index: usize) -> i16 {
        value_get_reader::<i16>(list_reader, arena, index)
    }

    fn get_from_builder(list_builder: &ListBuilder, arena: &BuilderArena, index: usize) -> i16 {
        value_get_builder::<i16>(list_builder, arena, index)
    }

    fn set(list_builder: &ListBuilder, arena: &mut BuilderArena, index: usize, value: i16) {
        value_set_builder::<i16>(list_builder, arena, index, value)
    }

    proof fn lemma_get_after_set(s: Seq<u8>, ptr: nat, step: nat, index: nat, value: i16) {
        lemma_value_get_after_set::<i16>(s, ptr, step, index, value);
    }
}

impl PrimitiveElement for i32 {
    open spec fn read_bits() -> nat {
        8 * <i32 as DataValue>::byte_width()
    }

    open spec fn spec_get(s: Seq<u8>, ptr: nat, step: nat, index: nat) -> i32 {
        value_get::<i32>(s, ptr, step, index)
    }

    open spec fn set_fits(l: ListBuilder, index: nat) -> bool {
        8 * <i32 as DataValue>::byte_width() <= l.struct_data_size + 64 * l.struct_pointer_count
    }

    open spec fn spec_set(s: Seq<u8>, ptr: nat, step: nat, index: nat, value: i32) -> Seq<u8> {
        value_set::<i32>(s, ptr, step, index, value)
    }

    open spec fn same_place(step: nat) -> bool {
        true
    }

    fn get(list_reader: &ListReader, arena: &ReaderArena, index: usize) -> i32 {
        value_get_reader::<i32>(list_reader, arena, index)
    }

    fn get_from_builder(list_builder: &ListBuilder, arena: &BuilderArena, index: usize) -> i32 {
        value_get_builder::<i32>(list_builder, arena, index)
    }

    fn set(list_builder: &ListBuilder, arena: &mut BuilderArena, index: usize, value: i32) {
        value_set_builder::<i32>(list_builder, arena, index, value)
    }

    proof fn lemma_get_after_set(s: Seq<u8>, ptr: nat, step: nat, index: nat, value: i32) {
        lemma_value_get_after_set::<i32>(s, ptr, step, index, value);
    }
}

impl PrimitiveElement for i64 {
    open spec fn read_bits() -> nat {
        8 * <i64 as DataValue>::byte_width()
    }

    open spec fn spec_get(s: Seq<u8>, ptr: nat, step: nat, index: nat) -> i64 {
        value_get::<i64>(s, ptr, step, index)
    }

    open spec fn set_fits(l: ListBuilder, index: nat) -> bool {
        8 * <i64 as DataValue>::byte_width() <= l.struct_data_size + 64 * l.struct_pointer_count
    }

    open spec fn spec_set(s: Seq<u8>, ptr: nat, step: nat, index: nat, value: i64) -> Seq<u8> {
        value_set::<i64>(s, ptr, step, index, value)
    }

    open spec fn same_place(step: nat) -> bool {
        true
    }

    fn get(list_reader: &ListReader, arena: &ReaderArena, index: usize) -> i64 {
        value_get_reader::<i64>(list_reader, arena, index)
    }

    fn get_from_builder(list_builder: &ListBuilder, arena: &BuilderArena, index: usize) -> i64 {
        value_get_builder::<i64>(list_builder, arena, index)
    }

    fn set(list_builder: &ListBuilder, arena: &mut BuilderArena, index: usize, value: i64) {
        value_set_builder::<i64>(list_builder, arena, index, value)
    }

    proof fn lemma_get_after_set(s: Seq<u8>, ptr: nat, step: nat, index: nat, value: i64) {
        lemma_value_get_after_set::<i64>(s, ptr, step, index, value);
    }
}

/// Bools are single bits: element `index` of a bit list is bit `index`.
/// Reading goes `step` bits per element; writing, one bit per element.
impl PrimitiveElement for bool {
    open spec fn read_bits() -> nat {
        1
    }

    open spec fn spec_get(s: Seq<u8>, ptr: nat, step: nat, index: nat) -> bool {
        let b = ptr * 8 + index * step;
        bit_of(s[(b / 8) as int], b % 8)
    }

    open spec fn set_fits(l: ListBuilder, index: nat) -> bool {
        &&& l.step >= 1
        &&& l.struct_data_size + 64 * l.struct_pointer_count >= 1
    }

    open spec fn spec_set(s: Seq<u8>, ptr: nat, step: nat, index: nat, value: bool) -> Seq<u8> {
        let b = ptr * 8 + index;
        s.update((b / 8) as int, with_bit(s[(b / 8) as int], b % 8, value))
    }

    open spec fn same_place(step: nat) -> bool {
        step == 1
    }

    fn get(list_reader: &ListReader, arena: &ReaderArena, index: usize) -> bool {
        proof {
            lemma_element_position(index as int, list_reader.element_count as int, list_reader.step as int);
            assert(arena@[list_reader.segment as int] == arena.segments@[list_reader.segment as int]@);
            assert(arena@[list_reader.segment as int].len() < crate::arena::segment_byte_limit());
        }
        let bindex: u64 = index as u64 * list_reader.step as u64;
        let b = arena.segments[list_reader.segment][list_reader.ptr + (bindex / 8) as usize];
        b & (1u8 << (bindex % 8) as u8) != 0
    }

    fn get_from_builder(list_builder: &ListBuilder, arena: &BuilderArena, index: usize) -> bool {
        proof {
            lemma_element_position(index as int, list_builder.element_count as int, list_builder.step as int);
            assert(segment_wf(arena@[list_builder.segment as int], arena.used@[list_builder.segment as int] as nat));
        }
        let bindex: u64 = index as u64 * list_builder.step as u64;
        let b = arena.load_byte(list_builder.segment, list_builder.ptr + (bindex / 8) as usize);
        b & (1u8 << (bindex % 8) as u8) != 0
    }

    fn set(list_builder: &ListBuilder, arena: &mut BuilderArena, index: usize, value: bool) {
        proof {
            lemma_element_position(index as int, list_builder.element_count as int, list_builder.step as int);
            assert(index <= index * list_builder.step) by (nonlinear_arith)
                requires list_builder.step >= 1;
            assert(segment_wf(arena@[list_builder.segment as int], arena.used@[list_builder.segment as int] as nat));
        }
        let pos = list_builder.ptr + index / 8;
        let bitnum = (index % 8) as u8;
        let b = arena.load_byte(list_builder.segment, pos);
        let v: u8 = if value {
            1
        } else {
            0
        };
        let nb = (b & !(1u8 << bitnum)) | (v << bitnum);
        proof {
            assert(nb == with_bit(b, bitnum as nat, value));
            assert((list_builder.ptr * 8 + index) / 8 == list_builder.ptr + index / 8);
            assert((list_builder.ptr * 8 + index) % 8 == index % 8);
        }
        arena.store_byte(list_builder.segment, pos, nb);
    }

    proof fn lemma_get_after_set(s: Seq<u8>, ptr: nat, step: nat, index: nat, value: bool) {
        let b = ptr * 8 + index;
        lemma_with_bit(s[(b / 8) as int], b % 8, value, b % 8);
        assert(index * step == index) by (nonlinear_arith)
            requires step == 1;
    }
}

/// Void elements hold nothing.
impl PrimitiveElement for () {
    open spec fn read_bits() -> nat {
        0
    }

    open spec fn spec_get(s: Seq<u8>, ptr: nat, step: nat, index: nat) -> () {
        ()
    }

    open spec fn set_fits(l: ListBuilder, index: nat) -> bool {
        true
    }

    open spec fn spec_set(s: Seq<u8>, ptr: nat, step: nat, index: nat, value: ()) -> Seq<u8> {
        s
    }

    open spec fn same_place(step: nat) -> bool {
        true
    }

    fn get(_list_reader: &ListReader, _arena: &ReaderArena, _index: usize) -> () {
        ()
    }

    fn get_from_builder(_list_builder: &ListBuilder, _arena: &BuilderArena, _index: usize) -> () {
        ()
    }

    fn set(list_builder: &ListBuilder, arena: &mut BuilderArena, _index: usize, _value: ()) {
        assert(arena@ =~= arena@.update(list_builder.segment as int, arena@[list_builder.segment as int]));
    }

    proof fn lemma_get_after_set(s: Seq<u8>, ptr: nat, step: nat, index: nat, value: ()) {
    }
}

} // verus!
