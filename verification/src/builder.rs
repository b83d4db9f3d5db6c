//! Builders over the segments of a message under construction: pointers,
//! structs and lists.
use vstd::prelude::*;
use crate::arena::{BuilderArena, arena_grows, segment_wf};
use crate::reader::{StructReader, ListReader, bit_of};
use crate::le::{read_le, write_le, lemma_write_le, lemma_le_value_bound};
use crate::primitive::DataValue;
use crate::wire::{
    FieldSize, StructSize, WirePointer, wire_pointer_at, spec_data_bits_per_element,
    spec_pointers_per_element,
};
use crate::wire_helpers::{spec_read_struct_pointer, spec_read_list_pointer, spec_read_text_pointer, take_until_nul};
use crate::write_helpers::{
    room_for,
    init_struct_pointer, init_list_pointer, init_struct_list_pointer, set_text_pointer,
    allocated_preserved, spec_list_words, kept_but_old_object, old_object_cleared,
};
use crate::arena::SEGMENT_WORD_LIMIT;
use crate::footprint::old_object_zeroable;
use vstd::string::StringSliceAdditionalSpecFns;

verus! {

/// A pointer of a message under construction, given by its segment and byte
/// position.
#[derive(Clone, Copy, Debug, PartialEq, Eq, Structural)]
pub struct PointerBuilder {
    pub segment: usize,
    pub pointer: usize,
}

impl PointerBuilder {
    /// The pointer lies within the allocated part of its segment.
    pub open spec fn wf(self, arena: BuilderArena) -> bool {
        &&& self.segment < arena@.len()
        &&& self.pointer + 8 <= 8 * arena.used@[self.segment as int]
    }

    /// Whether all bits of the pointer are zero.
    pub fn is_null(&self, arena: &BuilderArena) -> (b: bool)
        requires
            arena.wf(),
            self.wf(*arena),
        ensures
            b == crate::wire::wire_pointer_at(
                arena@[self.segment as int],
                self.pointer as int,
            ).spec_is_null(),
    {
        assert(segment_wf(arena@[self.segment as int], arena.used@[self.segment as int] as nat));
        arena.read_pointer(self.segment, self.pointer).is_null()
    }
}

/// A type whose struct size generated code knows.
pub trait HasStructSize: Sized {
    fn struct_size(unused_self: Option<Self>) -> StructSize;
}

/// A type that generated code builds from a struct builder.
pub trait FromStructBuilder: Sized {
    fn from_struct_builder(struct_builder: StructBuilder) -> Self;
}

/// A struct of a message under construction: where its two sections start
/// (byte positions in segment `segment`), the data section's size in bits,
/// the number of pointers, and the bit that field 0 of a bool-list element
/// lives at.
#[derive(Clone, Copy, Debug, PartialEq, Eq, Structural)]
pub struct StructBuilder {
    pub segment: usize,
    pub data: usize,
    pub pointers: usize,
    pub data_size: u32,
    pub pointer_count: u16,
    pub bit0offset: u8,
}

impl StructBuilder {
    /// Both sections lie within the allocated part of the segment.
    pub open spec fn wf(self, arena: BuilderArena) -> bool {
        &&& self.bit0offset < 8
        &&& (self.data_size > 0 || self.pointer_count > 0) ==> self.segment < arena@.len()
        &&& self.data_size > 0 ==> self.data * 8 + self.bit0offset + self.data_size <= 64 * arena.used@[self.segment as int]
        &&& self.pointer_count > 0 ==> {
            &&& self.pointers % 8 == 0
            &&& self.pointers + 8 * self.pointer_count <= 8 * arena.used@[self.segment as int]
        }
    }

    /// The reader over the same struct.
    pub open spec fn spec_as_reader(self, nesting_limit: int) -> StructReader {
        StructReader {
            segment: self.segment,
            data: self.data,
            pointers: self.pointers,
            data_size: self.data_size,
            pointer_count: self.pointer_count,
            bit0offset: self.bit0offset,
            nesting_limit: nesting_limit as i32,
        }
    }

    /// Data field `offset` of type `T` fits the data section.
    pub open spec fn data_field_fits<T: DataValue>(self, offset: nat) -> bool {
        (offset + 1) * (8 * T::byte_width()) <= self.data_size
    }

    /// The byte position of data field `offset` of type `T`.
    pub open spec fn data_field_pos<T: DataValue>(self, offset: nat) -> int {
        self.data + offset * T::byte_width()
    }

    /// The value of data field `offset` of type `T`.
    pub open spec fn spec_data_field<T: DataValue>(self, segs: Seq<Seq<u8>>, offset: nat) -> T {
        T::spec_from_bits(
            read_le(segs[self.segment as int], self.data_field_pos::<T>(offset), T::byte_width()),
        )
    }

    /// The bit of bool field `offset`: for field 0, the element's own bit.
    pub open spec fn bool_bit(self, offset: nat) -> nat {
        if offset == 0 {
            self.bit0offset as nat
        } else {
            offset
        }
    }

    /// The value of bool field `offset`.
    pub open spec fn spec_bool_field(self, segs: Seq<Seq<u8>>, offset: nat) -> bool {
        let b = self.bool_bit(offset);
        bit_of(segs[self.segment as int][self.data + b / 8], b % 8)
    }
}

/// A builder over a struct stays valid when the arena grows.
pub proof fn lemma_struct_builder_grows(b: StructBuilder, a: BuilderArena, a2: BuilderArena)
    requires
        a.wf(),
        a2.wf(),
        b.wf(a),
        arena_grows(a, a2),
    ensures
        b.wf(a2),
{
    if b.data_size > 0 || b.pointer_count > 0 {
        assert(a2.used@[b.segment as int] >= a.used@[b.segment as int]);
    }
}

/// The reader over a struct of a valid builder is valid.
pub proof fn lemma_struct_builder_reader_wf(b: StructBuilder, a: BuilderArena, n: int)
    requires
        a.wf(),
        b.wf(a),
    ensures
        b.spec_as_reader(n).wf(a@),
{
    if b.data_size > 0 || b.pointer_count > 0 {
        assert(segment_wf(a@[b.segment as int], a.used@[b.segment as int] as nat));
        assert(8 * a.used@[b.segment as int] <= a@[b.segment as int].len());
    }
}

/// A list of a message under construction: where its first element starts
/// (byte position in segment `segment`), the number of elements, the
/// distance between elements in bits, and the data size and pointer count
/// of each element as a struct.
#[derive(Clone, Copy, Debug, PartialEq, Eq, Structural)]
pub struct ListBuilder {
    pub segment: usize,
    pub ptr: usize,
    pub element_count: usize,
    pub step: usize,
    pub struct_data_size: u32,
    pub struct_pointer_count: u16,
}

impl ListBuilder {
    /// The reader over the same list.
    pub open spec fn spec_as_reader(self, nesting_limit: int) -> ListReader {
        ListReader {
            segment: self.segment,
            ptr: self.ptr,
            element_count: self.element_count,
            step: self.step,
            struct_data_size: self.struct_data_size,
            struct_pointer_count: self.struct_pointer_count,
            nesting_limit: nesting_limit as i32,
        }
    }

    /// Every element, as a struct, lies within the allocated part of the
    /// segment; where elements have pointers, they are word-aligned.
    pub open spec fn wf(self, arena: BuilderArena) -> bool {
        self.element_count > 0 ==> {
            &&& self.segment < arena@.len()
            &&& self.ptr * 8 + (self.element_count - 1) * self.step + self.struct_data_size + 64
                * self.struct_pointer_count <= 64 * arena.used@[self.segment as int]
            &&& self.struct_pointer_count > 0 ==> {
                &&& self.ptr % 8 == 0
                &&& self.step % 64 == 0
                &&& self.struct_data_size % 64 == 0
            }
        }
    }

    /// The number of elements.
    pub fn size(&self) -> (n: usize)
        ensures
            n == self.element_count,
    {
        self.element_count
    }
}

/// A builder over a list stays valid when the arena grows.
pub proof fn lemma_list_builder_grows(l: ListBuilder, a: BuilderArena, a2: BuilderArena)
    requires
        a.wf(),
        a2.wf(),
        l.wf(a),
        arena_grows(a, a2),
    ensures
        l.wf(a2),
{
    if l.element_count > 0 {
        assert(a2.used@[l.segment as int] >= a.used@[l.segment as int]);
    }
}


/// The byte that setting bit `k` of `b` to `v` gives.
pub open spec fn with_bit(b: u8, k: nat, v: bool) -> u8 {
    (b & !(1u8 << (k as u8))) | ((if v {
        1u8
    } else {
        0u8
    }) << (k as u8))
}

/// Setting a bit and reading it back gives the value set; the other bits keep
/// theirs.
pub proof fn lemma_with_bit(b: u8, k: nat, v: bool, k2: nat)
    requires
        k < 8,
        k2 < 8,
    ensures
        bit_of(with_bit(b, k, v), k) == v,
        k2 != k ==> bit_of(with_bit(b, k, v), k2) == bit_of(b, k2),
{
    let kk = k as u8;
    let kk2 = k2 as u8;
    let vv: u8 = if v {
        1u8
    } else {
        0u8
    };
    assert(((b & !(1u8 << kk)) | (vv << kk)) & (1u8 << kk) != 0 <==> vv == 1) by (bit_vector)
        requires
            kk < 8,
            vv == 0 || vv == 1,
    ;
    assert(kk2 != kk ==> ((((b & !(1u8 << kk)) | (vv << kk)) & (1u8 << kk2) != 0) <==> (b & (1u8
        << kk2) != 0))) by (bit_vector)
        requires
            kk < 8,
            kk2 < 8,
            vv == 0 || vv == 1,
    ;
}

impl StructBuilder {
    /// Bool field `offset` lies within the data section.
    pub open spec fn bool_field_fits(self, offset: nat) -> bool {
        if offset == 0 {
            self.data_size > 0
        } else {
            offset < self.data_size
        }
    }

    /// Allocates the root struct of a message, of the given size and all zero,
    /// for the root pointer at byte `location` of segment `segment`.
    pub fn init_root(
        arena: &mut BuilderArena,
        segment: usize,
        location: usize,
        size: StructSize,
    ) -> (b: StructBuilder)
        requires
            old(arena).wf(),
            old(arena)@.len() < 0xFFFF_FFFF,
            segment < old(arena)@.len(),
            location % 8 == 0,
            location + 8 <= 8 * old(arena).used@[segment as int],
            old_object_zeroable(old(arena)@, segment as int, location as int),
        ensures
            final(arena).wf(),
            arena_grows(*old(arena), *final(arena)),
            kept_but_old_object(*old(arena), final(arena)@, segment as int, location as int),
            old_object_cleared(*old(arena), final(arena)@, segment as int, location as int),
            b.wf(*final(arena)),
            b.data_size == size.data * 64,
            b.pointer_count == size.pointers,
            b.bit0offset == 0,
            b.pointers == b.data + 8 * size.data,
            forall|j: int|
                b.data <= j < b.data + 8 * (size.data + size.pointers) ==> #[trigger] final(arena)@[b.segment as int][j] == 0,
            allocated_preserved(
                *old(arena),
                final(arena)@,
                segment as int,
                location as int,
                !wire_pointer_at(old(arena)@[segment as int], location as int).spec_is_null(),
            ),
            forall|n: int|
                n > 0 && size.data + size.pointers > 0 ==> #[trigger] spec_read_struct_pointer(
                    final(arena)@,
                    segment as int,
                    Some(location),
                    n,
                ) == Ok::<StructReader, crate::reader::ReadError>(b.spec_as_reader(n - 1)),
            forall|n: int|
                n > 0 && size.data + size.pointers == 0 ==> (#[trigger] spec_read_struct_pointer(
                    final(arena)@,
                    segment as int,
                    Some(location),
                    n,
                ) matches Ok(e) && e.data_size == 0 && e.pointer_count == 0),
    {
        init_struct_pointer(arena, location, segment, size)
    }

    /// The reader over the same struct, as deep as reading may go.
    pub fn as_reader(&self, arena: &BuilderArena) -> (r: StructReader)
        requires
            arena.wf(),
            self.wf(*arena),
        ensures
            r == self.spec_as_reader(0x7fff_ffff),
            r.wf(arena@),
    {
        proof {
            lemma_struct_builder_reader_wf(*self, *arena, 0x7fff_ffff);
        }
        StructReader {
            segment: self.segment,
            data: self.data,
            pointers: self.pointers,
            data_size: self.data_size,
            pointer_count: self.pointer_count,
            bit0offset: self.bit0offset,
            nesting_limit: 0x7fff_ffff,
        }
    }

    /// Stores `value` in data field `offset` of type `T`.
    pub fn set_data_field<T: DataValue>(&self, arena: &mut BuilderArena, offset: usize, value: T)
        requires
            old(arena).wf(),
            self.wf(*old(arena)),
            self.data_field_fits::<T>(offset as nat),
        ensures
            final(arena).wf(),
            final(arena).used@ == old(arena).used@,
            final(arena).segment_words == old(arena).segment_words,
            final(arena)@ == old(arena)@.update(
                self.segment as int,
                write_le(
                    old(arena)@[self.segment as int],
                    self.data_field_pos::<T>(offset as nat),
                    T::byte_width(),
                    value.spec_to_bits(),
                ),
            ),
            self.spec_data_field::<T>(final(arena)@, offset as nat) == value,
    {
        let w = T::width();
        proof {
            T::lemma_bits_roundtrip(value);
            assert((offset + 1) * (8 * w) == 8 * (offset * w + w)) by (nonlinear_arith);
            assert(segment_wf(arena@[self.segment as int], arena.used@[self.segment as int] as nat));
            lemma_write_le(
                arena@[self.segment as int],
                self.data + offset * w,
                w as nat,
                value.spec_to_bits(),
            );
            vstd::arithmetic::div_mod::lemma_small_mod(
                value.spec_to_bits(),
                crate::le::pow256(w as nat),
            );
        }
        arena.store(self.segment, self.data + offset * w, w, value.to_bits());
    }

    /// Loads data field `offset` of type `T`.
    pub fn get_data_field<T: DataValue>(&self, arena: &BuilderArena, offset: usize) -> (v: T)
        requires
            arena.wf(),
            self.wf(*arena),
            self.data_field_fits::<T>(offset as nat),
        ensures
            v == self.spec_data_field::<T>(arena@, offset as nat),
    {
        let w = T::width();
        proof {
            assert((offset + 1) * (8 * w) == 8 * (offset * w + w)) by (nonlinear_arith);
            assert(segment_wf(arena@[self.segment as int], arena.used@[self.segment as int] as nat));
        }
        let bits = arena.load(self.segment, self.data + offset * w, w);
        proof {
            lemma_le_value_bound(
                arena@[self.segment as int].subrange(
                    self.data + offset * w,
                    self.data + offset * w + w,
                ),
            );
        }
        T::from_bits(bits)
    }

    /// Sets bool field `offset` to `value`.
    pub fn set_bool_field(&self, arena: &mut BuilderArena, offset: usize, value: bool)
        requires
            old(arena).wf(),
            self.wf(*old(arena)),
            self.bool_field_fits(offset as nat),
        ensures
            final(arena).wf(),
            final(arena).used@ == old(arena).used@,
            final(arena).segment_words == old(arena).segment_words,
            final(arena)@ == old(arena)@.update(
                self.segment as int,
                old(arena)@[self.segment as int].update(
                    self.data + self.bool_bit(offset as nat) / 8,
                    with_bit(
                        old(arena)@[self.segment as int][self.data + self.bool_bit(offset as nat) / 8],
                        self.bool_bit(offset as nat) % 8,
                        value,
                    ),
                ),
            ),
            self.spec_bool_field(final(arena)@, offset as nat) == value,
    {
        let boffset: usize = if offset == 0 {
            self.bit0offset as usize
        } else {
            offset
        };
        proof {
            assert(segment_wf(arena@[self.segment as int], arena.used@[self.segment as int] as nat));
        }
        let pos = self.data + boffset / 8;
        let bitnum = (boffset % 8) as u8;
        let b = arena.load_byte(self.segment, pos);
        let v: u8 = if value {
            1
        } else {
            0
        };
        let nb = (b & !(1u8 << bitnum)) | (v << bitnum);
        proof {
            lemma_with_bit(b, bitnum as nat, value, bitnum as nat);
            assert(nb == with_bit(b, bitnum as nat, value));
        }
        arena.store_byte(self.segment, pos, nb);
    }

    /// Loads bool field `offset`.
    pub fn get_bool_field(&self, arena: &BuilderArena, offset: usize) -> (v: bool)
        requires
            arena.wf(),
            self.wf(*arena),
            self.bool_field_fits(offset as nat),
        ensures
            v == self.spec_bool_field(arena@, offset as nat),
    {
        let boffset: usize = if offset == 0 {
            self.bit0offset as usize
        } else {
            offset
        };
        proof {
            assert(segment_wf(arena@[self.segment as int], arena.used@[self.segment as int] as nat));
        }
        let b = arena.load_byte(self.segment, self.data + boffset / 8);
        b & (1u8 << (boffset % 8) as u8) != 0
    }

    /// The byte position of pointer `ptr_index`.
    pub open spec fn pointer_pos(self, ptr_index: nat) -> int {
        self.pointers + 8 * ptr_index
    }

    /// Allocates a struct of the given size, all zero, for pointer
    /// `ptr_index`; whatever it pointed at before is zeroed first.
    pub fn init_struct_field(
        &self,
        arena: &mut BuilderArena,
        ptr_index: usize,
        size: StructSize,
    ) -> (b: StructBuilder)
        requires
            old(arena).wf(),
            old(arena)@.len() < 0xFFFF_FFFF,
            self.wf(*old(arena)),
            ptr_index < self.pointer_count,
            old_object_zeroable(old(arena)@, self.segment as int, self.pointer_pos(ptr_index as nat)),
        ensures
            final(arena).wf(),
            arena_grows(*old(arena), *final(arena)),
            kept_but_old_object(
                *old(arena),
                final(arena)@,
                self.segment as int,
                self.pointer_pos(ptr_index as nat),
            ),
            old_object_cleared(
                *old(arena),
                final(arena)@,
                self.segment as int,
                self.pointer_pos(ptr_index as nat),
            ),
            self.wf(*final(arena)),
            b.wf(*final(arena)),
            b.data_size == size.data * 64,
            b.pointer_count == size.pointers,
            b.bit0offset == 0,
            b.pointers == b.data + 8 * size.data,
            forall|j: int|
                b.data <= j < b.data + 8 * (size.data + size.pointers) ==> #[trigger] final(arena)@[b.segment as int][j] == 0,
            allocated_preserved(
                *old(arena),
                final(arena)@,
                self.segment as int,
                self.pointer_pos(ptr_index as nat),
                !wire_pointer_at(old(arena)@[self.segment as int], self.pointer_pos(ptr_index as nat)).spec_is_null(),
            ),
            forall|n: int|
                n > 0 && size.data + size.pointers > 0 ==> #[trigger] spec_read_struct_pointer(
                    final(arena)@,
                    self.segment as int,
                    Some((self.pointers + 8 * ptr_index) as usize),
                    n,
                ) == Ok::<StructReader, crate::reader::ReadError>(b.spec_as_reader(n - 1)),
            forall|n: int|
                n > 0 && size.data + size.pointers == 0 ==> (#[trigger] spec_read_struct_pointer(
                    final(arena)@,
                    self.segment as int,
                    Some((self.pointers + 8 * ptr_index) as usize),
                    n,
                ) matches Ok(e) && e.data_size == 0 && e.pointer_count == 0),
    {
        let ghost a0 = *arena;
        proof {
            assert(segment_wf(a0@[self.segment as int], a0.used@[self.segment as int] as nat));
        }
        let b = init_struct_pointer(arena, self.pointers + 8 * ptr_index, self.segment, size);
        proof {
            lemma_struct_builder_grows(*self, a0, *arena);
        }
        b
    }

    /// Allocates a list of `element_count` elements of size `element_size`,
    /// all zero, for pointer `ptr_index`; whatever it pointed at before is
    /// zeroed first.
    pub fn init_list_field(
        &self,
        arena: &mut BuilderArena,
        ptr_index: usize,
        element_size: FieldSize,
        element_count: usize,
    ) -> (l: ListBuilder)
        requires
            old(arena).wf(),
            old(arena)@.len() < 0xFFFF_FFFF,
            self.wf(*old(arena)),
            ptr_index < self.pointer_count,
            old_object_zeroable(old(arena)@, self.segment as int, self.pointer_pos(ptr_index as nat)),
            element_size != FieldSize::INLINE_COMPOSITE,
            element_count < 0x2000_0000,
            room_for(
                *old(arena),
                self.segment as int,
                spec_list_words(element_count as nat, element_size) as int,
            ),
        ensures
            final(arena).wf(),
            arena_grows(*old(arena), *final(arena)),
            kept_but_old_object(
                *old(arena),
                final(arena)@,
                self.segment as int,
                self.pointer_pos(ptr_index as nat),
            ),
            old_object_cleared(
                *old(arena),
                final(arena)@,
                self.segment as int,
                self.pointer_pos(ptr_index as nat),
            ),
            self.wf(*final(arena)),
            l.wf(*final(arena)),
            l.element_count == element_count,
            l.step == spec_data_bits_per_element(element_size) + 64 * spec_pointers_per_element(
                element_size,
            ),
            l.struct_data_size == spec_data_bits_per_element(element_size),
            l.struct_pointer_count == spec_pointers_per_element(element_size),
            forall|j: int|
                l.ptr <= j < l.ptr + 8 * spec_list_words(element_count as nat, element_size)
                    ==> #[trigger] final(arena)@[l.segment as int][j] == 0,
            allocated_preserved(
                *old(arena),
                final(arena)@,
                self.segment as int,
                self.pointer_pos(ptr_index as nat),
                !wire_pointer_at(old(arena)@[self.segment as int], self.pointer_pos(ptr_index as nat)).spec_is_null(),
            ),
            forall|n: int|
                n > 0 && (element_count > 0 || element_size != FieldSize::VOID)
                    ==> #[trigger] spec_read_list_pointer(
                    final(arena)@,
                    self.segment as int,
                    Some((self.pointers + 8 * ptr_index) as usize),
                    element_size,
                    n,
                ) == Ok::<ListReader, crate::reader::ReadError>(l.spec_as_reader(n - 1)),
            forall|n: int|
                n > 0 && element_count == 0 && element_size == FieldSize::VOID
                    ==> (#[trigger] spec_read_list_pointer(
                    final(arena)@,
                    self.segment as int,
                    Some((self.pointers + 8 * ptr_index) as usize),
                    element_size,
                    n,
                ) matches Ok(e) && e.element_count == 0),
    {
        let ghost a0 = *arena;
        proof {
            assert(segment_wf(a0@[self.segment as int], a0.used@[self.segment as int] as nat));
        }
        let l = init_list_pointer(
            arena,
            self.pointers + 8 * ptr_index,
            self.segment,
            element_count,
            element_size,
        );
        proof {
            lemma_struct_builder_grows(*self, a0, *arena);
        }
        l
    }

    /// Allocates a list of `element_count` structs of size `element_size`,
    /// all zero, for pointer `ptr_index`; whatever it pointed at before is
    /// zeroed first.
    pub fn init_struct_list_field(
        &self,
        arena: &mut BuilderArena,
        ptr_index: usize,
        element_count: usize,
        element_size: StructSize,
    ) -> (l: ListBuilder)
        requires
            old(arena).wf(),
            old(arena)@.len() < 0xFFFF_FFFF,
            self.wf(*old(arena)),
            ptr_index < self.pointer_count,
            old_object_zeroable(old(arena)@, self.segment as int, self.pointer_pos(ptr_index as nat)),
            element_size.preferred_list_encoding != FieldSize::INLINE_COMPOSITE ==> {
                let words = spec_list_words(element_count as nat, element_size.preferred_list_encoding);
                &&& element_count < 0x2000_0000
                &&& room_for(*old(arena), self.segment as int, words as int)
            },
            element_size.preferred_list_encoding == FieldSize::INLINE_COMPOSITE ==> {
                let wc = element_count * (element_size.data + element_size.pointers);
                &&& wc + 1 < SEGMENT_WORD_LIMIT
                &&& room_for(*old(arena), self.segment as int, wc + 1)
            },
        ensures
            final(arena).wf(),
            arena_grows(*old(arena), *final(arena)),
            kept_but_old_object(
                *old(arena),
                final(arena)@,
                self.segment as int,
                self.pointer_pos(ptr_index as nat),
            ),
            old_object_cleared(
                *old(arena),
                final(arena)@,
                self.segment as int,
                self.pointer_pos(ptr_index as nat),
            ),
            self.wf(*final(arena)),
            l.wf(*final(arena)),
            l.element_count == element_count,
            allocated_preserved(
                *old(arena),
                final(arena)@,
                self.segment as int,
                self.pointer_pos(ptr_index as nat),
                !wire_pointer_at(old(arena)@[self.segment as int], self.pointer_pos(ptr_index as nat)).spec_is_null(),
            ),
            element_size.preferred_list_encoding != FieldSize::INLINE_COMPOSITE ==> forall|n: int|
                n > 0 && (element_count > 0 || element_size.preferred_list_encoding
                    != FieldSize::VOID) ==> #[trigger] spec_read_list_pointer(
                    final(arena)@,
                    self.segment as int,
                    Some((self.pointers + 8 * ptr_index) as usize),
                    element_size.preferred_list_encoding,
                    n,
                ) == Ok::<ListReader, crate::reader::ReadError>(l.spec_as_reader(n - 1)),
            element_size.preferred_list_encoding == FieldSize::VOID && element_count == 0
                ==> forall|n: int|
                n > 0 ==> (#[trigger] spec_read_list_pointer(
                    final(arena)@,
                    self.segment as int,
                    Some((self.pointers + 8 * ptr_index) as usize),
                    FieldSize::VOID,
                    n,
                ) matches Ok(e) && e.element_count == 0),
            element_size.preferred_list_encoding != FieldSize::INLINE_COMPOSITE ==> {
                let es = element_size.preferred_list_encoding;
                &&& l.step == spec_data_bits_per_element(es) + 64 * spec_pointers_per_element(es)
                &&& l.struct_data_size == spec_data_bits_per_element(es)
                &&& l.struct_pointer_count == spec_pointers_per_element(es)
            },
            element_size.preferred_list_encoding == FieldSize::INLINE_COMPOSITE ==> {
                &&& l.step == 64 * (element_size.data + element_size.pointers)
                &&& l.struct_data_size == 64 * element_size.data
                &&& l.struct_pointer_count == element_size.pointers
                &&& forall|j: int|
                    l.ptr <= j < l.ptr + 8 * element_count * (element_size.data
                        + element_size.pointers) ==> #[trigger] final(arena)@[l.segment as int][j]
                        == 0
                &&& element_count < 0x4000_0000 ==> forall|n: int|
                    n > 0 ==> #[trigger] spec_read_list_pointer(
                        final(arena)@,
                        self.segment as int,
                        Some((self.pointers + 8 * ptr_index) as usize),
                        FieldSize::INLINE_COMPOSITE,
                        n,
                    ) == Ok::<ListReader, crate::reader::ReadError>(l.spec_as_reader(n - 1))
            },
    {
        let ghost a0 = *arena;
        proof {
            assert(segment_wf(a0@[self.segment as int], a0.used@[self.segment as int] as nat));
        }
        let l = init_struct_list_pointer(
            arena,
            self.pointers + 8 * ptr_index,
            self.segment,
            element_count,
            element_size,
        );
        proof {
            lemma_struct_builder_grows(*self, a0, *arena);
        }
        l
    }

    /// Stores `value` as text for pointer `ptr_index`; whatever it pointed at
    /// before is zeroed first.
    pub fn set_text_field(&self, arena: &mut BuilderArena, ptr_index: usize, value: &str)
        requires
            old(arena).wf(),
            old(arena)@.len() < 0xFFFF_FFFF,
            self.wf(*old(arena)),
            ptr_index < self.pointer_count,
            old_object_zeroable(old(arena)@, self.segment as int, self.pointer_pos(ptr_index as nat)),
            value.spec_bytes().len() + 1 < 0x2000_0000,
        ensures
            final(arena).wf(),
            arena_grows(*old(arena), *final(arena)),
            kept_but_old_object(
                *old(arena),
                final(arena)@,
                self.segment as int,
                self.pointer_pos(ptr_index as nat),
            ),
            old_object_cleared(
                *old(arena),
                final(arena)@,
                self.segment as int,
                self.pointer_pos(ptr_index as nat),
            ),
            self.wf(*final(arena)),
            allocated_preserved(
                *old(arena),
                final(arena)@,
                self.segment as int,
                self.pointer_pos(ptr_index as nat),
                !wire_pointer_at(old(arena)@[self.segment as int], self.pointer_pos(ptr_index as nat)).spec_is_null(),
            ),
            forall|d: Seq<u8>|
                #[trigger] spec_read_text_pointer(
                    final(arena)@,
                    self.segment as int,
                    Some((self.pointers + 8 * ptr_index) as usize),
                    d,
                ) == Ok::<Seq<u8>, crate::reader::ReadError>(take_until_nul(value.spec_bytes().push(0))),
    {
        let ghost a0 = *arena;
        proof {
            assert(segment_wf(a0@[self.segment as int], a0.used@[self.segment as int] as nat));
        }
        set_text_pointer(arena, self.pointers + 8 * ptr_index, self.segment, value);
        proof {
            lemma_struct_builder_grows(*self, a0, *arena);
        }
    }
}

impl ListBuilder {
    /// Element `index` as a struct.
    pub open spec fn spec_struct_element(self, index: nat) -> StructBuilder {
        let index_bit = index * self.step;
        let data = self.ptr + index_bit / 8;
        StructBuilder {
            segment: self.segment,
            data: data as usize,
            pointers: (data + self.struct_data_size / 8) as usize,
            data_size: self.struct_data_size,
            pointer_count: self.struct_pointer_count,
            bit0offset: (index_bit % 8) as u8,
        }
    }

    /// Element `index` as a struct.
    pub fn get_struct_element(&self, arena: &BuilderArena, index: usize) -> (b: StructBuilder)
        requires
            arena.wf(),
            self.wf(*arena),
            index < self.element_count,
        ensures
            b == self.spec_struct_element(index as nat),
            b.wf(*arena),
    {
        proof {
            crate::reader::lemma_element_position(index as int, self.element_count as int, self.step as int);
            assert(segment_wf(arena@[self.segment as int], arena.used@[self.segment as int] as nat));
            if self.struct_pointer_count > 0 {
                let k = self.step / 64;
                assert(index * self.step == 64 * (index * k)) by (nonlinear_arith)
                    requires self.step == 64 * k;
            }
        }
        let index_bit: u64 = index as u64 * self.step as u64;
        let data = self.ptr + (index_bit / 8) as usize;
        let pointers = data + (self.struct_data_size / 8) as usize;
        StructBuilder {
            segment: self.segment,
            data: data,
            pointers: pointers,
            data_size: self.struct_data_size,
            pointer_count: self.struct_pointer_count,
            bit0offset: (index_bit % 8) as u8,
        }
    }
}

} // verus!
