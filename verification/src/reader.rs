//! Readers over the segments of a message: pointers, structs and lists.
use vstd::prelude::*;
use vstd::string::StringSliceAdditionalSpecFns;
use crate::arena::ReaderArena;
use crate::le::{read_le, load_le, lemma_le_value_bound};
use crate::primitive::DataValue;
use crate::wire::FieldSize;
use crate::wire_helpers::{
    try_read_struct_pointer, try_read_list_pointer, try_read_text_pointer, spec_read_struct_pointer,
    spec_read_list_pointer, spec_read_text_pointer, ref_in_segment,
};

verus! {

/// Why a message could not be read.
#[derive(Clone, Copy, Debug, PartialEq, Eq, Structural)]
pub enum ReadError {
    /// The message is too deeply nested or contains cycles.
    NestingLimitExceeded,
    /// A far pointer names a segment the message does not have.
    UnknownSegment,
    /// A pointer leads outside its segment.
    OutOfBounds,
    /// A list was expected, but the pointer is not a list pointer.
    ExpectedList,
    /// An inline-composite list whose tag is not a struct tag.
    InlineCompositeNotStruct,
    /// An inline-composite list whose elements overrun its word count.
    InlineCompositeOverrun,
    /// A bit list was expected, but the list holds structs.
    ExpectedBitList,
    /// A primitive list was expected, but the structs have no data.
    ExpectedPrimitiveList,
    /// A pointer list was expected, but the structs have no pointers.
    ExpectedPointerList,
    /// The elements of the list are smaller than the expected element size.
    ElementTooSmall,
    /// Text was expected, but the pointer is not a list pointer.
    ExpectedText,
    /// Text was expected, but the list is not a byte list.
    TextNotBytes,
    /// Text that does not end in a NUL byte.
    TextNotNulTerminated,
}

/// A struct in a message: where its two sections start (byte positions in
/// segment `segment`), the data section's size in bits, the number of
/// pointers, the bit that field 0 of a bool-list element lives at, and how
/// much deeper reading may still go.
#[derive(Clone, Copy, Debug, PartialEq, Eq, Structural)]
pub struct StructReader {
    pub segment: usize,
    pub data: usize,
    pub pointers: usize,
    pub data_size: u32,
    pub pointer_count: u16,
    pub bit0offset: u8,
    pub nesting_limit: i32,
}

impl StructReader {
    /// The empty struct with no fields.
    pub open spec fn spec_default() -> StructReader {
        StructReader {
            segment: 0,
            data: 0,
            pointers: 0,
            data_size: 0,
            pointer_count: 0,
            bit0offset: 0,
            nesting_limit: 0x7fff_ffff,
        }
    }

    /// Both sections lie within the reader's segment.
    pub open spec fn wf(self, segs: Seq<Seq<u8>>) -> bool {
        &&& self.bit0offset < 8
        &&& (self.data_size > 0 || self.pointer_count > 0) ==> self.segment < segs.len()
        &&& self.data_size > 0 ==> self.data * 8 + self.bit0offset + self.data_size
            <= 8 * segs[self.segment as int].len()
        &&& self.pointer_count > 0 ==> self.pointers + 8 * self.pointer_count
            <= segs[self.segment as int].len()
    }

    /// The empty struct with no fields.
    pub fn new_default() -> (r: StructReader)
        ensures
            r == StructReader::spec_default(),
    {
        StructReader {
            segment: 0,
            data: 0,
            pointers: 0,
            data_size: 0,
            pointer_count: 0,
            bit0offset: 0,
            nesting_limit: 0x7fff_ffff,
        }
    }

    /// Size of the data section in bits.
    pub fn get_data_section_size(&self) -> (n: u32)
        ensures
            n == self.data_size,
    {
        self.data_size
    }

    /// Number of pointers in the pointer section.
    pub fn get_pointer_section_size(&self) -> (n: u16)
        ensures
            n == self.pointer_count,
    {
        self.pointer_count
    }
}

/// A list in a message: where its first element starts (byte position in
/// segment `segment`), the number of elements, the distance between elements
/// in bits, the data size and pointer count of each element read as a
/// struct, and how much deeper reading may still go.
#[derive(Clone, Copy, Debug, PartialEq, Eq, Structural)]
pub struct ListReader {
    pub segment: usize,
    pub ptr: usize,
    pub element_count: usize,
    pub step: usize,
    pub struct_data_size: u32,
    pub struct_pointer_count: u16,
    pub nesting_limit: i32,
}

impl ListReader {
    /// The empty list.
    pub open spec fn spec_default() -> ListReader {
        ListReader {
            segment: 0,
            ptr: 0,
            element_count: 0,
            step: 0,
            struct_data_size: 0,
            struct_pointer_count: 0,
            nesting_limit: 0x7fff_ffff,
        }
    }

    /// The empty list.
    pub fn new_default() -> (r: ListReader)
        ensures
            r == ListReader::spec_default(),
    {
        ListReader {
            segment: 0,
            ptr: 0,
            element_count: 0,
            step: 0,
            struct_data_size: 0,
            struct_pointer_count: 0,
            nesting_limit: 0x7fff_ffff,
        }
    }

    /// Every element's first `bits` bits lie within the list's segment.
    pub open spec fn elements_fit(self, segs: Seq<Seq<u8>>, bits: nat) -> bool {
        self.element_count > 0 ==> {
            &&& self.segment < segs.len()
            &&& self.ptr * 8 + (self.element_count - 1) * self.step + bits <= 8 * segs[self.segment as int].len()
        }
    }

    /// Bits that each element spans when read as a struct.
    pub open spec fn struct_bits(self) -> nat {
        (self.struct_data_size + 64 * self.struct_pointer_count) as nat
    }

    /// The number of elements.
    pub fn size(&self) -> (n: usize)
        ensures
            n == self.element_count,
    {
        self.element_count
    }
}


/// Whether bit `k` of `b` is set.
pub open spec fn bit_of(b: u8, k: nat) -> bool {
    b & (1u8 << (k as u8)) != 0
}

/// `offset < d / b` says `(offset + 1) * b <= d`.
pub proof fn lemma_index_fits(offset: nat, b: nat, d: nat)
    requires
        b > 0,
    ensures
        (offset < d / b) <==> ((offset + 1) * b <= d),
{
    assert(d == b * (d / b) + d % b) by (nonlinear_arith)
        requires
            b > 0,
    ;
    assert(0 <= d % b < b) by (nonlinear_arith)
        requires
            b > 0,
    ;
    if offset < d / b {
        assert((offset + 1) * b <= (d / b) * b) by (nonlinear_arith)
            requires
                offset + 1 <= d / b,
        ;
    } else {
        let q = d / b;
        assert((offset + 1) * b >= (q + 1) * b) by (nonlinear_arith)
            requires
                offset + 1 >= q + 1,
                b > 0,
        ;
        assert((q + 1) * b == b * q + b) by (nonlinear_arith);
    }
}

impl StructReader {
    /// Data field `offset` of type `T`: the `T` stored at `offset` times its
    /// width into the data section, or zero where the data section is too
    /// small to hold it (a struct written by an older schema).
    pub open spec fn spec_data_field<T: DataValue>(self, segs: Seq<Seq<u8>>, offset: nat) -> T {
        let w = T::byte_width();
        if (offset + 1) * (8 * w) <= self.data_size {
            T::spec_from_bits(read_le(segs[self.segment as int], self.data + offset * w, w))
        } else {
            T::spec_zero()
        }
    }

    /// Bool field `offset`: the bit at `offset` into the data section (for
    /// field 0, the element's own bit), or false where the data section is
    /// too small to hold it.
    pub open spec fn spec_bool_field(self, segs: Seq<Seq<u8>>, offset: nat) -> bool {
        let b = offset as u32;
        if b < self.data_size {
            let boff: nat = if offset == 0 {
                self.bit0offset as nat
            } else {
                b as nat
            };
            bit_of(segs[self.segment as int][self.data + boff / 8], boff % 8)
        } else {
            false
        }
    }

    /// Reads data field `offset` of type `T`.
    pub fn get_data_field<T: DataValue>(&self, arena: &ReaderArena, offset: usize) -> (v: T)
        requires
            arena.wf(),
            self.wf(arena@),
        ensures
            v == self.spec_data_field::<T>(arena@, offset as nat),
    {
        let w = T::width();
        let limit = (self.data_size as usize) / (8 * w);
        proof {
            lemma_index_fits(offset as nat, (8 * w) as nat, self.data_size as nat);
        }
        if offset < limit {
            proof {
                assert(arena@[self.segment as int] == arena.segments@[self.segment as int]@);
                assert((offset + 1) * (8 * w) == 8 * (offset * w + w)) by (nonlinear_arith);
            }
            let bits = load_le(&arena.segments[self.segment], self.data + offset * w, w);
            proof {
                lemma_le_value_bound(
                    arena@[self.segment as int].subrange(
                        self.data + offset * w,
                        self.data + offset * w + w,
                    ),
                );
            }
            T::from_bits(bits)
        } else {
            T::zero()
        }
    }

    /// Reads bool field `offset`.
    pub fn get_bool_field(&self, arena: &ReaderArena, offset: usize) -> (b: bool)
        requires
            arena.wf(),
            self.wf(arena@),
        ensures
            b == self.spec_bool_field(arena@, offset as nat),
    {
        let mut boffset: u32 = offset as u32;
        if boffset < self.data_size {
            if offset == 0 {
                boffset = self.bit0offset as u32;
            }
            proof {
                assert(arena@[self.segment as int] == arena.segments@[self.segment as int]@);
            }
            let byte = arena.segments[self.segment][self.data + (boffset / 8) as usize];
            byte & (1u8 << (boffset % 8) as u8) != 0
        } else {
            false
        }
    }

    /// Reads data field `offset` of type `T` with the bits of `mask` flipped.
    pub fn get_data_field_mask<T: DataValue>(&self, arena: &ReaderArena, offset: usize, mask: T) -> (v: T)
        requires
            arena.wf(),
            self.wf(arena@),
        ensures
            v == self.spec_data_field::<T>(arena@, offset as nat).spec_mask(mask),
    {
        self.get_data_field::<T>(arena, offset).mask(mask)
    }

    /// Reads bool field `offset`, flipped when `mask` is set.
    pub fn get_bool_field_mask(&self, arena: &ReaderArena, offset: usize, mask: bool) -> (b: bool)
        requires
            arena.wf(),
            self.wf(arena@),
        ensures
            b == (self.spec_bool_field(arena@, offset as nat) != mask),
    {
        self.get_bool_field(arena, offset) != mask
    }

    /// The byte position of pointer `ptr_index`, if the pointer section has it.
    pub open spec fn spec_pointer_ref(self, ptr_index: nat) -> Option<usize> {
        if ptr_index < self.pointer_count {
            Some((self.pointers + 8 * ptr_index) as usize)
        } else {
            None
        }
    }

    /// The pointer `ptr_index` of the pointer section; the null pointer where
    /// the section has no such pointer.
    pub fn get_pointer_field(&self, arena: &ReaderArena, ptr_index: usize) -> (p: PointerReader)
        requires
            arena.wf(),
            self.wf(arena@),
        ensures
            p.wf(arena@),
            ptr_index < self.pointer_count ==> p == (PointerReader {
                segment: self.segment,
                pointer: self.spec_pointer_ref(ptr_index as nat),
                nesting_limit: self.nesting_limit,
            }),
            ptr_index >= self.pointer_count ==> p == PointerReader::spec_default(),
    {
        if ptr_index < self.pointer_count as usize {
            PointerReader {
                segment: self.segment,
                pointer: Some(self.pointers + 8 * ptr_index),
                nesting_limit: self.nesting_limit,
            }
        } else {
            PointerReader::new_default()
        }
    }

    fn pointer_ref(&self, arena: &ReaderArena, ptr_index: usize) -> (r: Option<usize>)
        requires
            arena.wf(),
            self.wf(arena@),
        ensures
            r == self.spec_pointer_ref(ptr_index as nat),
            ref_in_segment(arena@, self.segment as int, r),
    {
        if ptr_index >= self.pointer_count as usize {
            None
        } else {
            Some(self.pointers + 8 * ptr_index)
        }
    }

    /// Reads the struct that pointer `ptr_index` points at; a missing or null
    /// pointer gives the empty default struct.
    /// Checks the message on the way: where it is malformed, the result is
    /// the error that says how.
    pub fn try_get_struct_field(
        &self,
        arena: &ReaderArena,
        ptr_index: usize,
        _default_value: Option<&[u8]>,
    ) -> (r: Result<StructReader, ReadError>)
        requires
            arena.wf(),
            self.wf(arena@),
        ensures
            r == spec_read_struct_pointer(
                arena@,
                self.segment as int,
                self.spec_pointer_ref(ptr_index as nat),
                self.nesting_limit as int,
            ),
            r matches Ok(s) ==> s.wf(arena@),
    {
        let reff = self.pointer_ref(arena, ptr_index);
        try_read_struct_pointer(arena, self.segment, reff, self.nesting_limit)
    }

    /// Reads the list that pointer `ptr_index` points at, for elements of
    /// size `expected_element_size`; a missing or null pointer gives the
    /// empty list.
    /// Checks the message on the way: where it is malformed, the result is
    /// the error that says how.
    pub fn try_get_list_field(
        &self,
        arena: &ReaderArena,
        ptr_index: usize,
        expected_element_size: FieldSize,
        _default_value: Option<&[u8]>,
    ) -> (r: Result<ListReader, ReadError>)
        requires
            arena.wf(),
            self.wf(arena@),
        ensures
            r == spec_read_list_pointer(
                arena@,
                self.segment as int,
                self.spec_pointer_ref(ptr_index as nat),
                expected_element_size,
                self.nesting_limit as int,
            ),
            r matches Ok(l) ==> l.elements_fit(arena@, 64 * l.struct_pointer_count as nat),
            r matches Ok(l) ==> expected_element_size != FieldSize::POINTER ==> l.elements_fit(
                arena@,
                l.struct_bits(),
            ),
    {
        let reff = self.pointer_ref(arena, ptr_index);
        try_read_list_pointer(arena, self.segment, reff, expected_element_size, self.nesting_limit)
    }

    /// Reads the text that pointer `ptr_index` points at; a missing or null
    /// pointer gives `default_value`.
    /// Checks the message on the way: where it is malformed, the result is
    /// the error that says how.
    pub fn try_get_text_field(
        &self,
        arena: &ReaderArena,
        ptr_index: usize,
        default_value: &str,
    ) -> (r: Result<Vec<u8>, ReadError>)
        requires
            arena.wf(),
            self.wf(arena@),
        ensures
            match spec_read_text_pointer(
                arena@,
                self.segment as int,
                self.spec_pointer_ref(ptr_index as nat),
                default_value.spec_bytes(),
            ) {
                Ok(text) => r matches Ok(v) && v@ == text,
                Err(e) => r == Err::<Vec<u8>, ReadError>(e),
            },
    {
        let reff = self.pointer_ref(arena, ptr_index);
        try_read_text_pointer(arena, self.segment, reff, default_value)
    }

    /// Whether word `location` of segment `segment` lies within the message.
    pub open spec fn root_in_message(segs: Seq<Seq<u8>>, location: nat, segment: nat) -> bool {
        segment < segs.len() && 8 * location + 8 <= segs[segment as int].len()
    }

    /// Reads the root struct of a message through the pointer at word
    /// `location` of segment `segment`; a location outside the message is
    /// out of bounds.
    /// Checks the message on the way: where it is malformed, the result is
    /// the error that says how.
    pub fn try_read_root(
        arena: &ReaderArena,
        location: usize,
        segment: usize,
        nesting_limit: i32,
    ) -> (r: Result<StructReader, ReadError>)
        requires
            arena.wf(),
        ensures
            !Self::root_in_message(arena@, location as nat, segment as nat) ==> r == Err::<
                StructReader,
                ReadError,
            >(ReadError::OutOfBounds),
            Self::root_in_message(arena@, location as nat, segment as nat) ==> r
                == spec_read_struct_pointer(
                arena@,
                segment as int,
                Some((8 * location) as usize),
                nesting_limit as int,
            ),
            r matches Ok(s) ==> s.wf(arena@),
    {
        if segment >= arena.segments.len() {
            return Err(ReadError::OutOfBounds);
        }
        proof {
            assert(arena@[segment as int] == arena.segments@[segment as int]@);
        }
        if location >= arena.segments[segment].len() / 8 {
            return Err(ReadError::OutOfBounds);
        }
        try_read_struct_pointer(arena, segment, Some(8 * location), nesting_limit)
    }
}

/// A type that generated code builds from a struct reader.
pub trait FromStructReader: Sized {
    fn from_struct_reader(reader: StructReader) -> Self;
}

/// A pointer of a message, given by its segment and byte position; `None`
/// stands for a missing pointer, which reads as null.
#[derive(Clone, Copy, Debug, PartialEq, Eq, Structural)]
pub struct PointerReader {
    pub segment: usize,
    pub pointer: Option<usize>,
    pub nesting_limit: i32,
}

impl PointerReader {
    pub open spec fn spec_default() -> PointerReader {
        PointerReader { segment: 0, pointer: None, nesting_limit: 0x7fff_ffff }
    }

    /// The pointer lies within its segment.
    pub open spec fn wf(self, segs: Seq<Seq<u8>>) -> bool {
        ref_in_segment(segs, self.segment as int, self.pointer)
    }

    /// The missing pointer.
    pub fn new_default() -> (p: PointerReader)
        ensures
            p == PointerReader::spec_default(),
    {
        PointerReader { segment: 0, pointer: None, nesting_limit: 0x7fff_ffff }
    }

    /// Whether the pointer is missing or null.
    pub fn is_null(&self, arena: &ReaderArena) -> (b: bool)
        requires
            arena.wf(),
            self.wf(arena@),
        ensures
            b == crate::wire_helpers::pointer_or_null(arena@, self.segment as int, self.pointer).spec_is_null(),
    {
        match self.pointer {
            None => true,
            Some(pos) => {
                proof {
                    assert(arena@[self.segment as int] == arena.segments@[self.segment as int]@);
                }
                crate::wire::WirePointer::read_from(&arena.segments[self.segment], pos).is_null()
            },
        }
    }

    /// Reads the struct the pointer points at.
    /// Checks the message on the way: where it is malformed, the result is
    /// the error that says how.
    pub fn try_get_struct(&self, arena: &ReaderArena) -> (r: Result<StructReader, ReadError>)
        requires
            arena.wf(),
            self.wf(arena@),
        ensures
            r == spec_read_struct_pointer(
                arena@,
                self.segment as int,
                self.pointer,
                self.nesting_limit as int,
            ),
            r matches Ok(s) ==> s.wf(arena@),
    {
        try_read_struct_pointer(arena, self.segment, self.pointer, self.nesting_limit)
    }

    /// Reads the list the pointer points at, for elements of size
    /// `expected_element_size`.
    /// Checks the message on the way: where it is malformed, the result is
    /// the error that says how.
    pub fn try_get_list(&self, arena: &ReaderArena, expected_element_size: FieldSize) -> (r: Result<
        ListReader,
        ReadError,
    >)
        requires
            arena.wf(),
            self.wf(arena@),
        ensures
            r == spec_read_list_pointer(
                arena@,
                self.segment as int,
                self.pointer,
                expected_element_size,
                self.nesting_limit as int,
            ),
            r matches Ok(l) ==> l.elements_fit(arena@, 64 * l.struct_pointer_count as nat),
            r matches Ok(l) ==> expected_element_size != FieldSize::POINTER ==> l.elements_fit(
                arena@,
                l.struct_bits(),
            ),
    {
        try_read_list_pointer(arena, self.segment, self.pointer, expected_element_size, self.nesting_limit)
    }
}

impl ListReader {
    /// Element `index` read as a struct.
    pub open spec fn spec_struct_element(self, index: nat) -> StructReader {
        let index_bit = index * self.step;
        let data = self.ptr + index_bit / 8;
        StructReader {
            segment: self.segment,
            data: data as usize,
            pointers: (data + self.struct_data_size / 8) as usize,
            data_size: self.struct_data_size,
            pointer_count: self.struct_pointer_count,
            bit0offset: (index_bit % 8) as u8,
            nesting_limit: (self.nesting_limit - 1) as i32,
        }
    }

    /// Reads element `index` as a struct.
    /// Checks the message on the way: where it is malformed, the result is
    /// the error that says how.
    pub fn try_get_struct_element(&self, arena: &ReaderArena, index: usize) -> (r: Result<
        StructReader,
        ReadError,
    >)
        requires
            arena.wf(),
            index < self.element_count,
            self.elements_fit(arena@, self.struct_bits()),
        ensures
            self.nesting_limit <= 0 ==> r == Err::<StructReader, ReadError>(ReadError::NestingLimitExceeded),
            self.nesting_limit > 0 ==> r == Ok::<StructReader, ReadError>(self.spec_struct_element(index as nat)),
            r matches Ok(s) ==> s.wf(arena@),
    {
        if self.nesting_limit <= 0 {
            return Err(ReadError::NestingLimitExceeded);
        }
        proof {
            lemma_element_position(index as int, self.element_count as int, self.step as int);
        }
        let index_bit: u64 = index as u64 * self.step as u64;
        let data = self.ptr + (index_bit / 8) as usize;
        let pointers = data + (self.struct_data_size / 8) as usize;
        Ok(
            StructReader {
                segment: self.segment,
                data: data,
                pointers: pointers,
                data_size: self.struct_data_size,
                pointer_count: self.struct_pointer_count,
                bit0offset: (index_bit % 8) as u8,
                nesting_limit: self.nesting_limit - 1,
            },
        )
    }
}

/// An earlier element starts no later than the last one.
pub proof fn lemma_element_position(index: int, count: int, step: int)
    requires
        0 <= index < count,
        0 <= step,
    ensures
        index * step <= (count - 1) * step,
{
    assert(index * step <= (count - 1) * step) by (nonlinear_arith)
        requires
            0 <= index <= count - 1,
            0 <= step,
    ;
}

impl StructReader {
    /// Reads the struct that pointer `ptr_index` points at, where the message
    /// holds a struct there (see `try_get_struct_field`); a missing or null
    /// pointer gives the empty default struct.
    pub fn get_struct_field(
        &self,
        arena: &ReaderArena,
        ptr_index: usize,
        default_value: Option<&[u8]>,
    ) -> (r: StructReader)
        requires
            arena.wf(),
            self.wf(arena@),
            spec_read_struct_pointer(
                arena@,
                self.segment as int,
                self.spec_pointer_ref(ptr_index as nat),
                self.nesting_limit as int,
            ) is Ok,
        ensures
            Ok::<StructReader, ReadError>(r) == spec_read_struct_pointer(
                arena@,
                self.segment as int,
                self.spec_pointer_ref(ptr_index as nat),
                self.nesting_limit as int,
            ),
            r.wf(arena@),
    {
        match self.try_get_struct_field(arena, ptr_index, default_value) {
            Ok(r) => r,
            Err(_) => StructReader::new_default(),
        }
    }

    /// Reads the list that pointer `ptr_index` points at, for elements of
    /// size `expected_element_size`, where the message holds such a list
    /// there (see `try_get_list_field`); a missing or null pointer gives the
    /// empty list.
    pub fn get_list_field(
        &self,
        arena: &ReaderArena,
        ptr_index: usize,
        expected_element_size: FieldSize,
        default_value: Option<&[u8]>,
    ) -> (r: ListReader)
        requires
            arena.wf(),
            self.wf(arena@),
            spec_read_list_pointer(
                arena@,
                self.segment as int,
                self.spec_pointer_ref(ptr_index as nat),
                expected_element_size,
                self.nesting_limit as int,
            ) is Ok,
        ensures
            Ok::<ListReader, ReadError>(r) == spec_read_list_pointer(
                arena@,
                self.segment as int,
                self.spec_pointer_ref(ptr_index as nat),
                expected_element_size,
                self.nesting_limit as int,
            ),
            r.elements_fit(arena@, 64 * r.struct_pointer_count as nat),
            expected_element_size != FieldSize::POINTER ==> r.elements_fit(arena@, r.struct_bits()),
    {
        match self.try_get_list_field(arena, ptr_index, expected_element_size, default_value) {
            Ok(r) => r,
            Err(_) => ListReader::new_default(),
        }
    }

    /// Reads the text that pointer `ptr_index` points at, where the message
    /// holds text there (see `try_get_text_field`); a missing or null pointer
    /// gives `default_value`.
    pub fn get_text_field(&self, arena: &ReaderArena, ptr_index: usize, default_value: &str) -> (r:
        Vec<u8>)
        requires
            arena.wf(),
            self.wf(arena@),
            spec_read_text_pointer(
                arena@,
                self.segment as int,
                self.spec_pointer_ref(ptr_index as nat),
                default_value.spec_bytes(),
            ) is Ok,
        ensures
            Ok::<Seq<u8>, ReadError>(r@) == spec_read_text_pointer(
                arena@,
                self.segment as int,
                self.spec_pointer_ref(ptr_index as nat),
                default_value.spec_bytes(),
            ),
    {
        match self.try_get_text_field(arena, ptr_index, default_value) {
            Ok(r) => r,
            Err(_) => Vec::new(),
        }
    }

    /// Reads the root struct of a message through the pointer at word
    /// `location` of segment `segment`, where that word lies within the
    /// message and leads to a struct (see `try_read_root`).
    pub fn read_root(
        arena: &ReaderArena,
        location: usize,
        segment: usize,
        nesting_limit: i32,
    ) -> (r: StructReader)
        requires
            arena.wf(),
            Self::root_in_message(arena@, location as nat, segment as nat),
            spec_read_struct_pointer(
                arena@,
                segment as int,
                Some((8 * location) as usize),
                nesting_limit as int,
            ) is Ok,
        ensures
            Ok::<StructReader, ReadError>(r) == spec_read_struct_pointer(
                arena@,
                segment as int,
                Some((8 * location) as usize),
                nesting_limit as int,
            ),
            r.wf(arena@),
    {
        match Self::try_read_root(arena, location, segment, nesting_limit) {
            Ok(r) => r,
            Err(_) => StructReader::new_default(),
        }
    }
}

impl PointerReader {
    /// Reads the struct the pointer points at, where the message holds one
    /// there (see `try_get_struct`).
    pub fn get_struct(&self, arena: &ReaderArena) -> (r: StructReader)
        requires
            arena.wf(),
            self.wf(arena@),
            spec_read_struct_pointer(
                arena@,
                self.segment as int,
                self.pointer,
                self.nesting_limit as int,
            ) is Ok,
        ensures
            Ok::<StructReader, ReadError>(r) == spec_read_struct_pointer(
                arena@,
                self.segment as int,
                self.pointer,
                self.nesting_limit as int,
            ),
            r.wf(arena@),
    {
        match self.try_get_struct(arena) {
            Ok(r) => r,
            Err(_) => StructReader::new_default(),
        }
    }

    /// Reads the list the pointer points at, for elements of size
    /// `expected_element_size`, where the message holds such a list there
    /// (see `try_get_list`).
    pub fn get_list(&self, arena: &ReaderArena, expected_element_size: FieldSize) -> (r: ListReader)
        requires
            arena.wf(),
            self.wf(arena@),
            spec_read_list_pointer(
                arena@,
                self.segment as int,
                self.pointer,
                expected_element_size,
                self.nesting_limit as int,
            ) is Ok,
        ensures
            Ok::<ListReader, ReadError>(r) == spec_read_list_pointer(
                arena@,
                self.segment as int,
                self.pointer,
                expected_element_size,
                self.nesting_limit as int,
            ),
            r.elements_fit(arena@, 64 * r.struct_pointer_count as nat),
            expected_element_size != FieldSize::POINTER ==> r.elements_fit(arena@, r.struct_bits()),
    {
        match self.try_get_list(arena, expected_element_size) {
            Ok(r) => r,
            Err(_) => ListReader::new_default(),
        }
    }
}

impl ListReader {
    /// Reads element `index` as a struct, where reading may go one level
    /// deeper (see `try_get_struct_element`).
    pub fn get_struct_element(&self, arena: &ReaderArena, index: usize) -> (r: StructReader)
        requires
            arena.wf(),
            index < self.element_count,
            self.elements_fit(arena@, self.struct_bits()),
            self.nesting_limit > 0,
        ensures
            r == self.spec_struct_element(index as nat),
            r.wf(arena@),
    {
        match self.try_get_struct_element(arena, index) {
            Ok(r) => r,
            Err(_) => StructReader::new_default(),
        }
    }
}

} // verus!
