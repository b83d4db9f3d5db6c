//! The wire encoding of pointers: field sizes, pointer kinds, and the three
//! interpretations of a pointer's upper half (struct, list and far
//! references).
use vstd::prelude::*;
use crate::le::{read_le, write_le, load_le, store_le, lemma_write_le, lemma_le_value_bound,
    lemma_pow256_values, pow256};

verus! {

/// How large each element of a list is.
#[allow(non_camel_case_types)]
#[derive(Clone, Copy, Debug, PartialEq, Eq, Structural)]
pub enum FieldSize {
    VOID,
    BIT,
    BYTE,
    TWO_BYTES,
    FOUR_BYTES,
    EIGHT_BYTES,
    POINTER,
    INLINE_COMPOSITE,
}

impl FieldSize {
    /// The three-bit code of the size on the wire.
    pub open spec fn code(self) -> nat {
        match self {
            FieldSize::VOID => 0,
            FieldSize::BIT => 1,
            FieldSize::BYTE => 2,
            FieldSize::TWO_BYTES => 3,
            FieldSize::FOUR_BYTES => 4,
            FieldSize::EIGHT_BYTES => 5,
            FieldSize::POINTER => 6,
            FieldSize::INLINE_COMPOSITE => 7,
        }
    }

    /// The size whose code is `c`.
    pub open spec fn of_code(c: nat) -> FieldSize {
        if c == 0 {
            FieldSize::VOID
        } else if c == 1 {
            FieldSize::BIT
        } else if c == 2 {
            FieldSize::BYTE
        } else if c == 3 {
            FieldSize::TWO_BYTES
        } else if c == 4 {
            FieldSize::FOUR_BYTES
        } else if c == 5 {
            FieldSize::EIGHT_BYTES
        } else if c == 6 {
            FieldSize::POINTER
        } else {
            FieldSize::INLINE_COMPOSITE
        }
    }

    /// Returns the size's three-bit code.
    pub fn to_code(&self) -> (c: u32)
        ensures
            c == self.code(),
            c < 8,
    {
        match self {
            FieldSize::VOID => 0,
            FieldSize::BIT => 1,
            FieldSize::BYTE => 2,
            FieldSize::TWO_BYTES => 3,
            FieldSize::FOUR_BYTES => 4,
            FieldSize::EIGHT_BYTES => 5,
            FieldSize::POINTER => 6,
            FieldSize::INLINE_COMPOSITE => 7,
        }
    }

    /// Returns the size whose code is `c`.
    pub fn from_code(c: u32) -> (s: FieldSize)
        requires
            c < 8,
        ensures
            s == FieldSize::of_code(c as nat),
            s.code() == c,
    {
        if c == 0 {
            FieldSize::VOID
        } else if c == 1 {
            FieldSize::BIT
        } else if c == 2 {
            FieldSize::BYTE
        } else if c == 3 {
            FieldSize::TWO_BYTES
        } else if c == 4 {
            FieldSize::FOUR_BYTES
        } else if c == 5 {
            FieldSize::EIGHT_BYTES
        } else if c == 6 {
            FieldSize::POINTER
        } else {
            FieldSize::INLINE_COMPOSITE
        }
    }
}

/// Bits of data in one element of a list of the given size.
pub open spec fn spec_data_bits_per_element(size: FieldSize) -> nat {
    match size {
        FieldSize::VOID => 0,
        FieldSize::BIT => 1,
        FieldSize::BYTE => 8,
        FieldSize::TWO_BYTES => 16,
        FieldSize::FOUR_BYTES => 32,
        FieldSize::EIGHT_BYTES => 64,
        FieldSize::POINTER => 0,
        FieldSize::INLINE_COMPOSITE => 0,
    }
}

/// Pointers in one element of a list of the given size.
pub open spec fn spec_pointers_per_element(size: FieldSize) -> nat {
    match size {
        FieldSize::POINTER => 1,
        _ => 0,
    }
}

/// Bits of data in one element of a list of the given size.
pub fn data_bits_per_element(size: FieldSize) -> (bits: usize)
    ensures
        bits == spec_data_bits_per_element(size),
{
    match size {
        FieldSize::VOID => 0,
        FieldSize::BIT => 1,
        FieldSize::BYTE => 8,
        FieldSize::TWO_BYTES => 16,
        FieldSize::FOUR_BYTES => 32,
        FieldSize::EIGHT_BYTES => 64,
        FieldSize::POINTER => 0,
        FieldSize::INLINE_COMPOSITE => 0,
    }
}

/// Pointers in one element of a list of the given size.
pub fn pointers_per_element(size: FieldSize) -> (count: usize)
    ensures
        count == spec_pointers_per_element(size),
{
    match size {
        FieldSize::POINTER => 1,
        _ => 0,
    }
}

/// The kinds of types a schema field can have.
#[allow(non_camel_case_types)]
#[derive(Clone, Copy, Debug, PartialEq, Eq, Structural)]
pub enum Kind {
    PRIMITIVE,
    BLOB,
    ENUM,
    STRUCT,
    UNION,
    INTERFACE,
    LIST,
    UNKNOWN,
}

/// The size of a struct: its data section in words, its pointer section in
/// pointers, and the list encoding preferred for lists of it.
#[derive(Clone, Copy, Debug, PartialEq, Eq, Structural)]
pub struct StructSize {
    pub data: u16,
    pub pointers: u16,
    pub preferred_list_encoding: FieldSize,
}

impl StructSize {
    /// Total size of the struct in words.
    pub fn total(&self) -> (words: usize)
        ensures
            words == self.data + self.pointers,
    {
        self.data as usize + self.pointers as usize
    }
}

/// The two-bit kind of a wire pointer.
#[allow(non_camel_case_types)]
#[derive(Clone, Copy, Debug, PartialEq, Eq, Structural)]
pub enum WirePointerKind {
    WP_STRUCT,
    WP_LIST,
    WP_FAR,
    WP_CAPABILITY,
}

impl WirePointerKind {
    /// The two-bit code of the kind on the wire.
    pub open spec fn code(self) -> nat {
        match self {
            WirePointerKind::WP_STRUCT => 0,
            WirePointerKind::WP_LIST => 1,
            WirePointerKind::WP_FAR => 2,
            WirePointerKind::WP_CAPABILITY => 3,
        }
    }

    /// The kind whose code is `c`.
    pub open spec fn of_code(c: nat) -> WirePointerKind {
        if c == 0 {
            WirePointerKind::WP_STRUCT
        } else if c == 1 {
            WirePointerKind::WP_LIST
        } else if c == 2 {
            WirePointerKind::WP_FAR
        } else {
            WirePointerKind::WP_CAPABILITY
        }
    }

    /// Returns the kind's two-bit code.
    pub fn to_code(&self) -> (c: u32)
        ensures
            c == self.code(),
            c < 4,
    {
        match self {
            WirePointerKind::WP_STRUCT => 0,
            WirePointerKind::WP_LIST => 1,
            WirePointerKind::WP_FAR => 2,
            WirePointerKind::WP_CAPABILITY => 3,
        }
    }
}

/// The upper half of a struct pointer: the sizes of the struct's two sections.
#[derive(Clone, Copy, Debug, PartialEq, Eq, Structural)]
pub struct StructRef {
    pub data_size: u16,
    pub ptr_count: u16,
}

/// The upper half of a list pointer: element size (three bits) and element
/// count (29 bits; for inline-composite lists, the word count).
#[derive(Clone, Copy, Debug, PartialEq, Eq, Structural)]
pub struct ListRef {
    pub element_size_and_count: u32,
}

/// The upper half of a far pointer: the segment that holds the landing pad.
#[derive(Clone, Copy, Debug, PartialEq, Eq, Structural)]
pub struct FarRef {
    pub segment_id: u32,
}

/// A pointer as it is stored on the wire: a lower half holding the kind
/// (two bits) and an offset or count, and an upper half interpreted per kind.
#[derive(Clone, Copy, Debug, PartialEq, Eq, Structural)]
pub struct WirePointer {
    pub offset_and_kind: u32,
    pub upper32bits: u32,
}

impl StructRef {
    /// Size of the struct in words.
    pub open spec fn spec_word_size(self) -> nat {
        (self.data_size + self.ptr_count) as nat
    }

    /// Size of the struct in words.
    pub fn word_size(&self) -> (words: usize)
        ensures
            words == self.spec_word_size(),
    {
        self.data_size as usize + self.ptr_count as usize
    }

    /// Records the sizes of `size`.
    pub fn set(&mut self, size: StructSize)
        ensures
            final(self).data_size == size.data,
            final(self).ptr_count == size.pointers,
    {
        self.data_size = size.data;
        self.ptr_count = size.pointers;
    }

    /// The upper half of a pointer that holds this reference.
    pub open spec fn bits(self) -> u32 {
        (self.data_size + 0x1_0000 * self.ptr_count) as u32
    }
}

impl ListRef {
    pub open spec fn spec_element_size(self) -> FieldSize {
        FieldSize::of_code((self.element_size_and_count % 8) as nat)
    }

    pub open spec fn spec_element_count(self) -> nat {
        (self.element_size_and_count / 8) as nat
    }

    /// The size of each element.
    pub fn element_size(&self) -> (s: FieldSize)
        ensures
            s == self.spec_element_size(),
    {
        FieldSize::from_code(self.element_size_and_count % 8)
    }

    /// The number of elements.
    pub fn element_count(&self) -> (n: usize)
        ensures
            n == self.spec_element_count(),
    {
        (self.element_size_and_count / 8) as usize
    }

    /// For an inline-composite list: the number of words after the tag.
    pub fn inline_composite_word_count(&self) -> (n: usize)
        ensures
            n == self.spec_element_count(),
    {
        self.element_count()
    }

    /// Records element size `es` and element count `ec`.
    pub fn set(&mut self, es: FieldSize, ec: usize)
        requires
            ec < 0x2000_0000,
        ensures
            final(self).element_size_and_count == ec * 8 + es.code(),
            final(self).spec_element_size() == es,
            final(self).spec_element_count() == ec,
    {
        self.element_size_and_count = (ec as u32) * 8 + es.to_code();
    }

    /// Records an inline-composite list of `wc` words.
    pub fn set_inline_composite(&mut self, wc: usize)
        requires
            wc < 0x2000_0000,
        ensures
            final(self).element_size_and_count == wc * 8 + 7,
            final(self).spec_element_size() == FieldSize::INLINE_COMPOSITE,
            final(self).spec_element_count() == wc,
    {
        self.element_size_and_count = (wc as u32) * 8 + 7;
    }
}

/// The wire pointer stored in the eight bytes at `pos` of `s`.
pub open spec fn wire_pointer_at(s: Seq<u8>, pos: int) -> WirePointer {
    WirePointer {
        offset_and_kind: read_le(s, pos, 4) as u32,
        upper32bits: read_le(s, pos + 4, 4) as u32,
    }
}

/// `s` with the wire pointer `p` stored in the eight bytes at `pos`.
pub open spec fn write_wire_pointer(s: Seq<u8>, pos: int, p: WirePointer) -> Seq<u8> {
    write_le(write_le(s, pos, 4, p.offset_and_kind as nat), pos + 4, 4, p.upper32bits as nat)
}

/// Storing a pointer and loading it back gives the same pointer; no byte
/// outside the eight bytes changes.
pub proof fn lemma_write_wire_pointer(s: Seq<u8>, pos: int, p: WirePointer)
    requires
        0 <= pos,
        pos + 8 <= s.len(),
    ensures
        write_wire_pointer(s, pos, p).len() == s.len(),
        wire_pointer_at(write_wire_pointer(s, pos, p), pos) == p,
        forall|i: int|
            0 <= i < s.len() && !(pos <= i < pos + 8) ==> #[trigger] write_wire_pointer(
                s,
                pos,
                p,
            )[i] == s[i],
{
    let s1 = write_le(s, pos, 4, p.offset_and_kind as nat);
    lemma_write_le(s, pos, 4, p.offset_and_kind as nat);
    lemma_write_le(s1, pos + 4, 4, p.upper32bits as nat);
    let s2 = write_le(s1, pos + 4, 4, p.upper32bits as nat);
    assert(s2.subrange(pos, pos + 4) =~= s1.subrange(pos, pos + 4));
    lemma_pow256_values();
    assert(read_le(s1, pos, 4) == p.offset_and_kind as nat % pow256(4));
    assert(read_le(s2, pos, 4) == read_le(s1, pos, 4));
    assert(read_le(s2, pos + 4, 4) == p.upper32bits as nat % pow256(4));
    assert(p.offset_and_kind as nat % 0x1_0000_0000 == p.offset_and_kind);
    assert(p.upper32bits as nat % 0x1_0000_0000 == p.upper32bits);
    assert(wire_pointer_at(s2, pos).offset_and_kind == p.offset_and_kind);
    assert(wire_pointer_at(s2, pos).upper32bits == p.upper32bits);
}

/// The offset field that points a pointer at byte `this` at byte `target`:
/// the byte distance divided by the word size, rounding toward zero, less one.
pub open spec fn word_offset(this: int, target: int) -> int {
    let d = target - this;
    (if d >= 0 {
        d / 8
    } else {
        -((-d) / 8)
    }) - 1
}

impl WirePointer {
    /// The pointer's kind code: its two low bits.
    pub open spec fn kind_code(self) -> nat {
        (self.offset_and_kind % 4) as nat
    }

    pub open spec fn spec_kind(self) -> WirePointerKind {
        WirePointerKind::of_code(self.kind_code())
    }

    /// The offset field in words: the upper 30 bits of the lower half, read
    /// as an unsigned number.
    pub open spec fn offset_words(self) -> nat {
        (self.offset_and_kind / 4) as nat
    }

    /// The byte position of the target of a pointer stored at byte `pos`:
    /// the word after the pointer, moved on by the offset.
    pub open spec fn spec_target(self, pos: int) -> int {
        pos + 8 + 8 * self.offset_words()
    }

    pub open spec fn spec_far_position(self) -> nat {
        (self.offset_and_kind / 8) as nat
    }

    pub open spec fn spec_is_double_far(self) -> bool {
        (self.offset_and_kind / 4) % 2 == 1
    }

    pub open spec fn spec_struct_ref(self) -> StructRef {
        StructRef {
            data_size: (self.upper32bits % 0x1_0000) as u16,
            ptr_count: (self.upper32bits / 0x1_0000) as u16,
        }
    }

    pub open spec fn spec_list_ref(self) -> ListRef {
        ListRef { element_size_and_count: self.upper32bits }
    }

    pub open spec fn spec_far_ref(self) -> FarRef {
        FarRef { segment_id: self.upper32bits }
    }

    pub open spec fn spec_is_null(self) -> bool {
        self.offset_and_kind == 0 && self.upper32bits == 0
    }

    /// The null pointer: all zero bits.
    pub fn null() -> (p: WirePointer)
        ensures
            p.spec_is_null(),
    {
        WirePointer { offset_and_kind: 0, upper32bits: 0 }
    }

    /// Loads the pointer stored at byte `pos` of `s`.
    pub fn read_from(s: &Vec<u8>, pos: usize) -> (p: WirePointer)
        requires
            pos + 8 <= s.len(),
        ensures
            p == wire_pointer_at(s@, pos as int),
    {
        let lo = load_le(s, pos, 4);
        let hi = load_le(s, pos + 4, 4);
        proof {
            lemma_le_value_bound(s@.subrange(pos as int, pos + 4));
            lemma_le_value_bound(s@.subrange(pos + 4, pos + 8));
            lemma_pow256_values();
        }
        WirePointer { offset_and_kind: lo as u32, upper32bits: hi as u32 }
    }

    /// Stores the pointer at byte `pos` of `s`.
    pub fn write_to(&self, s: &mut Vec<u8>, pos: usize)
        requires
            pos + 8 <= old(s).len(),
        ensures
            final(s)@ == write_wire_pointer(old(s)@, pos as int, *self),
    {
        proof {
            lemma_write_le(old(s)@, pos as int, 4, self.offset_and_kind as nat);
        }
        store_le(s, pos, 4, self.offset_and_kind as u64);
        store_le(s, pos + 4, 4, self.upper32bits as u64);
    }

    /// The pointer's kind.
    pub fn kind(&self) -> (k: WirePointerKind)
        ensures
            k == self.spec_kind(),
            k.code() == self.kind_code(),
    {
        let c = self.offset_and_kind % 4;
        if c == 0 {
            WirePointerKind::WP_STRUCT
        } else if c == 1 {
            WirePointerKind::WP_LIST
        } else if c == 2 {
            WirePointerKind::WP_FAR
        } else {
            WirePointerKind::WP_CAPABILITY
        }
    }

    /// The byte position of the target of this pointer, stored at byte `pos`.
    pub fn target(&self, pos: usize) -> (t: usize)
        requires
            self.spec_target(pos as int) <= usize::MAX,
        ensures
            t == self.spec_target(pos as int),
    {
        pos + 8 + 8 * (self.offset_and_kind / 4) as usize
    }

    /// The byte position of the target of this pointer, stored at byte `pos`,
    /// for writing.
    pub fn mut_target(&mut self, pos: usize) -> (t: usize)
        requires
            old(self).spec_target(pos as int) <= usize::MAX,
        ensures
            t == old(self).spec_target(pos as int),
            *final(self) == *old(self),
    {
        self.target(pos)
    }

    /// Points this pointer, stored at byte `this`, at byte `target` with the
    /// given kind. The offset is the byte distance divided by the word size
    /// (rounding toward zero), less one, kept modulo the 30 bits of the field.
    pub fn set_kind_and_target(&mut self, kind: WirePointerKind, target: usize, this: usize)
        ensures
            final(self).offset_and_kind == (word_offset(this as int, target as int) % 0x4000_0000)
                * 4 + kind.code(),
            final(self).upper32bits == old(self).upper32bits,
            final(self).spec_kind() == kind,
            this + 8 <= target && (target - this) % 8 == 0 && (target - this) / 8 - 1
                < 0x4000_0000 ==> final(self).spec_target(this as int) == target,
    {
        let off: usize = if target >= this {
            let q = (target - this) / 8;
            if q == 0 {
                0x3FFF_FFFF
            } else {
                (q - 1) % 0x4000_0000
            }
        } else {
            0x3FFF_FFFF - (this - target) / 8 % 0x4000_0000
        };
        proof {
            let w = word_offset(this as int, target as int);
            if target < this {
                let q = (this - target) / 8;
                vstd::arithmetic::div_mod::lemma_fundamental_div_mod_converse(
                    w,
                    0x4000_0000,
                    -(q / 0x4000_0000) - 1,
                    0x3FFF_FFFF - q % 0x4000_0000,
                );
            } else if (target - this) / 8 == 0 {
                vstd::arithmetic::div_mod::lemma_fundamental_div_mod_converse(
                    w,
                    0x4000_0000,
                    -1,
                    0x3FFF_FFFF,
                );
            }
        }
        self.offset_and_kind = (off as u32) * 4 + kind.to_code();
    }

    /// Sets the kind and clears the offset.
    pub fn set_kind_with_zero_offset(&mut self, kind: WirePointerKind)
        ensures
            final(self).offset_and_kind == kind.code(),
            final(self).upper32bits == old(self).upper32bits,
            final(self).spec_kind() == kind,
    {
        self.offset_and_kind = kind.to_code();
    }

    /// For the tag of an inline-composite list: the number of elements.
    pub fn inline_composite_list_element_count(&self) -> (n: usize)
        ensures
            n == self.offset_words(),
    {
        (self.offset_and_kind / 4) as usize
    }

    /// Sets the kind and an element count, kept modulo the 30 bits of the field.
    pub fn set_kind_and_inline_composite_list_element_count(
        &mut self,
        kind: WirePointerKind,
        element_count: usize,
    )
        ensures
            final(self).offset_and_kind == (element_count % 0x4000_0000) * 4 + kind.code(),
            final(self).upper32bits == old(self).upper32bits,
            final(self).spec_kind() == kind,
            element_count < 0x4000_0000 ==> final(self).offset_words() == element_count,
    {
        self.offset_and_kind = ((element_count % 0x4000_0000) as u32) * 4 + kind.to_code();
    }

    /// For a far pointer: the word position of the landing pad in its segment.
    pub fn far_position_in_segment(&self) -> (pos: usize)
        ensures
            pos == self.spec_far_position(),
    {
        (self.offset_and_kind / 8) as usize
    }

    /// For a far pointer: whether the landing pad is itself a far pointer
    /// followed by a tag.
    pub fn is_double_far(&self) -> (b: bool)
        ensures
            b == self.spec_is_double_far(),
    {
        (self.offset_and_kind / 4) % 2 == 1
    }

    /// Makes this a far pointer to word `pos` of its segment, kept modulo the
    /// 29 bits of the field.
    pub fn set_far(&mut self, is_double_far: bool, pos: usize)
        ensures
            final(self).offset_and_kind == (pos % 0x2000_0000) * 8 + (if is_double_far {
                4int
            } else {
                0int
            }) + 2,
            final(self).upper32bits == old(self).upper32bits,
            final(self).spec_kind() == WirePointerKind::WP_FAR,
            final(self).spec_is_double_far() == is_double_far,
            pos < 0x2000_0000 ==> final(self).spec_far_position() == pos,
    {
        let d: u32 = if is_double_far {
            4
        } else {
            0
        };
        self.offset_and_kind = ((pos % 0x2000_0000) as u32) * 8 + d + 2;
    }

    /// The upper half read as a struct reference.
    pub fn struct_ref(&self) -> (r: StructRef)
        ensures
            r == self.spec_struct_ref(),
    {
        StructRef {
            data_size: (self.upper32bits % 0x1_0000) as u16,
            ptr_count: (self.upper32bits / 0x1_0000) as u16,
        }
    }

    /// Stores `r` in the upper half.
    pub fn set_struct_ref(&mut self, r: StructRef)
        ensures
            final(self).offset_and_kind == old(self).offset_and_kind,
            final(self).upper32bits == r.bits(),
            final(self).spec_struct_ref() == r,
    {
        self.upper32bits = r.data_size as u32 + 0x1_0000 * (r.ptr_count as u32);
    }

    /// The upper half read as a list reference.
    pub fn list_ref(&self) -> (r: ListRef)
        ensures
            r == self.spec_list_ref(),
    {
        ListRef { element_size_and_count: self.upper32bits }
    }

    /// Stores `r` in the upper half.
    pub fn set_list_ref(&mut self, r: ListRef)
        ensures
            final(self).offset_and_kind == old(self).offset_and_kind,
            final(self).spec_list_ref() == r,
    {
        self.upper32bits = r.element_size_and_count;
    }

    /// The upper half read as a far reference.
    pub fn far_ref(&self) -> (r: FarRef)
        ensures
            r == self.spec_far_ref(),
    {
        FarRef { segment_id: self.upper32bits }
    }

    /// Stores `r` in the upper half.
    pub fn set_far_ref(&mut self, r: FarRef)
        ensures
            final(self).offset_and_kind == old(self).offset_and_kind,
            final(self).spec_far_ref() == r,
    {
        self.upper32bits = r.segment_id;
    }

    /// Whether all bits of the pointer are zero.
    pub fn is_null(&self) -> (b: bool)
        ensures
            b == self.spec_is_null(),
    {
        self.offset_and_kind == 0 && self.upper32bits == 0
    }
}

} // verus!
