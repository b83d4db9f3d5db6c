//! Following, reading and bounds-checking pointers in a message.
use vstd::prelude::*;
use vstd::string::StringSliceAdditionalSpecFns;
use crate::arena::{ReaderArena, segment_byte_limit};
use crate::le::read_le;
use crate::wire::{
    FieldSize, WirePointer, WirePointerKind, wire_pointer_at, data_bits_per_element,
    pointers_per_element, spec_data_bits_per_element, spec_pointers_per_element,
};
use crate::reader::{ReadError, StructReader, ListReader};

verus! {

/// Rounds a byte count up to whole words.
pub fn round_bytes_up_to_words(bytes: usize) -> (words: usize)
    requires
        bytes + 7 <= usize::MAX,
    ensures
        words == (bytes + 7) / 8,
{
    (bytes + 7) / 8
}

/// Rounds a bit count up to whole words.
pub fn round_bits_up_to_words(bits: u64) -> (words: usize)
    requires
        bits + 63 <= u64::MAX,
        (bits + 63) / 64 <= usize::MAX,
    ensures
        words == (bits + 63) / 64,
{
    ((bits + 63) / 64) as usize
}

/// Rounds a bit count up to whole bytes.
pub fn round_bits_up_to_bytes(bits: u64) -> (bytes: usize)
    requires
        bits + 7 <= u64::MAX,
        (bits + 7) / 8 <= usize::MAX,
    ensures
        bytes == (bits + 7) / 8,
{
    ((bits + 7) / 8) as usize
}

/// Whether the bytes `[start, end)` lie within segment `segment`.
pub open spec fn spec_bounds_check(segs: Seq<Seq<u8>>, segment: int, start: int, end: int) -> bool {
    start <= end && end <= segs[segment].len()
}

/// Whether the bytes `[start, end)` lie within segment `segment`.
pub fn bounds_check(arena: &ReaderArena, segment: usize, start: u64, end: u64) -> (ok: bool)
    requires
        segment < arena@.len(),
    ensures
        ok == spec_bounds_check(arena@, segment as int, start as int, end as int),
{
    start <= end && end <= arena.segments[segment].len() as u64
}

/// What following a pointer `reff` that sits in segment `segment` and points
/// at byte `ref_target` leads to: the pointer that describes the object (the
/// tag), the segment of the object and the object's byte position. A far
/// pointer leads through its landing pad: a single pad is itself the pointer
/// to the object; a double pad is a far pointer to the object's start followed
/// by the tag.
pub open spec fn spec_follow_fars(
    segs: Seq<Seq<u8>>,
    reff: WirePointer,
    ref_target: int,
    segment: int,
) -> Result<(WirePointer, int, int), ReadError> {
    if reff.spec_kind() == WirePointerKind::WP_FAR {
        let id = reff.spec_far_ref().segment_id as int;
        let pad_pos: int = 8 * reff.spec_far_position() as int;
        let pad_words: int = if reff.spec_is_double_far() {
            2
        } else {
            1
        };
        if id >= segs.len() {
            Err(ReadError::UnknownSegment)
        } else if !spec_bounds_check(segs, id, pad_pos, pad_pos + 8 * pad_words) {
            Err(ReadError::OutOfBounds)
        } else {
            let pad = wire_pointer_at(segs[id], pad_pos);
            if !reff.spec_is_double_far() {
                Ok((pad, id, pad.spec_target(pad_pos)))
            } else {
                let tag = wire_pointer_at(segs[id], pad_pos + 8);
                let id2 = pad.spec_far_ref().segment_id as int;
                if id2 >= segs.len() {
                    Err(ReadError::UnknownSegment)
                } else {
                    Ok((tag, id2, 8 * pad.spec_far_position() as int))
                }
            }
        }
    } else {
        Ok((reff, segment, ref_target))
    }
}

/// The byte position of the target of `p` stored at byte `pos`, without
/// overflow for any position within a segment.
pub fn target_of(p: &WirePointer, pos: usize) -> (t: u64)
    requires
        pos < segment_byte_limit(),
    ensures
        t == p.spec_target(pos as int),
{
    pos as u64 + 8 + 8 * (p.offset_and_kind / 4) as u64
}

/// Follows `reff` through its landing pads, if it is a far pointer. On return
/// `reff` is the tag that describes the object and `segment` the object's
/// segment; the result is the object's byte position.
/// Checks the message on the way: where it is malformed, the result is
/// the error that says how.
pub fn try_follow_fars(
    arena: &ReaderArena,
    reff: &mut WirePointer,
    ref_target: u64,
    segment: &mut usize,
) -> (r: Result<u64, ReadError>)
    requires
        arena.wf(),
        *old(segment) < arena@.len(),
        ref_target < segment_byte_limit() + 0x2_0000_0008,
    ensures
        match spec_follow_fars(arena@, *old(reff), ref_target as int, *old(segment) as int) {
            Ok((tag, s, t)) => r == Ok::<u64, ReadError>(t as u64) && *final(reff) == tag
                && *final(segment) == s && t < segment_byte_limit() + 0x2_0000_0008,
            Err(e) => r == Err::<u64, ReadError>(e),
        },
        *final(segment) < arena@.len(),
{
    if reff.kind() == WirePointerKind::WP_FAR {
        let id = reff.far_ref().segment_id as usize;
        if id >= arena.segments.len() {
            return Err(ReadError::UnknownSegment);
        }
        let pad_pos: u64 = 8 * reff.far_position_in_segment() as u64;
        let pad_words: u64 = if reff.is_double_far() {
            2
        } else {
            1
        };
        if !bounds_check(arena, id, pad_pos, pad_pos + 8 * pad_words) {
            return Err(ReadError::OutOfBounds);
        }
        proof {
            assert(arena@[id as int] == arena.segments@[id as int]@);
            assert(arena@[id as int].len() < segment_byte_limit());
        }
        let pad = WirePointer::read_from(&arena.segments[id], pad_pos as usize);
        if !reff.is_double_far() {
            *reff = pad;
            *segment = id;
            Ok(target_of(&pad, pad_pos as usize))
        } else {
            let tag = WirePointer::read_from(&arena.segments[id], pad_pos as usize + 8);
            let id2 = pad.far_ref().segment_id as usize;
            if id2 >= arena.segments.len() {
                return Err(ReadError::UnknownSegment);
            }
            *reff = tag;
            *segment = id2;
            Ok(8 * pad.far_position_in_segment() as u64)
        }
    } else {
        Ok(ref_target)
    }
}

/// The pointer at byte `pos` of segment `segment`, or the null pointer where
/// there is none.
pub open spec fn pointer_or_null(segs: Seq<Seq<u8>>, segment: int, reff: Option<usize>) -> WirePointer {
    match reff {
        Some(pos) => wire_pointer_at(segs[segment], pos as int),
        None => WirePointer { offset_and_kind: 0, upper32bits: 0 },
    }
}

/// Where `reff` is in its segment, for any `reff` a caller may pass.
pub open spec fn ref_in_segment(segs: Seq<Seq<u8>>, segment: int, reff: Option<usize>) -> bool {
    reff matches Some(pos) ==> 0 <= segment < segs.len() && pos + 8 <= segs[segment].len()
}

/// What reading a struct through pointer `reff` of segment `segment` gives.
pub open spec fn spec_read_struct_pointer(
    segs: Seq<Seq<u8>>,
    segment: int,
    reff: Option<usize>,
    nesting_limit: int,
) -> Result<StructReader, ReadError> {
    let p = pointer_or_null(segs, segment, reff);
    if p.spec_is_null() {
        Ok(StructReader::spec_default())
    } else if nesting_limit <= 0 {
        Err(ReadError::NestingLimitExceeded)
    } else {
        match spec_follow_fars(segs, p, p.spec_target(reff->0 as int), segment) {
            Err(e) => Err(e),
            Ok((tag, s, t)) => {
                let sr = tag.spec_struct_ref();
                if !spec_bounds_check(segs, s, t, t + 8 * sr.spec_word_size()) {
                    Err(ReadError::OutOfBounds)
                } else {
                    Ok(
                        StructReader {
                            segment: s as usize,
                            data: t as usize,
                            pointers: (t + 8 * sr.data_size) as usize,
                            data_size: (sr.data_size * 64) as u32,
                            pointer_count: sr.ptr_count,
                            bit0offset: 0,
                            nesting_limit: (nesting_limit - 1) as i32,
                        },
                    )
                }
            },
        }
    }
}

/// Reads the struct that pointer `reff` of segment `segment` points at; a
/// missing or null pointer gives the empty default struct.
/// Checks the message on the way: where it is malformed, the result is
/// the error that says how.
pub fn try_read_struct_pointer(
    arena: &ReaderArena,
    segment: usize,
    reff: Option<usize>,
    nesting_limit: i32,
) -> (r: Result<StructReader, ReadError>)
    requires
        arena.wf(),
        ref_in_segment(arena@, segment as int, reff),
    ensures
        r == spec_read_struct_pointer(arena@, segment as int, reff, nesting_limit as int),
        r matches Ok(sr) ==> sr.wf(arena@),
{
    let p = match reff {
        Some(pos) => {
            proof {
                assert(arena@[segment as int] == arena.segments@[segment as int]@);
            }
            WirePointer::read_from(&arena.segments[segment], pos)
        },
        None => WirePointer::null(),
    };
    if p.is_null() {
        return Ok(StructReader::new_default());
    }
    let pos = match reff {
        Some(pos) => pos,
        None => 0,
    };
    let ref_target = target_of(&p, pos);
    if nesting_limit <= 0 {
        return Err(ReadError::NestingLimitExceeded);
    }
    let mut tag = p;
    let mut seg = segment;
    let ptr = match try_follow_fars(arena, &mut tag, ref_target, &mut seg) {
        Ok(t) => t,
        Err(e) => {
            return Err(e);
        },
    };
    let sr = tag.struct_ref();
    let words = sr.word_size() as u64;
    if !bounds_check(arena, seg, ptr, ptr + 8 * words) {
        return Err(ReadError::OutOfBounds);
    }
    proof {
        assert(arena@[seg as int] == arena.segments@[seg as int]@);
    }
    let r = StructReader {
        segment: seg,
        data: ptr as usize,
        pointers: ptr as usize + 8 * sr.data_size as usize,
        data_size: sr.data_size as u32 * 64,
        pointer_count: sr.ptr_count,
        bit0offset: 0,
        nesting_limit: nesting_limit - 1,
    };
    Ok(r)
}


/// The list that an inline-composite list's elements, starting at byte `ptr`,
/// make when the element tag is `tag`.
pub open spec fn composite_list(
    segment: int,
    ptr: int,
    tag: WirePointer,
    nesting_limit: int,
) -> ListReader {
    let sr = tag.spec_struct_ref();
    ListReader {
        segment: segment as usize,
        ptr: ptr as usize,
        element_count: tag.offset_words() as usize,
        step: (sr.spec_word_size() * 64) as usize,
        struct_data_size: (sr.data_size * 64) as u32,
        struct_pointer_count: sr.ptr_count,
        nesting_limit: (nesting_limit - 1) as i32,
    }
}

/// What reading a list of elements of size `expected` through pointer `reff`
/// of segment `segment` gives. An inline-composite list of structs can be
/// read as a list of a primitive or pointer type: its elements are then the
/// structs' first data field or first pointer.
pub open spec fn spec_read_list_pointer(
    segs: Seq<Seq<u8>>,
    segment: int,
    reff: Option<usize>,
    expected: FieldSize,
    nesting_limit: int,
) -> Result<ListReader, ReadError> {
    let p = pointer_or_null(segs, segment, reff);
    if p.spec_is_null() {
        Ok(ListReader::spec_default())
    } else if nesting_limit <= 0 {
        Err(ReadError::NestingLimitExceeded)
    } else {
        match spec_follow_fars(segs, p, p.spec_target(reff->0 as int), segment) {
            Err(e) => Err(e),
            Ok((tag, s, t)) => spec_list_from_tag(segs, tag, s, t, expected, nesting_limit),
        }
    }
}

/// The list that a list tag `tag` describes, whose elements start at byte `t`
/// of segment `s`, read for elements of size `expected`.
pub open spec fn spec_list_from_tag(
    segs: Seq<Seq<u8>>,
    tag: WirePointer,
    s: int,
    t: int,
    expected: FieldSize,
    nesting_limit: int,
) -> Result<ListReader, ReadError> {
    let lr = tag.spec_list_ref();
    if tag.spec_kind() != WirePointerKind::WP_LIST {
        Err(ReadError::ExpectedList)
    } else if lr.spec_element_size() == FieldSize::INLINE_COMPOSITE {
        let word_count = lr.spec_element_count();
        if !spec_bounds_check(segs, s, t, t + 8 + 8 * word_count) {
            Err(ReadError::OutOfBounds)
        } else {
            let etag = wire_pointer_at(segs[s], t);
            let sr = etag.spec_struct_ref();
            if etag.spec_kind() != WirePointerKind::WP_STRUCT {
                Err(ReadError::InlineCompositeNotStruct)
            } else if etag.offset_words() * sr.spec_word_size() > word_count {
                Err(ReadError::InlineCompositeOverrun)
            } else {
                match expected {
                    FieldSize::BIT => Err(ReadError::ExpectedBitList),
                    FieldSize::BYTE | FieldSize::TWO_BYTES | FieldSize::FOUR_BYTES
                    | FieldSize::EIGHT_BYTES => if sr.data_size == 0 {
                        Err(ReadError::ExpectedPrimitiveList)
                    } else {
                        Ok(composite_list(s, t + 8, etag, nesting_limit))
                    },
                    FieldSize::POINTER => if sr.ptr_count == 0 {
                        Err(ReadError::ExpectedPointerList)
                    } else {
                        Ok(composite_list(s, t + 8 + 8 * sr.data_size, etag, nesting_limit))
                    },
                    _ => Ok(composite_list(s, t + 8, etag, nesting_limit)),
                }
            }
        }
    } else {
        let es = lr.spec_element_size();
        let data_size = spec_data_bits_per_element(es);
        let pointer_count = spec_pointers_per_element(es);
        let step = data_size + 64 * pointer_count;
        let count = lr.spec_element_count();
        if !spec_bounds_check(segs, s, t, t + 8 * ((count * step + 63) / 64)) {
            Err(ReadError::OutOfBounds)
        } else if spec_data_bits_per_element(expected) > data_size
            || spec_pointers_per_element(expected) > pointer_count {
            Err(ReadError::ElementTooSmall)
        } else {
            Ok(
                ListReader {
                    segment: s as usize,
                    ptr: t as usize,
                    element_count: count as usize,
                    step: step as usize,
                    struct_data_size: data_size as u32,
                    struct_pointer_count: pointer_count as u16,
                    nesting_limit: (nesting_limit - 1) as i32,
                },
            )
        }
    }
}

/// Reads the list that pointer `reff` of segment `segment` points at, for
/// elements of size `expected`; a missing or null pointer gives the empty
/// list.
/// Checks the message on the way: where it is malformed, the result is
/// the error that says how.
pub fn try_read_list_pointer(
    arena: &ReaderArena,
    segment: usize,
    reff: Option<usize>,
    expected_element_size: FieldSize,
    nesting_limit: i32,
) -> (r: Result<ListReader, ReadError>)
    requires
        arena.wf(),
        ref_in_segment(arena@, segment as int, reff),
    ensures
        r == spec_read_list_pointer(
            arena@,
            segment as int,
            reff,
            expected_element_size,
            nesting_limit as int,
        ),
        r matches Ok(l) ==> l.elements_fit(arena@, 64 * l.struct_pointer_count as nat),
        r matches Ok(l) ==> expected_element_size != FieldSize::POINTER ==> l.elements_fit(
            arena@,
            l.struct_bits(),
        ),
{
    let p = match reff {
        Some(pos) => {
            proof {
                assert(arena@[segment as int] == arena.segments@[segment as int]@);
            }
            WirePointer::read_from(&arena.segments[segment], pos)
        },
        None => WirePointer::null(),
    };
    if p.is_null() {
        return Ok(ListReader::new_default());
    }
    let pos = match reff {
        Some(pos) => pos,
        None => 0,
    };
    let ref_target = target_of(&p, pos);
    if nesting_limit <= 0 {
        return Err(ReadError::NestingLimitExceeded);
    }
    let mut tag = p;
    let mut seg = segment;
    let ptr = match try_follow_fars(arena, &mut tag, ref_target, &mut seg) {
        Ok(t) => t,
        Err(e) => {
            return Err(e);
        },
    };
    list_from_tag(arena, tag, seg, ptr, expected_element_size, nesting_limit)
}

/// Reads the list that list tag `tag` describes, whose elements start at
/// byte `ptr` of segment `seg`, for elements of size `expected_element_size`.
fn list_from_tag(
    arena: &ReaderArena,
    tag: WirePointer,
    seg: usize,
    ptr: u64,
    expected_element_size: FieldSize,
    nesting_limit: i32,
) -> (r: Result<ListReader, ReadError>)
    requires
        arena.wf(),
        seg < arena@.len(),
        nesting_limit > 0,
        ptr < segment_byte_limit() + 0x2_0000_0008,
    ensures
        r == spec_list_from_tag(arena@, tag, seg as int, ptr as int, expected_element_size, nesting_limit as int),
        r matches Ok(l) ==> l.elements_fit(arena@, 64 * l.struct_pointer_count as nat),
        r matches Ok(l) ==> expected_element_size != FieldSize::POINTER ==> l.elements_fit(
            arena@,
            l.struct_bits(),
        ),
{
    if tag.kind() != WirePointerKind::WP_LIST {
        return Err(ReadError::ExpectedList);
    }
    proof {
        assert(arena@[seg as int] == arena.segments@[seg as int]@);
    }
    let list_ref = tag.list_ref();
    match list_ref.element_size() {
        FieldSize::INLINE_COMPOSITE => {
            let word_count = list_ref.inline_composite_word_count() as u64;
            if !bounds_check(arena, seg, ptr, ptr + 8 + 8 * word_count) {
                return Err(ReadError::OutOfBounds);
            }
            let etag = WirePointer::read_from(&arena.segments[seg], ptr as usize);
            if etag.kind() != WirePointerKind::WP_STRUCT {
                return Err(ReadError::InlineCompositeNotStruct);
            }
            let size = etag.inline_composite_list_element_count();
            let sr = etag.struct_ref();
            let words_per_element = sr.word_size();
            assert(size as u64 * words_per_element as u64 <= 0x4000_0000 * 0x2_0000) by (nonlinear_arith)
                requires
                    size < 0x4000_0000,
                    words_per_element < 0x2_0000;
            if size as u64 * words_per_element as u64 > word_count {
                return Err(ReadError::InlineCompositeOverrun);
            }
            let mut first: u64 = ptr + 8;
            match expected_element_size {
                FieldSize::VOID => {},
                FieldSize::BIT => {
                    return Err(ReadError::ExpectedBitList);
                },
                FieldSize::BYTE | FieldSize::TWO_BYTES | FieldSize::FOUR_BYTES
                | FieldSize::EIGHT_BYTES => {
                    if sr.data_size == 0 {
                        return Err(ReadError::ExpectedPrimitiveList);
                    }
                },
                FieldSize::POINTER => {
                    first = first + 8 * sr.data_size as u64;
                    if sr.ptr_count == 0 {
                        return Err(ReadError::ExpectedPointerList);
                    }
                },
                FieldSize::INLINE_COMPOSITE => {},
            }
            proof {
                lemma_composite_fits(arena@, seg as int, ptr as int, word_count as int, etag,
                    first as int, expected_element_size);
            }
            Ok(
                ListReader {
                    segment: seg,
                    ptr: first as usize,
                    element_count: size,
                    step: words_per_element * 64,
                    struct_data_size: sr.data_size as u32 * 64,
                    struct_pointer_count: sr.ptr_count,
                    nesting_limit: nesting_limit - 1,
                },
            )
        },
        es => {
            let data_size = data_bits_per_element(es);
            let pointer_count = pointers_per_element(es);
            let step = data_size + 64 * pointer_count;
            let count = list_ref.element_count();
            assert(count as u64 * step as u64 <= 0x2000_0000 * 64) by (nonlinear_arith)
                requires
                    count < 0x2000_0000,
                    step <= 64;
            let words = round_bits_up_to_words(count as u64 * step as u64);
            if !bounds_check(arena, seg, ptr, ptr + 8 * words as u64) {
                return Err(ReadError::OutOfBounds);
            }
            let expected_data = data_bits_per_element(expected_element_size);
            let expected_pointers = pointers_per_element(expected_element_size);
            if expected_data > data_size || expected_pointers > pointer_count {
                return Err(ReadError::ElementTooSmall);
            }
            proof {
                lemma_primitive_fits(arena@, seg as int, ptr as int, count as int, step as int);
            }
            Ok(
                ListReader {
                    segment: seg,
                    ptr: ptr as usize,
                    element_count: count,
                    step: step,
                    struct_data_size: data_size as u32,
                    struct_pointer_count: pointer_count as u16,
                    nesting_limit: nesting_limit - 1,
                },
            )
        },
    }
}

proof fn lemma_composite_fits(
    segs: Seq<Seq<u8>>,
    s: int,
    t: int,
    word_count: int,
    etag: WirePointer,
    first: int,
    expected: FieldSize,
)
    requires
        0 <= s < segs.len(),
        0 <= t,
        t + 8 + 8 * word_count <= segs[s].len(),
        etag.offset_words() * etag.spec_struct_ref().spec_word_size() <= word_count,
        first == t + 8 || (expected == FieldSize::POINTER && first == t + 8 + 8
            * etag.spec_struct_ref().data_size),
        expected != FieldSize::POINTER ==> first == t + 8,
    ensures
        ({
            let l = composite_list(s, first, etag, 1);
            &&& l.element_count > 0 ==> first * 8 + (l.element_count - 1) * l.step + 64
                * l.struct_pointer_count <= 8 * segs[s].len()
            &&& expected != FieldSize::POINTER ==> (l.element_count > 0 ==> first * 8 + (
            l.element_count - 1) * l.step + l.struct_bits() <= 8 * segs[s].len())
        }),
{
    let n = etag.offset_words() as int;
    let w = etag.spec_struct_ref().spec_word_size() as int;
    if n > 0 {
        assert((n - 1) * (w * 64) + w * 64 == n * w * 64) by (nonlinear_arith);
        assert(n * w * 64 == 64 * (n * w)) by (nonlinear_arith);
    }
}

proof fn lemma_primitive_fits(segs: Seq<Seq<u8>>, s: int, t: int, count: int, step: int)
    requires
        0 <= s < segs.len(),
        0 <= t,
        0 <= count,
        0 <= step,
        t + 8 * ((count * step + 63) / 64) <= segs[s].len(),
    ensures
        count > 0 ==> t * 8 + (count - 1) * step + step <= 8 * segs[s].len(),
{
    if count > 0 {
        assert((count - 1) * step + step == count * step) by (nonlinear_arith);
        assert(count * step <= 64 * ((count * step + 63) / 64)) by (nonlinear_arith)
            requires count * step >= 0;
    }
}

/// The bytes of `s` before its first NUL byte (all of `s` if it has none).
pub open spec fn take_until_nul(s: Seq<u8>) -> Seq<u8>
    decreases s.len(),
{
    if s.len() == 0 || s[0] == 0 {
        Seq::empty()
    } else {
        seq![s[0]] + take_until_nul(s.drop_first())
    }
}

/// What reading text through pointer `reff` of segment `segment` gives: the
/// bytes of a NUL-terminated byte list up to its first NUL, or `default`
/// for a missing or null pointer.
pub open spec fn spec_read_text_pointer(
    segs: Seq<Seq<u8>>,
    segment: int,
    reff: Option<usize>,
    default: Seq<u8>,
) -> Result<Seq<u8>, ReadError> {
    let p = pointer_or_null(segs, segment, reff);
    if p.spec_is_null() {
        Ok(default)
    } else {
        match spec_follow_fars(segs, p, p.spec_target(reff->0 as int), segment) {
            Err(e) => Err(e),
            Ok((tag, s, t)) => {
                let size = tag.spec_list_ref().spec_element_count() as int;
                if tag.spec_kind() != WirePointerKind::WP_LIST {
                    Err(ReadError::ExpectedText)
                } else if tag.spec_list_ref().spec_element_size() != FieldSize::BYTE {
                    Err(ReadError::TextNotBytes)
                } else if !spec_bounds_check(segs, s, t, t + 8 * ((size + 7) / 8)) {
                    Err(ReadError::OutOfBounds)
                } else if size == 0 || segs[s][t + size - 1] != 0 {
                    Err(ReadError::TextNotNulTerminated)
                } else {
                    Ok(take_until_nul(segs[s].subrange(t, t + size)))
                }
            },
        }
    }
}

/// Reads the text that pointer `reff` of segment `segment` points at; a
/// missing or null pointer gives `default_value`.
/// Checks the message on the way: where it is malformed, the result is
/// the error that says how.
pub fn try_read_text_pointer(
    arena: &ReaderArena,
    segment: usize,
    reff: Option<usize>,
    default_value: &str,
) -> (r: Result<Vec<u8>, ReadError>)
    requires
        arena.wf(),
        ref_in_segment(arena@, segment as int, reff),
    ensures
        match spec_read_text_pointer(arena@, segment as int, reff, default_value.spec_bytes()) {
            Ok(text) => r matches Ok(v) && v@ == text,
            Err(e) => r == Err::<Vec<u8>, ReadError>(e),
        },
{
    let p = match reff {
        Some(pos) => {
            proof {
                assert(arena@[segment as int] == arena.segments@[segment as int]@);
            }
            WirePointer::read_from(&arena.segments[segment], pos)
        },
        None => WirePointer::null(),
    };
    if p.is_null() {
        return Ok(copy_bytes(default_value.as_bytes()));
    }
    let pos = match reff {
        Some(pos) => pos,
        None => 0,
    };
    let ref_target = target_of(&p, pos);
    let mut tag = p;
    let mut seg = segment;
    let ptr = match try_follow_fars(arena, &mut tag, ref_target, &mut seg) {
        Ok(t) => t,
        Err(e) => {
            return Err(e);
        },
    };
    let list_ref = tag.list_ref();
    let size = list_ref.element_count();
    if tag.kind() != WirePointerKind::WP_LIST {
        return Err(ReadError::ExpectedText);
    }
    if list_ref.element_size() != FieldSize::BYTE {
        return Err(ReadError::TextNotBytes);
    }
    let words = round_bytes_up_to_words(size);
    if !bounds_check(arena, seg, ptr, ptr + 8 * words as u64) {
        return Err(ReadError::OutOfBounds);
    }
    proof {
        assert(arena@[seg as int] == arena.segments@[seg as int]@);
    }
    if size == 0 {
        return Err(ReadError::TextNotNulTerminated);
    }
    let start = ptr as usize;
    if arena.segments[seg][start + size - 1] != 0 {
        return Err(ReadError::TextNotNulTerminated);
    }
    Ok(copy_until_nul(&arena.segments[seg], start, start + size))
}

/// A copy of the bytes of `s`.
fn copy_bytes(s: &[u8]) -> (v: Vec<u8>)
    ensures
        v@ == s@,
{
    let mut v: Vec<u8> = Vec::new();
    let mut i: usize = 0;
    while i < s.len()
        invariant
            i <= s@.len(),
            v@ == s@.subrange(0, i as int),
        decreases s@.len() - i,
    {
        v.push(s[i]);
        i = i + 1;
        assert(v@ =~= s@.subrange(0, i as int));
    }
    assert(v@ =~= s@);
    v
}

/// A copy of the bytes of `s` from `start`, before the first NUL byte in
/// `[start, end)`.
fn copy_until_nul(s: &Vec<u8>, start: usize, end: usize) -> (v: Vec<u8>)
    requires
        start <= end <= s@.len(),
    ensures
        v@ == take_until_nul(s@.subrange(start as int, end as int)),
{
    let mut v: Vec<u8> = Vec::new();
    let mut i: usize = start;
    while i < end && s[i] != 0
        invariant
            start <= i <= end <= s@.len(),
            v@ + take_until_nul(s@.subrange(i as int, end as int)) == take_until_nul(
                s@.subrange(start as int, end as int),
            ),
        decreases end - i,
    {
        proof {
            let rest = s@.subrange(i as int, end as int);
            assert(rest.drop_first() =~= s@.subrange(i + 1, end as int));
            assert(v@.push(s@[i as int]) + take_until_nul(rest.drop_first()) =~= v@
                + take_until_nul(rest));
        }
        v.push(s[i]);
        i = i + 1;
    }
    proof {
        let rest = s@.subrange(i as int, end as int);
        assert(take_until_nul(rest) =~= Seq::<u8>::empty());
        assert(v@ + Seq::<u8>::empty() =~= v@);
    }
    v
}

/// Follows `reff` through its landing pads, if it is a far pointer, where
/// the pads lie within the message (see `try_follow_fars`).
pub fn follow_fars(
    arena: &ReaderArena,
    reff: &mut WirePointer,
    ref_target: u64,
    segment: &mut usize,
) -> (r: u64)
    requires
        arena.wf(),
        *old(segment) < arena@.len(),
        ref_target < segment_byte_limit() + 0x2_0000_0008,
        spec_follow_fars(arena@, *old(reff), ref_target as int, *old(segment) as int) is Ok,
    ensures
        spec_follow_fars(arena@, *old(reff), ref_target as int, *old(segment) as int) == Ok::<
            (WirePointer, int, int),
            ReadError,
        >((*final(reff), *final(segment) as int, r as int)),
        *final(segment) < arena@.len(),
        r < segment_byte_limit() + 0x2_0000_0008,
{
    match try_follow_fars(arena, reff, ref_target, segment) {
        Ok(t) => t,
        Err(_) => 0,
    }
}

/// Reads the struct that pointer `reff` of segment `segment` points at, where
/// the message holds a struct there (see `try_read_struct_pointer`); a
/// missing or null pointer gives the empty default struct.
pub fn read_struct_pointer(
    arena: &ReaderArena,
    segment: usize,
    reff: Option<usize>,
    nesting_limit: i32,
) -> (r: StructReader)
    requires
        arena.wf(),
        ref_in_segment(arena@, segment as int, reff),
        spec_read_struct_pointer(arena@, segment as int, reff, nesting_limit as int) is Ok,
    ensures
        Ok::<StructReader, ReadError>(r) == spec_read_struct_pointer(
            arena@,
            segment as int,
            reff,
            nesting_limit as int,
        ),
        r.wf(arena@),
{
    match try_read_struct_pointer(arena, segment, reff, nesting_limit) {
        Ok(r) => r,
        Err(_) => StructReader::new_default(),
    }
}

/// Reads the list that pointer `reff` of segment `segment` points at, for
/// elements of size `expected_element_size`, where the message holds such a
/// list there (see `try_read_list_pointer`); a missing or null pointer gives
/// the empty list.
pub fn read_list_pointer(
    arena: &ReaderArena,
    segment: usize,
    reff: Option<usize>,
    expected_element_size: FieldSize,
    nesting_limit: i32,
) -> (r: ListReader)
    requires
        arena.wf(),
        ref_in_segment(arena@, segment as int, reff),
        spec_read_list_pointer(
            arena@,
            segment as int,
            reff,
            expected_element_size,
            nesting_limit as int,
        ) is Ok,
    ensures
        Ok::<ListReader, ReadError>(r) == spec_read_list_pointer(
            arena@,
            segment as int,
            reff,
            expected_element_size,
            nesting_limit as int,
        ),
        r.elements_fit(arena@, 64 * r.struct_pointer_count as nat),
        expected_element_size != FieldSize::POINTER ==> r.elements_fit(arena@, r.struct_bits()),
{
    match try_read_list_pointer(arena, segment, reff, expected_element_size, nesting_limit) {
        Ok(r) => r,
        Err(_) => ListReader::new_default(),
    }
}

/// Reads the text that pointer `reff` of segment `segment` points at, where
/// the message holds text there (see `try_read_text_pointer`); a missing or
/// null pointer gives `default_value`.
pub fn read_text_pointer(
    arena: &ReaderArena,
    segment: usize,
    reff: Option<usize>,
    default_value: &str,
) -> (r: Vec<u8>)
    requires
        arena.wf(),
        ref_in_segment(arena@, segment as int, reff),
        spec_read_text_pointer(arena@, segment as int, reff, default_value.spec_bytes()) is Ok,
    ensures
        Ok::<Seq<u8>, ReadError>(r@) == spec_read_text_pointer(
            arena@,
            segment as int,
            reff,
            default_value.spec_bytes(),
        ),
{
    match try_read_text_pointer(arena, segment, reff, default_value) {
        Ok(r) => r,
        Err(_) => Vec::new(),
    }
}

} // verus!
