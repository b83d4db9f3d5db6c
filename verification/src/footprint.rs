//! The bytes that zeroing an object may touch: the object itself, the
//! landing pads on the way to it, and, within a number of pointers, the
//! objects its pointers lead to.
use vstd::prelude::*;
use crate::le::lemma_read_le_same;
use crate::wire::{FieldSize, StructRef, WirePointer, WirePointerKind, wire_pointer_at};
use crate::write_helpers::{object_extent, lemma_nonnull_has_nonzero_byte};

verus! {

/// The word of `s` that starts at byte `w` is zero.
pub open spec fn word_is_zero(s: Seq<u8>, w: int) -> bool {
    forall|k: int| w <= k < w + 8 && k < s.len() ==> #[trigger] s[k] == 0
}

/// The segments `new` are `old` with some words set to zero: every byte that
/// changed lies in a word that is now zero.
pub open spec fn words_zeroed(old: Seq<Seq<u8>>, new: Seq<Seq<u8>>) -> bool {
    &&& old.len() == new.len()
    &&& forall|i: int| 0 <= i < old.len() ==> #[trigger] new[i].len() == old[i].len()
    &&& forall|i: int, j: int|
        0 <= i < old.len() && 0 <= j < old[i].len() && #[trigger] new[i][j] != old[i][j]
            ==> word_is_zero(new[i], j - j % 8)
}

/// The position of pointer `q` of element `e` among the pointers that the
/// object `tag` at byte `ptr` of segment `seg` holds, if it has one.
pub open spec fn child_pos(
    segs: Seq<Seq<u8>>,
    seg: int,
    tag: WirePointer,
    ptr: int,
    e: int,
    q: int,
) -> Option<int> {
    match tag.spec_kind() {
        WirePointerKind::WP_STRUCT => {
            let sr = tag.spec_struct_ref();
            if e == 0 && 0 <= q < sr.ptr_count {
                Some(ptr + 8 * sr.data_size + 8 * q)
            } else {
                None
            }
        },
        WirePointerKind::WP_LIST => {
            let lr = tag.spec_list_ref();
            if lr.spec_element_size() == FieldSize::POINTER {
                if e == 0 && 0 <= q < lr.spec_element_count() {
                    Some(ptr + 8 * q)
                } else {
                    None
                }
            } else if lr.spec_element_size() == FieldSize::INLINE_COMPOSITE && 0 <= seg < segs.len()
                && 0 <= ptr && ptr + 8 <= segs[seg].len() {
                let etag = wire_pointer_at(segs[seg], ptr);
                let sr = etag.spec_struct_ref();
                if etag.spec_kind() == WirePointerKind::WP_STRUCT && 0 <= e < etag.offset_words()
                    && 0 <= q < sr.ptr_count {
                    Some(ptr + 8 + 8 * (e * sr.spec_word_size() + sr.data_size + q))
                } else {
                    None
                }
            } else {
                None
            }
        },
        _ => None,
    }
}

/// Pointer `q` of element `e` of the object is a pointer within the segment.
pub open spec fn is_child(
    segs: Seq<Seq<u8>>,
    seg: int,
    tag: WirePointer,
    ptr: int,
    e: int,
    q: int,
) -> bool {
    &&& 0 <= seg < segs.len()
    &&& child_pos(segs, seg, tag, ptr, e, q) is Some
    &&& 0 <= child_pos(segs, seg, tag, ptr, e, q)->0
    &&& child_pos(segs, seg, tag, ptr, e, q)->0 + 8 <= segs[seg].len()
}

/// Byte `j` of segment `s` belongs to the object `tag` at byte `ptr` of
/// segment `seg`, or to what its pointers lead to within `fuel` pointers.
pub open spec fn in_object(
    segs: Seq<Seq<u8>>,
    seg: int,
    tag: WirePointer,
    ptr: int,
    fuel: nat,
    s: int,
    j: int,
) -> bool
    decreases fuel, 1nat,
{
    ||| s == seg && ptr <= j < ptr + object_extent(segs[seg], tag, ptr)
    ||| fuel > 0 && exists|e: int, q: int|
        #[trigger] is_child(segs, seg, tag, ptr, e, q) && in_value(
            segs,
            seg,
            child_pos(segs, seg, tag, ptr, e, q)->0,
            wire_pointer_at(segs[seg], child_pos(segs, seg, tag, ptr, e, q)->0),
            (fuel - 1) as nat,
            s,
            j,
        )
}

/// Byte `j` of segment `s` belongs to what pointer `p`, standing at byte
/// `pos` of segment `seg`, leads to within `fuel` pointers: the landing
/// pads of a far pointer and the object.
pub open spec fn in_value(
    segs: Seq<Seq<u8>>,
    seg: int,
    pos: int,
    p: WirePointer,
    fuel: nat,
    s: int,
    j: int,
) -> bool
    decreases fuel, 2nat,
{
    if p.spec_kind() == WirePointerKind::WP_FAR {
        let id = p.spec_far_ref().segment_id as int;
        let pad = 8 * p.spec_far_position() as int;
        if !p.spec_is_double_far() {
            ||| s == id && pad <= j < pad + 8
            ||| fuel > 0 && 0 <= id < segs.len() && pad + 8 <= segs[id].len() && in_value(
                segs,
                id,
                pad,
                wire_pointer_at(segs[id], pad),
                (fuel - 1) as nat,
                s,
                j,
            )
        } else {
            let padp = wire_pointer_at(segs[id], pad);
            ||| s == id && pad <= j < pad + 16
            ||| fuel > 0 && 0 <= id < segs.len() && pad + 16 <= segs[id].len()
                && !padp.spec_is_null() && in_object(
                segs,
                padp.spec_far_ref().segment_id as int,
                wire_pointer_at(segs[id], pad + 8),
                8 * padp.spec_far_position() as int,
                (fuel - 1) as nat,
                s,
                j,
            )
        }
    } else {
        in_object(segs, seg, p, p.spec_target(pos), fuel, s, j)
    }
}

/// Byte `j` of segment `s` belongs to the `count` pointers at byte `start`
/// of segment `seg`, or to what they lead to within `fuel` pointers.
pub open spec fn in_section(
    segs: Seq<Seq<u8>>,
    seg: int,
    start: int,
    count: int,
    fuel: nat,
    s: int,
    j: int,
) -> bool {
    ||| s == seg && start <= j < start + 8 * count
    ||| fuel > 0 && exists|q: int|
        0 <= q < count && #[trigger] in_value(
            segs,
            seg,
            start + 8 * q,
            wire_pointer_at(segs[seg], start + 8 * q),
            (fuel - 1) as nat,
            s,
            j,
        )
}

/// A null pointer leads nowhere.
pub proof fn lemma_in_value_null(
    segs: Seq<Seq<u8>>,
    seg: int,
    pos: int,
    p: WirePointer,
    f: nat,
    s: int,
    j: int,
)
    requires
        p.spec_is_null(),
    ensures
        !in_value(segs, seg, pos, p, f, s, j),
{
    assert(p.offset_and_kind % 4 == 0);
    if in_object(segs, seg, p, p.spec_target(pos), f, s, j) {
        if f > 0 {
            assert(!exists|e: int, q: int| #[trigger] is_child(segs, seg, p, p.spec_target(pos), e, q));
        }
    }
}

/// More fuel reaches at least as far.
pub proof fn lemma_in_value_fuel(
    segs: Seq<Seq<u8>>,
    seg: int,
    pos: int,
    p: WirePointer,
    f: nat,
    g: nat,
    s: int,
    j: int,
)
    requires
        f <= g,
        in_value(segs, seg, pos, p, f, s, j),
    ensures
        in_value(segs, seg, pos, p, g, s, j),
    decreases f, 2nat,
{
    if p.spec_kind() == WirePointerKind::WP_FAR {
        let id = p.spec_far_ref().segment_id as int;
        let pad = 8 * p.spec_far_position() as int;
        if !p.spec_is_double_far() {
            if !(s == id && pad <= j < pad + 8) {
                lemma_in_value_fuel(segs, id, pad, wire_pointer_at(segs[id], pad), (f - 1) as nat,
                    (g - 1) as nat, s, j);
            }
        } else {
            let padp = wire_pointer_at(segs[id], pad);
            if !(s == id && pad <= j < pad + 16) {
                lemma_in_object_fuel(segs, padp.spec_far_ref().segment_id as int,
                    wire_pointer_at(segs[id], pad + 8), 8 * padp.spec_far_position() as int,
                    (f - 1) as nat, (g - 1) as nat, s, j);
            }
        }
    } else {
        lemma_in_object_fuel(segs, seg, p, p.spec_target(pos), f, g, s, j);
    }
}

/// More fuel reaches at least as far.
pub proof fn lemma_in_object_fuel(
    segs: Seq<Seq<u8>>,
    seg: int,
    tag: WirePointer,
    ptr: int,
    f: nat,
    g: nat,
    s: int,
    j: int,
)
    requires
        f <= g,
        in_object(segs, seg, tag, ptr, f, s, j),
    ensures
        in_object(segs, seg, tag, ptr, g, s, j),
    decreases f, 1nat,
{
    if !(s == seg && ptr <= j < ptr + object_extent(segs[seg], tag, ptr)) {
        let (e, q) = choose|e: int, q: int|
            #[trigger] is_child(segs, seg, tag, ptr, e, q) && in_value(
                segs,
                seg,
                child_pos(segs, seg, tag, ptr, e, q)->0,
                wire_pointer_at(segs[seg], child_pos(segs, seg, tag, ptr, e, q)->0),
                (f - 1) as nat,
                s,
                j,
            );
        let c = child_pos(segs, seg, tag, ptr, e, q)->0;
        lemma_in_value_fuel(segs, seg, c, wire_pointer_at(segs[seg], c), (f - 1) as nat,
            (g - 1) as nat, s, j);
    }
}

/// A pointer at a word that setting words to zero left nonzero is the
/// pointer that was there.
pub proof fn lemma_words_zeroed_pointer(a: Seq<Seq<u8>>, b: Seq<Seq<u8>>, i: int, pos: int)
    requires
        words_zeroed(a, b),
        0 <= i < a.len(),
        0 <= pos,
        pos % 8 == 0,
        pos + 8 <= a[i].len(),
    ensures
        wire_pointer_at(b[i], pos) == wire_pointer_at(a[i], pos) || wire_pointer_at(
            b[i],
            pos,
        ).spec_is_null(),
{
    if exists|k: int| pos <= k < pos + 8 && b[i][k] != a[i][k] {
        let k = choose|k: int| pos <= k < pos + 8 && b[i][k] != a[i][k];
        assert(k - k % 8 == pos);
        assert(word_is_zero(b[i], pos));
        if !wire_pointer_at(b[i], pos).spec_is_null() {
            lemma_nonnull_has_nonzero_byte(b[i], pos);
            let m = choose|m: int| pos <= m < pos + 8 && b[i][m] != 0;
            assert(b[i][m] == 0);
        }
    } else {
        lemma_read_le_same(a[i], b[i], pos, 4);
        lemma_read_le_same(a[i], b[i], pos + 4, 4);
    }
}

/// Where `b` is `a` with some words set to zero, what a pointer leads to in
/// `b` it led to in `a`.
pub proof fn lemma_in_value_state(
    a: Seq<Seq<u8>>,
    b: Seq<Seq<u8>>,
    seg: int,
    pos: int,
    p: WirePointer,
    f: nat,
    s: int,
    j: int,
)
    requires
        words_zeroed(a, b),
        pos % 8 == 0,
        0 <= pos,
        0 <= s < a.len(),
        0 <= j < a[s].len(),
        in_value(b, seg, pos, p, f, s, j),
    ensures
        in_value(a, seg, pos, p, f, s, j),
    decreases f, 2nat,
{
    if p.spec_kind() == WirePointerKind::WP_FAR {
        let id = p.spec_far_ref().segment_id as int;
        let pad = 8 * p.spec_far_position() as int;
        if !p.spec_is_double_far() {
            if !(s == id && pad <= j < pad + 8) {
                let pb = wire_pointer_at(b[id], pad);
                lemma_words_zeroed_pointer(a, b, id, pad);
                if pb.spec_is_null() {
                    lemma_in_value_null(b, id, pad, pb, (f - 1) as nat, s, j);
                } else {
                    lemma_in_value_state(a, b, id, pad, pb, (f - 1) as nat, s, j);
                }
            }
        } else {
            if !(s == id && pad <= j < pad + 16) {
                let padb = wire_pointer_at(b[id], pad);
                let tagb = wire_pointer_at(b[id], pad + 8);
                lemma_words_zeroed_pointer(a, b, id, pad);
                lemma_words_zeroed_pointer(a, b, id, pad + 8);
                let ptr2 = 8 * padb.spec_far_position() as int;
                let s2 = padb.spec_far_ref().segment_id as int;
                if tagb.spec_is_null() {
                    lemma_in_object_null(b, s2, tagb, ptr2, (f - 1) as nat, s, j);
                } else {
                    lemma_in_object_state(a, b, s2, tagb, ptr2, (f - 1) as nat, s, j);
                }
            }
        }
    } else {
        lemma_in_object_state(a, b, seg, p, p.spec_target(pos), f, s, j);
    }
}

/// A null tag describes an empty struct with no pointers.
pub proof fn lemma_in_object_null(
    segs: Seq<Seq<u8>>,
    seg: int,
    tag: WirePointer,
    ptr: int,
    f: nat,
    s: int,
    j: int,
)
    requires
        tag.spec_is_null(),
    ensures
        !in_object(segs, seg, tag, ptr, f, s, j),
{
    if f > 0 {
        assert(!exists|e: int, q: int| #[trigger] is_child(segs, seg, tag, ptr, e, q));
    }
}

/// Where `b` is `a` with some words set to zero, what an object reaches in
/// `b` it reached in `a`.
#[verifier::spinoff_prover]
pub proof fn lemma_in_object_state(
    a: Seq<Seq<u8>>,
    b: Seq<Seq<u8>>,
    seg: int,
    tag: WirePointer,
    ptr: int,
    f: nat,
    s: int,
    j: int,
)
    requires
        words_zeroed(a, b),
        ptr % 8 == 0,
        0 <= ptr,
        0 <= s < a.len(),
        0 <= j < a[s].len(),
        in_object(b, seg, tag, ptr, f, s, j),
    ensures
        in_object(a, seg, tag, ptr, f, s, j),
    decreases f, 1nat,
{
    let composite = tag.spec_kind() == WirePointerKind::WP_LIST
        && tag.spec_list_ref().spec_element_size() == FieldSize::INLINE_COMPOSITE;
    let inside = 0 <= seg < a.len() && 0 <= ptr && ptr + 8 <= a[seg].len();
    let eb = wire_pointer_at(b[seg], ptr);
    let ea = wire_pointer_at(a[seg], ptr);
    if composite && inside {
        lemma_words_zeroed_pointer(a, b, seg, ptr);
    }
    if s == seg && ptr <= j < ptr + object_extent(b[seg], tag, ptr) {
        if composite {
            let n = ea.offset_words();
            let w = ea.spec_struct_ref().spec_word_size();
            assert(w * n >= 0) by (nonlinear_arith)
                requires
                    w >= 0,
                    n >= 0,
            ;
            assert(object_extent(a[seg], tag, ptr) == 8 * (w * n + 1));
            if inside {
                if eb != ea {
                    assert(eb.offset_words() == 0);
                    assert(eb.spec_struct_ref().spec_word_size() == 0);
                    assert(object_extent(b[seg], tag, ptr) == 8);
                }
            } else {
                assert(j < ptr + 8);
            }
        }
    } else {
        let (e, q) = choose|e: int, q: int|
            #[trigger] is_child(b, seg, tag, ptr, e, q) && in_value(
                b,
                seg,
                child_pos(b, seg, tag, ptr, e, q)->0,
                wire_pointer_at(b[seg], child_pos(b, seg, tag, ptr, e, q)->0),
                (f - 1) as nat,
                s,
                j,
            );
        let c = child_pos(b, seg, tag, ptr, e, q)->0;
        if composite {
            if eb.spec_is_null() {
                assert(false);
            }
            assert(eb == ea);
        }
        assert(child_pos(a, seg, tag, ptr, e, q) == child_pos(b, seg, tag, ptr, e, q));
        assert(c % 8 == 0) by {
            if composite {
                let sr = ea.spec_struct_ref();
                assert(c == ptr + 8 + 8 * (e * sr.spec_word_size() + sr.data_size + q));
            }
        }
        let cb = wire_pointer_at(b[seg], c);
        lemma_words_zeroed_pointer(a, b, seg, c);
        assert(is_child(a, seg, tag, ptr, e, q));
        if cb.spec_is_null() {
            lemma_in_value_null(b, seg, c, cb, (f - 1) as nat, s, j);
        } else {
            lemma_in_value_state(a, b, seg, c, cb, (f - 1) as nat, s, j);
        }
    }
}

pub proof fn lemma_words_zeroed_refl(a: Seq<Seq<u8>>)
    ensures
        words_zeroed(a, a),
{
}

pub proof fn lemma_words_zeroed_trans(a: Seq<Seq<u8>>, b: Seq<Seq<u8>>, c: Seq<Seq<u8>>)
    requires
        words_zeroed(a, b),
        words_zeroed(b, c),
    ensures
        words_zeroed(a, c),
{
    assert forall|i: int, j: int|
        0 <= i < a.len() && 0 <= j < a[i].len() && #[trigger] c[i][j] != a[i][j] implies word_is_zero(
        c[i],
        j - j % 8,
    ) by {
        if c[i][j] != b[i][j] {
        } else {
            assert(word_is_zero(b[i], j - j % 8));
            assert forall|k: int| j - j % 8 <= k < j - j % 8 + 8 && k < c[i].len() implies #[trigger] c[i][k]
                == 0 by {
                if c[i][k] != b[i][k] {
                    assert(word_is_zero(c[i], k - k % 8));
                    assert(k - k % 8 == j - j % 8);
                } else {
                    assert(b[i][k] == 0);
                }
            }
        }
    }
}

/// Setting the whole words `[start, end)` of segment `seg` to zero sets
/// words to zero.
pub proof fn lemma_zero_range_words(
    a: Seq<Seq<u8>>,
    b: Seq<Seq<u8>>,
    seg: int,
    start: int,
    end: int,
)
    requires
        0 <= seg < a.len(),
        start % 8 == 0,
        end % 8 == 0,
        a.len() == b.len(),
        forall|i: int| 0 <= i < a.len() && i != seg ==> #[trigger] b[i] == a[i],
        b[seg].len() == a[seg].len(),
        forall|j: int|
            0 <= j < b[seg].len() ==> #[trigger] b[seg][j] == if start <= j < end {
                0
            } else {
                a[seg][j]
            },
    ensures
        words_zeroed(a, b),
{
    assert forall|i: int| 0 <= i < a.len() implies #[trigger] b[i].len() == a[i].len() by {
        if i != seg {
            assert(b[i] == a[i]);
        }
    }
    assert forall|i: int, j: int|
        0 <= i < a.len() && 0 <= j < a[i].len() && #[trigger] b[i][j] != a[i][j] implies word_is_zero(
        b[i],
        j - j % 8,
    ) by {
        if i != seg {
            assert(b[i] == a[i]);
        } else {
            assert(start <= j < end);
            assert forall|k: int| j - j % 8 <= k < j - j % 8 + 8 && k < b[i].len() implies #[trigger] b[i][k]
                == 0 by {
                assert(start <= k < end);
            }
        }
    }
}

/// Every byte of `new` that differs from `old` is one where `allowed` holds.
pub open spec fn changed_only_where(
    old: Seq<Seq<u8>>,
    new: Seq<Seq<u8>>,
    allowed: spec_fn(int, int) -> bool,
) -> bool {
    forall|s: int, j: int|
        0 <= s < old.len() && 0 <= j < old[s].len() && #[trigger] new[s][j] != old[s][j]
            ==> allowed(s, j)
}

/// Two steps of changes compose.
pub proof fn lemma_changed_compose(
    a: Seq<Seq<u8>>,
    b: Seq<Seq<u8>>,
    c: Seq<Seq<u8>>,
    p: spec_fn(int, int) -> bool,
    q: spec_fn(int, int) -> bool,
    r: spec_fn(int, int) -> bool,
)
    requires
        words_zeroed(a, b),
        changed_only_where(a, b, p),
        changed_only_where(b, c, q),
        forall|s: int, j: int|
            0 <= s < a.len() && 0 <= j < a[s].len() && #[trigger] p(s, j) ==> r(s, j),
        forall|s: int, j: int|
            0 <= s < a.len() && 0 <= j < a[s].len() && #[trigger] q(s, j) ==> r(s, j),
    ensures
        changed_only_where(a, c, r),
{
    assert forall|s: int, j: int|
        0 <= s < a.len() && 0 <= j < a[s].len() && #[trigger] c[s][j] != a[s][j] implies r(s, j) by {
        assert(b[s].len() == a[s].len());
        if c[s][j] != b[s][j] {
            assert(q(s, j));
        } else {
            assert(p(s, j));
        }
    }
}

/// A pointer section that holds the pointers of element `e` of an object,
/// within the object's bytes, reaches no further than the object.
pub proof fn lemma_section_in_object(
    segs: Seq<Seq<u8>>,
    seg: int,
    tag: WirePointer,
    ptr: int,
    e: int,
    start: int,
    count: int,
    f: nat,
    s: int,
    j: int,
)
    requires
        0 <= seg < segs.len(),
        0 <= start,
        start + 8 * count <= segs[seg].len(),
        ptr <= start,
        start + 8 * count <= ptr + object_extent(segs[seg], tag, ptr),
        forall|q: int|
            0 <= q < count ==> #[trigger] child_pos(segs, seg, tag, ptr, e, q) == Some(start + 8 * q),
        in_section(segs, seg, start, count, f, s, j),
    ensures
        in_object(segs, seg, tag, ptr, f, s, j),
{
    if !(s == seg && start <= j < start + 8 * count) {
        let q = choose|q: int|
            0 <= q < count && #[trigger] in_value(
                segs,
                seg,
                start + 8 * q,
                wire_pointer_at(segs[seg], start + 8 * q),
                (f - 1) as nat,
                s,
                j,
            );
        assert(child_pos(segs, seg, tag, ptr, e, q) == Some(start + 8 * q));
        assert(is_child(segs, seg, tag, ptr, e, q));
    }
}

/// Where `b` is `a` with some words set to zero, what a pointer section
/// reaches in `b` with some fuel it reached in `a` with at least as much.
pub proof fn lemma_section_state(
    a: Seq<Seq<u8>>,
    b: Seq<Seq<u8>>,
    seg: int,
    start: int,
    count: int,
    f: nat,
    g: nat,
    s: int,
    j: int,
)
    requires
        words_zeroed(a, b),
        f <= g,
        0 <= seg < a.len(),
        0 <= start,
        start % 8 == 0,
        start + 8 * count <= a[seg].len(),
        0 <= s < a.len(),
        0 <= j < a[s].len(),
        in_section(b, seg, start, count, f, s, j),
    ensures
        in_section(a, seg, start, count, g, s, j),
{
    if !(s == seg && start <= j < start + 8 * count) {
        let q = choose|q: int|
            0 <= q < count && #[trigger] in_value(
                b,
                seg,
                start + 8 * q,
                wire_pointer_at(b[seg], start + 8 * q),
                (f - 1) as nat,
                s,
                j,
            );
        let c = start + 8 * q;
        let cb = wire_pointer_at(b[seg], c);
        lemma_words_zeroed_pointer(a, b, seg, c);
        if cb.spec_is_null() {
            lemma_in_value_null(b, seg, c, cb, (f - 1) as nat, s, j);
        } else {
            lemma_in_value_state(a, b, seg, c, cb, (f - 1) as nat, s, j);
            lemma_in_value_fuel(a, seg, c, cb, (f - 1) as nat, (g - 1) as nat, s, j);
            assert(in_value(a, seg, start + 8 * q, wire_pointer_at(a[seg], start + 8 * q), (g - 1) as nat, s, j));
        }
    }
}

/// The `count` pointers at byte `start` of segment `seg` can all be zeroed,
/// with `fuel` pointers to follow: each is null or leads to something that
/// can be zeroed.
pub open spec fn zeroable_section(
    segs: Seq<Seq<u8>>,
    seg: int,
    start: int,
    count: int,
    fuel: nat,
) -> bool
    decreases fuel, 0nat,
{
    forall|q: int|
        0 <= q < count ==> {
            let p = #[trigger] wire_pointer_at(segs[seg], start + 8 * q);
            p.spec_is_null() || (fuel > 0 && zeroable_value(
                segs,
                seg,
                start + 8 * q,
                p,
                (fuel - 1) as nat,
            ))
        }
}

/// The byte position of the pointer section of element `e` of an
/// inline-composite list whose elements start at byte `first`.
pub open spec fn element_section(first: int, sr: StructRef, e: int) -> int {
    first + 8 * (e * sr.spec_word_size() + sr.data_size)
}

/// The object `tag` at byte `ptr` of segment `seg` can be zeroed, with
/// `fuel` pointers to follow: it lies within its segment, it is no
/// capability and no far pointer stands where its tag belongs, and what its
/// pointers lead to can be zeroed.
pub open spec fn zeroable_object(
    segs: Seq<Seq<u8>>,
    seg: int,
    tag: WirePointer,
    ptr: int,
    fuel: nat,
) -> bool
    decreases fuel, 1nat,
{
    &&& 0 <= seg < segs.len()
    &&& 0 <= ptr <= segs[seg].len()
    &&& match tag.spec_kind() {
        WirePointerKind::WP_STRUCT => {
            let sr = tag.spec_struct_ref();
            &&& ptr + 8 * sr.spec_word_size() <= segs[seg].len()
            &&& zeroable_section(segs, seg, ptr + 8 * sr.data_size, sr.ptr_count as int, fuel)
        },
        WirePointerKind::WP_LIST => {
            let lr = tag.spec_list_ref();
            let es = lr.spec_element_size();
            if es == FieldSize::VOID {
                true
            } else if es == FieldSize::POINTER {
                &&& ptr + 8 * lr.spec_element_count() <= segs[seg].len()
                &&& zeroable_section(segs, seg, ptr, lr.spec_element_count() as int, fuel)
            } else if es == FieldSize::INLINE_COMPOSITE {
                let etag = wire_pointer_at(segs[seg], ptr);
                let sr = etag.spec_struct_ref();
                &&& ptr + 8 <= segs[seg].len()
                &&& etag.spec_kind() == WirePointerKind::WP_STRUCT
                &&& ptr + object_extent(segs[seg], tag, ptr) <= segs[seg].len()
                &&& forall|e: int|
                    0 <= e < etag.offset_words() ==> zeroable_section(
                        segs,
                        seg,
                        #[trigger] element_section(ptr + 8, sr, e),
                        sr.ptr_count as int,
                        fuel,
                    )
            } else {
                ptr + object_extent(segs[seg], tag, ptr) <= segs[seg].len()
            }
        },
        _ => false,
    }
}

/// What pointer `p`, standing at byte `pos` of segment `seg`, leads to can
/// be zeroed, with `fuel` pointers to follow.
pub open spec fn zeroable_value(
    segs: Seq<Seq<u8>>,
    seg: int,
    pos: int,
    p: WirePointer,
    fuel: nat,
) -> bool
    decreases fuel, 2nat,
{
    if p.spec_kind() == WirePointerKind::WP_FAR {
        let id = p.spec_far_ref().segment_id as int;
        let pad = 8 * p.spec_far_position() as int;
        let padp = wire_pointer_at(segs[id], pad);
        &&& 0 <= id < segs.len()
        &&& pad + (if p.spec_is_double_far() {
            16int
        } else {
            8int
        }) <= segs[id].len()
        &&& padp.spec_is_null() || (fuel > 0 && if !p.spec_is_double_far() {
            zeroable_value(segs, id, pad, padp, (fuel - 1) as nat)
        } else {
            zeroable_object(
                segs,
                padp.spec_far_ref().segment_id as int,
                wire_pointer_at(segs[id], pad + 8),
                8 * padp.spec_far_position() as int,
                (fuel - 1) as nat,
            )
        })
    } else {
        zeroable_object(segs, seg, p, p.spec_target(pos), fuel)
    }
}

/// Setting words to zero keeps a pointer section that can be zeroed so.
pub proof fn lemma_zeroable_section_state(
    a: Seq<Seq<u8>>,
    b: Seq<Seq<u8>>,
    seg: int,
    start: int,
    count: int,
    f: nat,
)
    requires
        words_zeroed(a, b),
        0 <= seg < a.len(),
        0 <= start,
        start % 8 == 0,
        start + 8 * count <= a[seg].len(),
        zeroable_section(a, seg, start, count, f),
    ensures
        zeroable_section(b, seg, start, count, f),
    decreases f, 0nat,
{
    assert forall|q: int| 0 <= q < count implies {
        let p = #[trigger] wire_pointer_at(b[seg], start + 8 * q);
        p.spec_is_null() || (f > 0 && zeroable_value(b, seg, start + 8 * q, p, (f - 1) as nat))
    } by {
        let c = start + 8 * q;
        let pa = wire_pointer_at(a[seg], c);
        lemma_words_zeroed_pointer(a, b, seg, c);
        if !wire_pointer_at(b[seg], c).spec_is_null() {
            lemma_zeroable_value_state(a, b, seg, c, pa, (f - 1) as nat);
        }
    }
}

/// Setting words to zero keeps an object that can be zeroed so.
pub proof fn lemma_zeroable_object_state(
    a: Seq<Seq<u8>>,
    b: Seq<Seq<u8>>,
    seg: int,
    tag: WirePointer,
    ptr: int,
    f: nat,
)
    requires
        words_zeroed(a, b),
        ptr % 8 == 0,
        zeroable_object(a, seg, tag, ptr, f),
    ensures
        zeroable_object(b, seg, tag, ptr, f),
    decreases f, 1nat,
{
    assert(b[seg].len() == a[seg].len());
    match tag.spec_kind() {
        WirePointerKind::WP_STRUCT => {
            let sr = tag.spec_struct_ref();
            lemma_zeroable_section_state(a, b, seg, ptr + 8 * sr.data_size, sr.ptr_count as int, f);
        },
        WirePointerKind::WP_LIST => {
            let lr = tag.spec_list_ref();
            let es = lr.spec_element_size();
            if es == FieldSize::POINTER {
                lemma_zeroable_section_state(a, b, seg, ptr, lr.spec_element_count() as int, f);
            } else if es == FieldSize::INLINE_COMPOSITE {
                let ea = wire_pointer_at(a[seg], ptr);
                let eb = wire_pointer_at(b[seg], ptr);
                lemma_words_zeroed_pointer(a, b, seg, ptr);
                let n = ea.offset_words() as int;
                let w = ea.spec_struct_ref().spec_word_size() as int;
                assert(w * n >= 0) by (nonlinear_arith)
                    requires
                        w >= 0,
                        n >= 0,
                ;
                if eb == ea {
                    let sr = ea.spec_struct_ref();
                    assert forall|e: int| 0 <= e < eb.offset_words() implies zeroable_section(
                        b,
                        seg,
                        #[trigger] element_section(ptr + 8, sr, e),
                        sr.ptr_count as int,
                        f,
                    ) by {
                        assert(zeroable_section(
                            a,
                            seg,
                            element_section(ptr + 8, sr, e),
                            sr.ptr_count as int,
                            f,
                        ));
                        assert(e * w + w <= n * w) by (nonlinear_arith)
                            requires
                                e < n,
                                w >= 0,
                        ;
                        assert(w * n == n * w) by (nonlinear_arith);
                        lemma_zeroable_section_state(
                            a,
                            b,
                            seg,
                            element_section(ptr + 8, sr, e),
                            sr.ptr_count as int,
                            f,
                        );
                    }
                } else {
                    assert(eb.offset_words() == 0);
                    assert(eb.spec_kind() == WirePointerKind::WP_STRUCT);
                }
            }
        },
        _ => {},
    }
}

/// Setting words to zero keeps what a pointer leads to, where that can be
/// zeroed, so.
pub proof fn lemma_zeroable_value_state(
    a: Seq<Seq<u8>>,
    b: Seq<Seq<u8>>,
    seg: int,
    pos: int,
    p: WirePointer,
    f: nat,
)
    requires
        words_zeroed(a, b),
        pos % 8 == 0,
        0 <= pos,
        zeroable_value(a, seg, pos, p, f),
    ensures
        zeroable_value(b, seg, pos, p, f),
    decreases f, 2nat,
{
    if p.spec_kind() == WirePointerKind::WP_FAR {
        let id = p.spec_far_ref().segment_id as int;
        let pad = 8 * p.spec_far_position() as int;
        let pa = wire_pointer_at(a[id], pad);
        let pb = wire_pointer_at(b[id], pad);
        assert(b[id].len() == a[id].len());
        lemma_words_zeroed_pointer(a, b, id, pad);
        if !pb.spec_is_null() {
            if !p.spec_is_double_far() {
                lemma_zeroable_value_state(a, b, id, pad, pa, (f - 1) as nat);
            } else {
                lemma_words_zeroed_pointer(a, b, id, pad + 8);
                let ta = wire_pointer_at(a[id], pad + 8);
                let tb = wire_pointer_at(b[id], pad + 8);
                let s2 = pa.spec_far_ref().segment_id as int;
                let p2 = 8 * pa.spec_far_position() as int;
                lemma_zeroable_object_state(a, b, s2, ta, p2, (f - 1) as nat);
                assert(b[s2].len() == a[s2].len());
                if tb != ta {
                    assert(tb.spec_kind() == WirePointerKind::WP_STRUCT);
                    assert(tb.spec_struct_ref().spec_word_size() == 0);
                    assert(tb.spec_struct_ref().ptr_count == 0);
                    assert(zeroable_section(b, s2, p2 + 8 * tb.spec_struct_ref().data_size, 0, (f - 1) as nat));
                    assert(zeroable_object(b, s2, tb, p2, (f - 1) as nat));
                }
            }
        }
    } else {
        assert(p.spec_target(pos) % 8 == 0);
        lemma_zeroable_object_state(a, b, seg, p, p.spec_target(pos), f);
    }
}

/// What the pointer at byte `reff` of segment `seg` leads to can be zeroed
/// (within some number of pointers): it lies within the message and holds
/// no capability. A null pointer leads to nothing and qualifies.
pub open spec fn old_object_zeroable(segs: Seq<Seq<u8>>, seg: int, reff: int) -> bool {
    exists|d: nat| zeroable_value(segs, seg, reff, wire_pointer_at(segs[seg], reff), d)
}

/// What the pointer at byte `reff` of segment `seg` leads to can be zeroed
/// and is a tree: no object it reaches, and no landing pad on the way,
/// overlaps another or the pointers that lead to it.
pub open spec fn old_object_tree(segs: Seq<Seq<u8>>, seg: int, reff: int) -> bool {
    exists|d: nat|
        zeroable_value(segs, seg, reff, wire_pointer_at(segs[seg], reff), d) && tree_value(
            segs,
            seg,
            reff,
            wire_pointer_at(segs[seg], reff),
            d,
        )
}

/// Where what a pointer leads to can be zeroed within `d` pointers, no more
/// fuel reaches further than `d`.
pub proof fn lemma_in_value_stable(
    segs: Seq<Seq<u8>>,
    seg: int,
    pos: int,
    p: WirePointer,
    d: nat,
    g: nat,
    s: int,
    j: int,
)
    requires
        zeroable_value(segs, seg, pos, p, d),
        in_value(segs, seg, pos, p, g, s, j),
    ensures
        in_value(segs, seg, pos, p, d, s, j),
    decreases g, 2nat,
{
    if p.spec_kind() == WirePointerKind::WP_FAR {
        let id = p.spec_far_ref().segment_id as int;
        let pad = 8 * p.spec_far_position() as int;
        let padp = wire_pointer_at(segs[id], pad);
        if !p.spec_is_double_far() {
            if !(s == id && pad <= j < pad + 8) {
                if padp.spec_is_null() {
                    lemma_in_value_null(segs, id, pad, padp, (g - 1) as nat, s, j);
                } else {
                    lemma_in_value_stable(segs, id, pad, padp, (d - 1) as nat, (g - 1) as nat, s, j);
                }
            }
        } else {
            if !(s == id && pad <= j < pad + 16) {
                lemma_in_object_stable(segs, padp.spec_far_ref().segment_id as int,
                    wire_pointer_at(segs[id], pad + 8), 8 * padp.spec_far_position() as int,
                    (d - 1) as nat, (g - 1) as nat, s, j);
            }
        }
    } else {
        lemma_in_object_stable(segs, seg, p, p.spec_target(pos), d, g, s, j);
    }
}

/// Where an object can be zeroed within `d` pointers, no more fuel reaches
/// further than `d`.
pub proof fn lemma_in_object_stable(
    segs: Seq<Seq<u8>>,
    seg: int,
    tag: WirePointer,
    ptr: int,
    d: nat,
    g: nat,
    s: int,
    j: int,
)
    requires
        zeroable_object(segs, seg, tag, ptr, d),
        in_object(segs, seg, tag, ptr, g, s, j),
    ensures
        in_object(segs, seg, tag, ptr, d, s, j),
    decreases g, 1nat,
{
    if !(s == seg && ptr <= j < ptr + object_extent(segs[seg], tag, ptr)) {
        let (e, q) = choose|e: int, q: int|
            #[trigger] is_child(segs, seg, tag, ptr, e, q) && in_value(
                segs,
                seg,
                child_pos(segs, seg, tag, ptr, e, q)->0,
                wire_pointer_at(segs[seg], child_pos(segs, seg, tag, ptr, e, q)->0),
                (g - 1) as nat,
                s,
                j,
            );
        let c = child_pos(segs, seg, tag, ptr, e, q)->0;
        let cp = wire_pointer_at(segs[seg], c);
        lemma_child_zeroable(segs, seg, tag, ptr, d, e, q);
        if cp.spec_is_null() {
            lemma_in_value_null(segs, seg, c, cp, (g - 1) as nat, s, j);
        } else {
            lemma_in_value_stable(segs, seg, c, cp, (d - 1) as nat, (g - 1) as nat, s, j);
            assert(is_child(segs, seg, tag, ptr, e, q));
        }
    }
}

/// Each pointer of an object that can be zeroed within `d` pointers is null
/// or leads to what can be zeroed within `d - 1`.
pub proof fn lemma_child_zeroable(
    segs: Seq<Seq<u8>>,
    seg: int,
    tag: WirePointer,
    ptr: int,
    d: nat,
    e: int,
    q: int,
)
    requires
        zeroable_object(segs, seg, tag, ptr, d),
        is_child(segs, seg, tag, ptr, e, q),
    ensures
        ({
            let c = child_pos(segs, seg, tag, ptr, e, q)->0;
            let cp = wire_pointer_at(segs[seg], c);
            cp.spec_is_null() || (d > 0 && zeroable_value(segs, seg, c, cp, (d - 1) as nat))
        }),
{
    let c = child_pos(segs, seg, tag, ptr, e, q)->0;
    match tag.spec_kind() {
        WirePointerKind::WP_STRUCT => {
            let sr = tag.spec_struct_ref();
            assert(zeroable_section(segs, seg, ptr + 8 * sr.data_size, sr.ptr_count as int, d));
            assert(c == ptr + 8 * sr.data_size + 8 * q);
            let w = wire_pointer_at(segs[seg], ptr + 8 * sr.data_size + 8 * q);
        },
        WirePointerKind::WP_LIST => {
            let lr = tag.spec_list_ref();
            if lr.spec_element_size() == FieldSize::POINTER {
                assert(zeroable_section(segs, seg, ptr, lr.spec_element_count() as int, d));
                let w = wire_pointer_at(segs[seg], ptr + 8 * q);
            } else {
                let etag = wire_pointer_at(segs[seg], ptr);
                let sr = etag.spec_struct_ref();
                let st = element_section(ptr + 8, sr, e);
                assert(zeroable_section(segs, seg, st, sr.ptr_count as int, d));
                assert(c == st + 8 * q);
                let w = wire_pointer_at(segs[seg], st + 8 * q);
            }
        },
        _ => {},
    }
}

/// Byte `j` of segment `s` is reached, within `f` pointers, through pointer
/// `q` of element `e` of the object `tag` at byte `ptr` of segment `seg`.
pub open spec fn child_reaches(
    segs: Seq<Seq<u8>>,
    seg: int,
    tag: WirePointer,
    ptr: int,
    e: int,
    q: int,
    f: nat,
    s: int,
    j: int,
) -> bool {
    &&& is_child(segs, seg, tag, ptr, e, q)
    &&& in_value(
        segs,
        seg,
        child_pos(segs, seg, tag, ptr, e, q)->0,
        wire_pointer_at(segs[seg], child_pos(segs, seg, tag, ptr, e, q)->0),
        f,
        s,
        j,
    )
}

/// What the object `tag` at byte `ptr` of segment `seg` reaches within `d`
/// pointers is a tree: what two of its pointers reach does not overlap, nor
/// does it overlap the object's own bytes, and the same holds further down.
pub open spec fn tree_object(segs: Seq<Seq<u8>>, seg: int, tag: WirePointer, ptr: int, d: nat) -> bool
    decreases d, 1nat,
{
    &&& forall|e: int, q: int|
        #[trigger] is_child(segs, seg, tag, ptr, e, q) && !wire_pointer_at(
            segs[seg],
            child_pos(segs, seg, tag, ptr, e, q)->0,
        ).spec_is_null() ==> d > 0 && tree_value(
            segs,
            seg,
            child_pos(segs, seg, tag, ptr, e, q)->0,
            wire_pointer_at(segs[seg], child_pos(segs, seg, tag, ptr, e, q)->0),
            (d - 1) as nat,
        )
    &&& forall|e: int, q: int, s: int, j: int|
        0 <= s < segs.len() && 0 <= j < segs[s].len() && #[trigger] child_reaches(
            segs,
            seg,
            tag,
            ptr,
            e,
            q,
            (d - 1) as nat,
            s,
            j,
        ) ==> !(s == seg && ptr <= j < ptr + object_extent(segs[seg], tag, ptr))
    &&& forall|e: int, q: int, e2: int, q2: int, s: int, j: int|
        0 <= s < segs.len() && 0 <= j < segs[s].len() && #[trigger] child_reaches(
            segs,
            seg,
            tag,
            ptr,
            e,
            q,
            (d - 1) as nat,
            s,
            j,
        ) && #[trigger] child_reaches(segs, seg, tag, ptr, e2, q2, (d - 1) as nat, s, j) ==> e
            == e2 && q == q2
}

/// What pointer `p` at byte `pos` of segment `seg` reaches within `d`
/// pointers is a tree: the object does not overlap the landing pads, and the
/// object is a tree.
pub open spec fn tree_value(segs: Seq<Seq<u8>>, seg: int, pos: int, p: WirePointer, d: nat) -> bool
    decreases d, 2nat,
{
    if p.spec_kind() == WirePointerKind::WP_FAR {
        let id = p.spec_far_ref().segment_id as int;
        let pad = 8 * p.spec_far_position() as int;
        let padp = wire_pointer_at(segs[id], pad);
        &&& 0 <= id < segs.len()
        &&& pad + (if p.spec_is_double_far() {
            16int
        } else {
            8int
        }) <= segs[id].len()
        &&& if !p.spec_is_double_far() {
            padp.spec_is_null() || (d > 0 && tree_value(segs, id, pad, padp, (d - 1) as nat)
                && forall|s: int, j: int|
                0 <= s < segs.len() && 0 <= j < segs[s].len() && #[trigger] in_value(
                    segs,
                    id,
                    pad,
                    padp,
                    (d - 1) as nat,
                    s,
                    j,
                ) ==> !(s == id && pad <= j < pad + 8))
        } else {
            let s2 = padp.spec_far_ref().segment_id as int;
            let tag = wire_pointer_at(segs[id], pad + 8);
            let p2 = 8 * padp.spec_far_position() as int;
            padp.spec_is_null() || (d > 0 && tree_object(segs, s2, tag, p2, (d - 1) as nat)
                && forall|s: int, j: int|
                0 <= s < segs.len() && 0 <= j < segs[s].len() && #[trigger] in_object(
                    segs,
                    s2,
                    tag,
                    p2,
                    (d - 1) as nat,
                    s,
                    j,
                ) ==> !(s == id && pad <= j < pad + 16))
        }
    } else {
        tree_object(segs, seg, p, p.spec_target(pos), d)
    }
}

/// A pointer of an object lies within the object's bytes.
pub proof fn lemma_child_in_extent(
    segs: Seq<Seq<u8>>,
    seg: int,
    tag: WirePointer,
    ptr: int,
    e: int,
    q: int,
)
    requires
        is_child(segs, seg, tag, ptr, e, q),
    ensures
        ptr <= child_pos(segs, seg, tag, ptr, e, q)->0,
        child_pos(segs, seg, tag, ptr, e, q)->0 + 8 <= ptr + object_extent(segs[seg], tag, ptr),
{
    if tag.spec_kind() == WirePointerKind::WP_LIST && tag.spec_list_ref().spec_element_size()
        == FieldSize::INLINE_COMPOSITE {
        let etag = wire_pointer_at(segs[seg], ptr);
        let sr = etag.spec_struct_ref();
        let n = etag.offset_words() as int;
        let w = sr.spec_word_size() as int;
        assert(e * w + w <= n * w) by (nonlinear_arith)
            requires
                0 <= e < n,
                w >= 0,
        ;
        assert(e * w >= 0) by (nonlinear_arith)
            requires
                0 <= e,
                w >= 0,
        ;
        assert(w * n == n * w) by (nonlinear_arith);
    }
}

/// Segments that agree with `a` on every byte a pointer reaches in `a` reach
/// at least those bytes.
pub proof fn lemma_in_value_local(
    a: Seq<Seq<u8>>,
    b: Seq<Seq<u8>>,
    seg: int,
    pos: int,
    p: WirePointer,
    d: nat,
    s: int,
    j: int,
)
    requires
        a.len() == b.len(),
        forall|i: int| 0 <= i < a.len() ==> #[trigger] b[i].len() == a[i].len(),
        forall|s2: int, j2: int|
            0 <= s2 < a.len() && 0 <= j2 < a[s2].len() && #[trigger] in_value(a, seg, pos, p, d, s2, j2)
                ==> b[s2][j2] == a[s2][j2],
        0 <= pos,
        0 <= s < a.len(),
        0 <= j < a[s].len(),
        in_value(a, seg, pos, p, d, s, j),
    ensures
        in_value(b, seg, pos, p, d, s, j),
    decreases d, 2nat,
{
    if p.spec_kind() == WirePointerKind::WP_FAR {
        let id = p.spec_far_ref().segment_id as int;
        let pad = 8 * p.spec_far_position() as int;
        let pa = wire_pointer_at(a[id], pad);
        if !p.spec_is_double_far() {
            if !(s == id && pad <= j < pad + 8) {
                assert forall|k: int| pad <= k < pad + 8 implies a[id][k] == b[id][k] by {
                    assert(in_value(a, seg, pos, p, d, id, k));
                }
                lemma_read_le_same(a[id], b[id], pad, 4);
                lemma_read_le_same(a[id], b[id], pad + 4, 4);
                assert forall|s2: int, j2: int|
                    0 <= s2 < a.len() && 0 <= j2 < a[s2].len() && #[trigger] in_value(
                        a,
                        id,
                        pad,
                        pa,
                        (d - 1) as nat,
                        s2,
                        j2,
                    ) implies b[s2][j2] == a[s2][j2] by {
                    assert(in_value(a, seg, pos, p, d, s2, j2));
                }
                lemma_in_value_local(a, b, id, pad, pa, (d - 1) as nat, s, j);
            }
        } else {
            if !(s == id && pad <= j < pad + 16) {
                assert forall|k: int| pad <= k < pad + 16 implies a[id][k] == b[id][k] by {
                    assert(in_value(a, seg, pos, p, d, id, k));
                }
                lemma_read_le_same(a[id], b[id], pad, 4);
                lemma_read_le_same(a[id], b[id], pad + 4, 4);
                lemma_read_le_same(a[id], b[id], pad + 8, 4);
                lemma_read_le_same(a[id], b[id], pad + 12, 4);
                let s2 = pa.spec_far_ref().segment_id as int;
                let tag = wire_pointer_at(a[id], pad + 8);
                let p2 = 8 * pa.spec_far_position() as int;
                assert forall|t: int, j2: int|
                    0 <= t < a.len() && 0 <= j2 < a[t].len() && #[trigger] in_object(
                        a,
                        s2,
                        tag,
                        p2,
                        (d - 1) as nat,
                        t,
                        j2,
                    ) implies b[t][j2] == a[t][j2] by {
                    assert(in_value(a, seg, pos, p, d, t, j2));
                }
                lemma_in_object_local(a, b, s2, tag, p2, (d - 1) as nat, s, j);
            }
        }
    } else {
        assert forall|s2: int, j2: int|
            0 <= s2 < a.len() && 0 <= j2 < a[s2].len() && #[trigger] in_object(
                a,
                seg,
                p,
                p.spec_target(pos),
                d,
                s2,
                j2,
            ) implies b[s2][j2] == a[s2][j2] by {
            assert(in_value(a, seg, pos, p, d, s2, j2));
        }
        lemma_in_object_local(a, b, seg, p, p.spec_target(pos), d, s, j);
    }
}

/// Segments that agree with `a` on every byte an object reaches in `a` reach
/// at least those bytes.
pub proof fn lemma_in_object_local(
    a: Seq<Seq<u8>>,
    b: Seq<Seq<u8>>,
    seg: int,
    tag: WirePointer,
    ptr: int,
    d: nat,
    s: int,
    j: int,
)
    requires
        a.len() == b.len(),
        forall|i: int| 0 <= i < a.len() ==> #[trigger] b[i].len() == a[i].len(),
        forall|s2: int, j2: int|
            0 <= s2 < a.len() && 0 <= j2 < a[s2].len() && #[trigger] in_object(a, seg, tag, ptr, d, s2, j2)
                ==> b[s2][j2] == a[s2][j2],
        0 <= ptr,
        0 <= s < a.len(),
        0 <= j < a[s].len(),
        in_object(a, seg, tag, ptr, d, s, j),
    ensures
        in_object(b, seg, tag, ptr, d, s, j),
    decreases d, 1nat,
{
    let composite = tag.spec_kind() == WirePointerKind::WP_LIST
        && tag.spec_list_ref().spec_element_size() == FieldSize::INLINE_COMPOSITE;
    let inside = 0 <= seg < a.len() && 0 <= ptr && ptr + 8 <= a[seg].len();
    let ea = wire_pointer_at(a[seg], ptr);
    let eb = wire_pointer_at(b[seg], ptr);
    if composite && inside {
        let n = ea.offset_words() as int;
        let w = ea.spec_struct_ref().spec_word_size() as int;
        assert(w * n >= 0) by (nonlinear_arith)
            requires
                w >= 0,
                n >= 0,
        ;
        assert forall|k: int| ptr <= k < ptr + 8 implies a[seg][k] == b[seg][k] by {
            assert(in_object(a, seg, tag, ptr, d, seg, k));
        }
        lemma_read_le_same(a[seg], b[seg], ptr, 4);
        lemma_read_le_same(a[seg], b[seg], ptr + 4, 4);
        assert(ea == eb);
    }
    if s == seg && ptr <= j < ptr + object_extent(a[seg], tag, ptr) {
        if composite && !inside {
            let n = eb.offset_words() as int;
            let w = eb.spec_struct_ref().spec_word_size() as int;
            assert(w * n >= 0) by (nonlinear_arith)
                requires
                    w >= 0,
                    n >= 0,
            ;
            assert(object_extent(b[seg], tag, ptr) == 8 * (w * n + 1));
            assert(j < ptr + 8);
        }
    } else {
        let (e, q) = choose|e: int, q: int|
            #[trigger] is_child(a, seg, tag, ptr, e, q) && in_value(
                a,
                seg,
                child_pos(a, seg, tag, ptr, e, q)->0,
                wire_pointer_at(a[seg], child_pos(a, seg, tag, ptr, e, q)->0),
                (d - 1) as nat,
                s,
                j,
            );
        let c = child_pos(a, seg, tag, ptr, e, q)->0;
        assert(child_pos(b, seg, tag, ptr, e, q) == child_pos(a, seg, tag, ptr, e, q));
        lemma_child_in_extent(a, seg, tag, ptr, e, q);
        assert forall|k: int| c <= k < c + 8 implies a[seg][k] == b[seg][k] by {
            assert(in_object(a, seg, tag, ptr, d, seg, k));
        }
        lemma_read_le_same(a[seg], b[seg], c, 4);
        lemma_read_le_same(a[seg], b[seg], c + 4, 4);
        let cp = wire_pointer_at(a[seg], c);
        assert(wire_pointer_at(b[seg], c) == cp);
        assert forall|s2: int, j2: int|
            0 <= s2 < a.len() && 0 <= j2 < a[s2].len() && #[trigger] in_value(
                a,
                seg,
                c,
                cp,
                (d - 1) as nat,
                s2,
                j2,
            ) implies b[s2][j2] == a[s2][j2] by {
            assert(is_child(a, seg, tag, ptr, e, q));
            assert(in_object(a, seg, tag, ptr, d, s2, j2));
        }
        lemma_in_value_local(a, b, seg, c, cp, (d - 1) as nat, s, j);
        assert(is_child(b, seg, tag, ptr, e, q));
    }
}

/// Where `b` is `a` with some words set to zero, a pointer's child in `b`
/// that is not null is the same pointer at the same place in `a`.
pub proof fn lemma_child_state(
    a: Seq<Seq<u8>>,
    b: Seq<Seq<u8>>,
    seg: int,
    tag: WirePointer,
    ptr: int,
    e: int,
    q: int,
)
    requires
        words_zeroed(a, b),
        ptr % 8 == 0,
        0 <= ptr,
        is_child(b, seg, tag, ptr, e, q),
        !wire_pointer_at(b[seg], child_pos(b, seg, tag, ptr, e, q)->0).spec_is_null(),
    ensures
        is_child(a, seg, tag, ptr, e, q),
        child_pos(a, seg, tag, ptr, e, q) == child_pos(b, seg, tag, ptr, e, q),
        wire_pointer_at(a[seg], child_pos(a, seg, tag, ptr, e, q)->0) == wire_pointer_at(
            b[seg],
            child_pos(b, seg, tag, ptr, e, q)->0,
        ),
        child_pos(a, seg, tag, ptr, e, q)->0 % 8 == 0,
        child_pos(a, seg, tag, ptr, e, q)->0 >= 0,
{
    assert(b[seg].len() == a[seg].len());
    if tag.spec_kind() == WirePointerKind::WP_LIST && tag.spec_list_ref().spec_element_size()
        == FieldSize::INLINE_COMPOSITE {
        lemma_words_zeroed_pointer(a, b, seg, ptr);
        let eb = wire_pointer_at(b[seg], ptr);
        if eb.spec_is_null() {
            assert(eb.offset_words() == 0);
        }
        let ea = wire_pointer_at(a[seg], ptr);
        assert(ea == eb);
        let sr = ea.spec_struct_ref();
        assert(e * sr.spec_word_size() >= 0) by (nonlinear_arith)
            requires
                0 <= e,
        ;
    }
    let c = child_pos(b, seg, tag, ptr, e, q)->0;
    lemma_words_zeroed_pointer(a, b, seg, c);
}

/// Setting words to zero keeps what an object reaches a tree.
pub proof fn lemma_tree_object_state(
    a: Seq<Seq<u8>>,
    b: Seq<Seq<u8>>,
    seg: int,
    tag: WirePointer,
    ptr: int,
    d: nat,
)
    requires
        words_zeroed(a, b),
        ptr % 8 == 0,
        0 <= ptr,
        tree_object(a, seg, tag, ptr, d),
    ensures
        tree_object(b, seg, tag, ptr, d),
    decreases d, 1nat,
{
    assert forall|e: int, q: int|
        #[trigger] is_child(b, seg, tag, ptr, e, q) && !wire_pointer_at(
            b[seg],
            child_pos(b, seg, tag, ptr, e, q)->0,
        ).spec_is_null() implies d > 0 && tree_value(
        b,
        seg,
        child_pos(b, seg, tag, ptr, e, q)->0,
        wire_pointer_at(b[seg], child_pos(b, seg, tag, ptr, e, q)->0),
        (d - 1) as nat,
    ) by {
        lemma_child_state(a, b, seg, tag, ptr, e, q);
        let c = child_pos(a, seg, tag, ptr, e, q)->0;
        lemma_tree_value_state(a, b, seg, c, wire_pointer_at(a[seg], c), (d - 1) as nat);
    }
    assert forall|e: int, q: int, s: int, j: int|
        0 <= s < b.len() && 0 <= j < b[s].len() && #[trigger] child_reaches(
            b,
            seg,
            tag,
            ptr,
            e,
            q,
            (d - 1) as nat,
            s,
            j,
        ) implies !(s == seg && ptr <= j < ptr + object_extent(b[seg], tag, ptr)) by {
        lemma_child_reaches_state(a, b, seg, tag, ptr, e, q, (d - 1) as nat, s, j);
        lemma_extent_state(a, b, seg, tag, ptr);
    }
    assert forall|e: int, q: int, e2: int, q2: int, s: int, j: int|
        0 <= s < b.len() && 0 <= j < b[s].len() && #[trigger] child_reaches(
            b,
            seg,
            tag,
            ptr,
            e,
            q,
            (d - 1) as nat,
            s,
            j,
        ) && #[trigger] child_reaches(b, seg, tag, ptr, e2, q2, (d - 1) as nat, s, j) implies e
        == e2 && q == q2 by {
        lemma_child_reaches_state(a, b, seg, tag, ptr, e, q, (d - 1) as nat, s, j);
        lemma_child_reaches_state(a, b, seg, tag, ptr, e2, q2, (d - 1) as nat, s, j);
    }
}

/// Where `b` is `a` with some words set to zero, a byte reached through a
/// pointer of an object in `b` is reached through it in `a`.
pub proof fn lemma_child_reaches_state(
    a: Seq<Seq<u8>>,
    b: Seq<Seq<u8>>,
    seg: int,
    tag: WirePointer,
    ptr: int,
    e: int,
    q: int,
    f: nat,
    s: int,
    j: int,
)
    requires
        words_zeroed(a, b),
        ptr % 8 == 0,
        0 <= ptr,
        0 <= s < a.len(),
        0 <= j < a[s].len(),
        child_reaches(b, seg, tag, ptr, e, q, f, s, j),
    ensures
        child_reaches(a, seg, tag, ptr, e, q, f, s, j),
{
    let c = child_pos(b, seg, tag, ptr, e, q)->0;
    let cb = wire_pointer_at(b[seg], c);
    if cb.spec_is_null() {
        lemma_in_value_null(b, seg, c, cb, f, s, j);
    } else {
        lemma_child_state(a, b, seg, tag, ptr, e, q);
        lemma_in_value_state(a, b, seg, c, cb, f, s, j);
    }
}

/// Setting words to zero shrinks no object's bytes but an inline-composite
/// list's, whose tag may become zero.
pub proof fn lemma_extent_state(a: Seq<Seq<u8>>, b: Seq<Seq<u8>>, seg: int, tag: WirePointer, ptr: int)
    requires
        words_zeroed(a, b),
        ptr % 8 == 0,
        0 <= ptr,
    ensures
        0 <= seg < a.len() && ptr + 8 <= a[seg].len() ==> object_extent(b[seg], tag, ptr)
            <= object_extent(a[seg], tag, ptr),
{
    if 0 <= seg < a.len() && ptr + 8 <= a[seg].len() {
        if tag.spec_kind() == WirePointerKind::WP_LIST && tag.spec_list_ref().spec_element_size()
            == FieldSize::INLINE_COMPOSITE {
            lemma_words_zeroed_pointer(a, b, seg, ptr);
            let ea = wire_pointer_at(a[seg], ptr);
            let n = ea.offset_words() as int;
            let w = ea.spec_struct_ref().spec_word_size() as int;
            assert(w * n >= 0) by (nonlinear_arith)
                requires
                    w >= 0,
                    n >= 0,
            ;
        }
    }
}

/// Setting words to zero keeps what a pointer reaches a tree.
pub proof fn lemma_tree_value_state(
    a: Seq<Seq<u8>>,
    b: Seq<Seq<u8>>,
    seg: int,
    pos: int,
    p: WirePointer,
    d: nat,
)
    requires
        words_zeroed(a, b),
        pos % 8 == 0,
        0 <= pos,
        tree_value(a, seg, pos, p, d),
    ensures
        tree_value(b, seg, pos, p, d),
    decreases d, 2nat,
{
    if p.spec_kind() == WirePointerKind::WP_FAR {
        let id = p.spec_far_ref().segment_id as int;
        let pad = 8 * p.spec_far_position() as int;
        let pa = wire_pointer_at(a[id], pad);
        let pb = wire_pointer_at(b[id], pad);
        assert(b[id].len() == a[id].len());
        lemma_words_zeroed_pointer(a, b, id, pad);
        if !pb.spec_is_null() {
            assert(pa == pb);
            assert(d > 0);
            if !p.spec_is_double_far() {
                lemma_tree_value_state(a, b, id, pad, pa, (d - 1) as nat);
                assert forall|s: int, j: int|
                    0 <= s < b.len() && 0 <= j < b[s].len() && #[trigger] in_value(
                        b,
                        id,
                        pad,
                        pb,
                        (d - 1) as nat,
                        s,
                        j,
                    ) implies !(s == id && pad <= j < pad + 8) by {
                    lemma_in_value_state(a, b, id, pad, pb, (d - 1) as nat, s, j);
                }
            } else {
                let s2 = pa.spec_far_ref().segment_id as int;
                let p2 = 8 * pa.spec_far_position() as int;
                let ta = wire_pointer_at(a[id], pad + 8);
                let tb = wire_pointer_at(b[id], pad + 8);
                lemma_words_zeroed_pointer(a, b, id, pad + 8);
                if tb.spec_is_null() {
                    assert forall|e: int, q: int| !#[trigger] is_child(b, s2, tb, p2, e, q) by {}
                    assert forall|e: int, q: int, s: int, j: int|
                        !#[trigger] child_reaches(b, s2, tb, p2, e, q, (d - 2) as nat, s, j) by {}
                    assert(tree_object(b, s2, tb, p2, (d - 1) as nat));
                    assert forall|s: int, j: int|
                        0 <= s < b.len() && 0 <= j < b[s].len() && #[trigger] in_object(
                            b,
                            s2,
                            tb,
                            p2,
                            (d - 1) as nat,
                            s,
                            j,
                        ) implies !(s == id && pad <= j < pad + 16) by {
                        lemma_in_object_null(b, s2, tb, p2, (d - 1) as nat, s, j);
                    }
                } else {
                    lemma_tree_object_state(a, b, s2, ta, p2, (d - 1) as nat);
                    assert forall|s: int, j: int|
                        0 <= s < b.len() && 0 <= j < b[s].len() && #[trigger] in_object(
                            b,
                            s2,
                            tb,
                            p2,
                            (d - 1) as nat,
                            s,
                            j,
                        ) implies !(s == id && pad <= j < pad + 16) by {
                        lemma_in_object_state(a, b, s2, tb, p2, (d - 1) as nat, s, j);
                    }
                }
            }
        }
    } else {
        assert(p.spec_target(pos) % 8 == 0);
        lemma_tree_object_state(a, b, seg, p, p.spec_target(pos), d);
    }
}


/// What the `count` pointers at byte `start` of segment `seg` reach within
/// `d` pointers is a tree: each pointer that is not null reaches a tree, what
/// they reach misses the pointers themselves, and what two of them reach
/// does not overlap.
pub open spec fn tree_section(segs: Seq<Seq<u8>>, seg: int, start: int, count: int, d: nat) -> bool {
    &&& forall|q: int|
        0 <= q < count && !(#[trigger] wire_pointer_at(segs[seg], start + 8 * q)).spec_is_null()
            ==> d > 0 && tree_value(
            segs,
            seg,
            start + 8 * q,
            wire_pointer_at(segs[seg], start + 8 * q),
            (d - 1) as nat,
        )
    &&& forall|q: int, s: int, j: int|
        0 <= q < count && 0 <= s < segs.len() && 0 <= j < segs[s].len() && #[trigger] in_value(
            segs,
            seg,
            start + 8 * q,
            wire_pointer_at(segs[seg], start + 8 * q),
            (d - 1) as nat,
            s,
            j,
        ) ==> !(s == seg && start <= j < start + 8 * count)
    &&& forall|q: int, q2: int, s: int, j: int|
        0 <= q < count && 0 <= q2 < count && 0 <= s < segs.len() && 0 <= j < segs[s].len()
            && #[trigger] in_value(
            segs,
            seg,
            start + 8 * q,
            wire_pointer_at(segs[seg], start + 8 * q),
            (d - 1) as nat,
            s,
            j,
        ) && #[trigger] in_value(
            segs,
            seg,
            start + 8 * q2,
            wire_pointer_at(segs[seg], start + 8 * q2),
            (d - 1) as nat,
            s,
            j,
        ) ==> q == q2
}

/// The pointers of element `e` of an object whose reach is a tree form a
/// section whose reach is a tree.
pub proof fn lemma_tree_section_of_object(
    segs: Seq<Seq<u8>>,
    seg: int,
    tag: WirePointer,
    ptr: int,
    e: int,
    start: int,
    count: int,
    d: nat,
)
    requires
        tree_object(segs, seg, tag, ptr, d),
        0 <= seg < segs.len(),
        0 <= start,
        start + 8 * count <= segs[seg].len(),
        ptr <= start,
        start + 8 * count <= ptr + object_extent(segs[seg], tag, ptr),
        forall|q: int|
            0 <= q < count ==> #[trigger] child_pos(segs, seg, tag, ptr, e, q) == Some(start + 8 * q),
    ensures
        tree_section(segs, seg, start, count, d),
{
    assert forall|q: int|
        0 <= q < count && !(#[trigger] wire_pointer_at(segs[seg], start + 8 * q)).spec_is_null()
            implies d > 0 && tree_value(
            segs,
            seg,
            start + 8 * q,
            wire_pointer_at(segs[seg], start + 8 * q),
            (d - 1) as nat,
        ) by {
        assert(child_pos(segs, seg, tag, ptr, e, q) == Some(start + 8 * q));
        assert(is_child(segs, seg, tag, ptr, e, q));
    }
    assert forall|q: int, s: int, j: int|
        0 <= q < count && 0 <= s < segs.len() && 0 <= j < segs[s].len() && #[trigger] in_value(
            segs,
            seg,
            start + 8 * q,
            wire_pointer_at(segs[seg], start + 8 * q),
            (d - 1) as nat,
            s,
            j,
        ) implies !(s == seg && start <= j < start + 8 * count) by {
        assert(child_pos(segs, seg, tag, ptr, e, q) == Some(start + 8 * q));
        assert(child_reaches(segs, seg, tag, ptr, e, q, (d - 1) as nat, s, j));
    }
    assert forall|q: int, q2: int, s: int, j: int|
        0 <= q < count && 0 <= q2 < count && 0 <= s < segs.len() && 0 <= j < segs[s].len()
            && #[trigger] in_value(
            segs,
            seg,
            start + 8 * q,
            wire_pointer_at(segs[seg], start + 8 * q),
            (d - 1) as nat,
            s,
            j,
        ) && #[trigger] in_value(
            segs,
            seg,
            start + 8 * q2,
            wire_pointer_at(segs[seg], start + 8 * q2),
            (d - 1) as nat,
            s,
            j,
        ) implies q == q2 by {
        assert(child_pos(segs, seg, tag, ptr, e, q) == Some(start + 8 * q));
        assert(child_pos(segs, seg, tag, ptr, e, q2) == Some(start + 8 * q2));
        assert(child_reaches(segs, seg, tag, ptr, e, q, (d - 1) as nat, s, j));
        assert(child_reaches(segs, seg, tag, ptr, e, q2, (d - 1) as nat, s, j));
    }
}

/// Where `b` is `a` with some words set to zero, a byte that was zero stays
/// zero.
pub proof fn lemma_zero_stays(a: Seq<Seq<u8>>, b: Seq<Seq<u8>>, s: int, j: int)
    requires
        words_zeroed(a, b),
        0 <= s < a.len(),
        0 <= j < a[s].len(),
        a[s][j] == 0,
    ensures
        b[s][j] == 0,
{
    if b[s][j] != a[s][j] {
        assert(word_is_zero(b[s], j - j % 8));
    }
}


/// Pointer `q` of the section at byte `start` of segment `seg`.
pub open spec fn section_pointer(segs: Seq<Seq<u8>>, seg: int, start: int, q: int) -> WirePointer {
    wire_pointer_at(segs[seg], start + 8 * q)
}

/// Every byte where `cur` differs from `sv` lies in the first `i` pointers of
/// the section at byte `start` of segment `seg`, or in what they reach (in
/// `sv`) within `d - 1` pointers.
pub open spec fn section_changes_within(
    sv: Seq<Seq<u8>>,
    cur: Seq<Seq<u8>>,
    seg: int,
    start: int,
    i: int,
    d: nat,
) -> bool {
    forall|s: int, j: int|
        0 <= s < sv.len() && 0 <= j < sv[s].len() && #[trigger] cur[s][j] != sv[s][j] ==> (s == seg
            && start <= j < start + 8 * i) || exists|q: int|
            0 <= q < i && #[trigger] in_value(
                sv,
                seg,
                start + 8 * q,
                section_pointer(sv, seg, start, q),
                (d - 1) as nat,
                s,
                j,
            )
}

/// What the first `i` pointers of the section reach (in `sv`) within `d - 1`
/// pointers is zero in `cur`.
pub open spec fn section_prefix_zeroed(
    sv: Seq<Seq<u8>>,
    cur: Seq<Seq<u8>>,
    seg: int,
    start: int,
    i: int,
    d: nat,
) -> bool {
    forall|q: int, s: int, j: int|
        0 <= q < i && 0 <= s < sv.len() && 0 <= j < sv[s].len() && #[trigger] in_value(
            sv,
            seg,
            start + 8 * q,
            section_pointer(sv, seg, start, q),
            (d - 1) as nat,
            s,
            j,
        ) ==> cur[s][j] == 0
}

/// Where a section reaches a tree and only its first `i` pointers and what
/// they reach have changed, pointer `i` and what it reaches are as they were.
pub proof fn lemma_section_agrees(
    sv: Seq<Seq<u8>>,
    cur: Seq<Seq<u8>>,
    seg: int,
    start: int,
    count: int,
    i: int,
    d: nat,
)
    requires
        tree_section(sv, seg, start, count, d),
        section_changes_within(sv, cur, seg, start, i, d),
        words_zeroed(sv, cur),
        0 <= i < count,
        0 <= seg < sv.len(),
        0 <= start,
        start + 8 * count <= sv[seg].len(),
    ensures
        section_pointer(cur, seg, start, i) == section_pointer(sv, seg, start, i),
        forall|s: int, j: int|
            0 <= s < sv.len() && 0 <= j < sv[s].len() && #[trigger] in_value(
                sv,
                seg,
                start + 8 * i,
                section_pointer(sv, seg, start, i),
                (d - 1) as nat,
                s,
                j,
            ) ==> cur[s][j] == sv[s][j],
{
    let c = start + 8 * i;
    assert forall|k: int| c <= k < c + 8 implies sv[seg][k] == cur[seg][k] by {
        if cur[seg][k] != sv[seg][k] {
            let q = choose|q: int|
                0 <= q < i && #[trigger] in_value(
                    sv,
                    seg,
                    start + 8 * q,
                    section_pointer(sv, seg, start, q),
                    (d - 1) as nat,
                    seg,
                    k,
                );
        }
    }
    assert(cur[seg].len() == sv[seg].len());
    lemma_read_le_same(sv[seg], cur[seg], c, 4);
    lemma_read_le_same(sv[seg], cur[seg], c + 4, 4);
    assert forall|s: int, j: int|
        0 <= s < sv.len() && 0 <= j < sv[s].len() && #[trigger] in_value(
            sv,
            seg,
            start + 8 * i,
            section_pointer(sv, seg, start, i),
            (d - 1) as nat,
            s,
            j,
        ) implies cur[s][j] == sv[s][j] by {
        if cur[s][j] != sv[s][j] {
            if !(s == seg && start <= j < start + 8 * i) {
                let q = choose|q: int|
                    0 <= q < i && #[trigger] in_value(
                        sv,
                        seg,
                        start + 8 * q,
                        section_pointer(sv, seg, start, q),
                        (d - 1) as nat,
                        s,
                        j,
                    );
            }
        }
    }
}

/// One step of zeroing a section: after pointer `i`, which was not null, is
/// set to zero in `mid` and what it reaches is zeroed in `fin`, the first
/// `i + 1` pointers are done.
pub proof fn lemma_section_step(
    sv: Seq<Seq<u8>>,
    before: Seq<Seq<u8>>,
    mid: Seq<Seq<u8>>,
    fin: Seq<Seq<u8>>,
    seg: int,
    start: int,
    count: int,
    i: int,
    d: nat,
    b1: nat,
)
    requires
        tree_section(sv, seg, start, count, d),
        zeroable_section(sv, seg, start, count, d),
        section_changes_within(sv, before, seg, start, i, d),
        section_prefix_zeroed(sv, before, seg, start, i, d),
        words_zeroed(sv, before),
        words_zeroed(before, mid),
        words_zeroed(mid, fin),
        0 <= i < count,
        0 <= seg < sv.len(),
        0 <= start,
        start % 8 == 0,
        start + 8 * count <= sv[seg].len(),
        !section_pointer(sv, seg, start, i).spec_is_null(),
        changed_only_where(before, mid, |s: int, j: int| s == seg && start + 8 * i <= j < start + 8 * i + 8),
        changed_only_where(
            mid,
            fin,
            |s: int, j: int| in_value(mid, seg, start + 8 * i, section_pointer(sv, seg, start, i), b1, s, j),
        ),
        forall|s: int, j: int|
            0 <= s < mid.len() && 0 <= j < mid[s].len() && #[trigger] in_value(
                mid,
                seg,
                start + 8 * i,
                section_pointer(sv, seg, start, i),
                (d - 1) as nat,
                s,
                j,
            ) ==> fin[s][j] == 0,
    ensures
        section_changes_within(sv, fin, seg, start, i + 1, d),
        section_prefix_zeroed(sv, fin, seg, start, i + 1, d),
{
    let c = start + 8 * i;
    let cp = section_pointer(sv, seg, start, i);
    assert(zeroable_value(sv, seg, c, cp, (d - 1) as nat));
    lemma_words_zeroed_trans(sv, before, mid);
    lemma_words_zeroed_trans(before, mid, fin);
    lemma_section_agrees(sv, before, seg, start, count, i, d);
    assert forall|s: int, j: int|
        0 <= s < sv.len() && 0 <= j < sv[s].len() && #[trigger] in_value(sv, seg, c, cp, (d - 1) as nat, s, j)
            implies mid[s][j] == sv[s][j] by {
        assert(in_value(sv, seg, start + 8 * i, section_pointer(sv, seg, start, i), (d - 1) as nat, s, j));
        assert(before[s][j] == sv[s][j]);
        assert(!(s == seg && start <= j < start + 8 * count));
        assert(mid[s].len() == before[s].len());
    }
    assert forall|q: int, s: int, j: int|
        0 <= q < i + 1 && 0 <= s < sv.len() && 0 <= j < sv[s].len() && #[trigger] in_value(
            sv,
            seg,
            start + 8 * q,
            section_pointer(sv, seg, start, q),
            (d - 1) as nat,
            s,
            j,
        ) implies fin[s][j] == 0 by {
        if q < i {
            lemma_zero_stays(before, fin, s, j);
        } else {
            lemma_in_value_local(sv, mid, seg, c, cp, (d - 1) as nat, s, j);
        }
    }
    assert forall|s: int, j: int|
        0 <= s < sv.len() && 0 <= j < sv[s].len() && #[trigger] fin[s][j] != sv[s][j] implies (s == seg
            && start <= j < start + 8 * (i + 1)) || exists|q: int|
            0 <= q < i + 1 && #[trigger] in_value(
                sv,
                seg,
                start + 8 * q,
                section_pointer(sv, seg, start, q),
                (d - 1) as nat,
                s,
                j,
            ) by {
        assert(before[s].len() == sv[s].len());
        assert(mid[s].len() == sv[s].len());
        if before[s][j] != sv[s][j] {
            if !(s == seg && start <= j < start + 8 * i) {
                let q = choose|q: int|
                    0 <= q < i && #[trigger] in_value(
                        sv,
                        seg,
                        start + 8 * q,
                        section_pointer(sv, seg, start, q),
                        (d - 1) as nat,
                        s,
                        j,
                    );
                assert(0 <= q < i + 1);
            }
        } else if mid[s][j] != before[s][j] {
        } else {
            assert(fin[s][j] != mid[s][j]);
            assert(in_value(mid, seg, c, cp, b1, s, j));
            lemma_in_value_state(sv, mid, seg, c, cp, b1, s, j);
            lemma_in_value_stable(sv, seg, c, cp, (d - 1) as nat, b1, s, j);
            assert(in_value(sv, seg, start + 8 * i, section_pointer(sv, seg, start, i), (d - 1) as nat, s, j));
        }
    }
}


/// Passing over a null pointer `i` of a section: the first `i + 1` pointers
/// are done.
pub proof fn lemma_section_null_step(
    sv: Seq<Seq<u8>>,
    cur: Seq<Seq<u8>>,
    seg: int,
    start: int,
    i: int,
    d: nat,
)
    requires
        section_changes_within(sv, cur, seg, start, i, d),
        section_prefix_zeroed(sv, cur, seg, start, i, d),
        section_pointer(sv, seg, start, i).spec_is_null(),
    ensures
        section_changes_within(sv, cur, seg, start, i + 1, d),
        section_prefix_zeroed(sv, cur, seg, start, i + 1, d),
{
    assert forall|q: int, s: int, j: int|
        0 <= q < i + 1 && 0 <= s < sv.len() && 0 <= j < sv[s].len() && #[trigger] in_value(
            sv,
            seg,
            start + 8 * q,
            section_pointer(sv, seg, start, q),
            (d - 1) as nat,
            s,
            j,
        ) implies cur[s][j] == 0 by {
        if q == i {
            lemma_in_value_null(sv, seg, start + 8 * q, section_pointer(sv, seg, start, q), (d - 1) as nat, s, j);
        }
    }
    assert forall|s: int, j: int|
        0 <= s < sv.len() && 0 <= j < sv[s].len() && #[trigger] cur[s][j] != sv[s][j] implies (s == seg
            && start <= j < start + 8 * (i + 1)) || exists|q: int|
            0 <= q < i + 1 && #[trigger] in_value(
                sv,
                seg,
                start + 8 * q,
                section_pointer(sv, seg, start, q),
                (d - 1) as nat,
                s,
                j,
            ) by {
        if !(s == seg && start <= j < start + 8 * i) {
            let q = choose|q: int|
                0 <= q < i && #[trigger] in_value(
                    sv,
                    seg,
                    start + 8 * q,
                    section_pointer(sv, seg, start, q),
                    (d - 1) as nat,
                    s,
                    j,
                );
            assert(0 <= q < i + 1);
        }
    }
}

/// Once all `count` pointers of a section are zero and what they reach is
/// zero, all that the section reaches is zero.
pub proof fn lemma_section_done(sv: Seq<Seq<u8>>, cur: Seq<Seq<u8>>, seg: int, start: int, count: int, d: nat)
    requires
        section_prefix_zeroed(sv, cur, seg, start, count, d),
        forall|j: int| start <= j < start + 8 * count ==> #[trigger] cur[seg][j] == 0,
    ensures
        forall|s: int, j: int|
            0 <= s < sv.len() && 0 <= j < sv[s].len() && #[trigger] in_section(sv, seg, start, count, d, s, j)
                ==> cur[s][j] == 0,
{
    assert forall|s: int, j: int|
        0 <= s < sv.len() && 0 <= j < sv[s].len() && #[trigger] in_section(sv, seg, start, count, d, s, j)
            implies cur[s][j] == 0 by {
        if !(s == seg && start <= j < start + 8 * count) {
            let q = choose|q: int|
                0 <= q < count && #[trigger] in_value(
                    sv,
                    seg,
                    start + 8 * q,
                    wire_pointer_at(sv[seg], start + 8 * q),
                    (d - 1) as nat,
                    s,
                    j,
                );
            assert(section_pointer(sv, seg, start, q) == wire_pointer_at(sv[seg], start + 8 * q));
        }
    }
}


/// Setting words to zero keeps what a section reaches a tree.
pub proof fn lemma_tree_section_state(
    a: Seq<Seq<u8>>,
    b: Seq<Seq<u8>>,
    seg: int,
    start: int,
    count: int,
    d: nat,
)
    requires
        words_zeroed(a, b),
        tree_section(a, seg, start, count, d),
        0 <= seg < a.len(),
        0 <= start,
        start % 8 == 0,
        start + 8 * count <= a[seg].len(),
    ensures
        tree_section(b, seg, start, count, d),
{
    assert forall|q: int|
        0 <= q < count && !(#[trigger] wire_pointer_at(b[seg], start + 8 * q)).spec_is_null()
            implies d > 0 && tree_value(
            b,
            seg,
            start + 8 * q,
            wire_pointer_at(b[seg], start + 8 * q),
            (d - 1) as nat,
        ) by {
        lemma_words_zeroed_pointer(a, b, seg, start + 8 * q);
        assert(!wire_pointer_at(a[seg], start + 8 * q).spec_is_null());
        lemma_tree_value_state(a, b, seg, start + 8 * q, wire_pointer_at(a[seg], start + 8 * q), (d - 1) as nat);
    }
    assert forall|q: int, s: int, j: int|
        0 <= q < count && 0 <= s < b.len() && 0 <= j < b[s].len() && #[trigger] in_value(
            b,
            seg,
            start + 8 * q,
            wire_pointer_at(b[seg], start + 8 * q),
            (d - 1) as nat,
            s,
            j,
        ) implies !(s == seg && start <= j < start + 8 * count) by {
        let pb = wire_pointer_at(b[seg], start + 8 * q);
        lemma_words_zeroed_pointer(a, b, seg, start + 8 * q);
        if pb.spec_is_null() {
            lemma_in_value_null(b, seg, start + 8 * q, pb, (d - 1) as nat, s, j);
        } else {
            lemma_in_value_state(a, b, seg, start + 8 * q, pb, (d - 1) as nat, s, j);
            assert(in_value(a, seg, start + 8 * q, wire_pointer_at(a[seg], start + 8 * q), (d - 1) as nat, s, j));
        }
    }
    assert forall|q: int, q2: int, s: int, j: int|
        0 <= q < count && 0 <= q2 < count && 0 <= s < b.len() && 0 <= j < b[s].len()
            && #[trigger] in_value(
            b,
            seg,
            start + 8 * q,
            wire_pointer_at(b[seg], start + 8 * q),
            (d - 1) as nat,
            s,
            j,
        ) && #[trigger] in_value(
            b,
            seg,
            start + 8 * q2,
            wire_pointer_at(b[seg], start + 8 * q2),
            (d - 1) as nat,
            s,
            j,
        ) implies q == q2 by {
        let pb = wire_pointer_at(b[seg], start + 8 * q);
        let pb2 = wire_pointer_at(b[seg], start + 8 * q2);
        lemma_words_zeroed_pointer(a, b, seg, start + 8 * q);
        lemma_words_zeroed_pointer(a, b, seg, start + 8 * q2);
        if pb.spec_is_null() {
            lemma_in_value_null(b, seg, start + 8 * q, pb, (d - 1) as nat, s, j);
        } else if pb2.spec_is_null() {
            lemma_in_value_null(b, seg, start + 8 * q2, pb2, (d - 1) as nat, s, j);
        } else {
            lemma_in_value_state(a, b, seg, start + 8 * q, pb, (d - 1) as nat, s, j);
            lemma_in_value_state(a, b, seg, start + 8 * q2, pb2, (d - 1) as nat, s, j);
            assert(in_value(a, seg, start + 8 * q, wire_pointer_at(a[seg], start + 8 * q), (d - 1) as nat, s, j));
            assert(in_value(a, seg, start + 8 * q2, wire_pointer_at(a[seg], start + 8 * q2), (d - 1) as nat, s, j));
        }
    }
}

/// Every byte where `cur` differs from `a0` lies in the elements of the
/// inline-composite list before byte `bound`, or in what the pointers of its
/// first `e` elements reach (in `a0`) within `d - 1` pointers.
pub open spec fn elements_changes_within(
    a0: Seq<Seq<u8>>,
    cur: Seq<Seq<u8>>,
    seg: int,
    tag: WirePointer,
    ptr: int,
    e: int,
    bound: int,
    d: nat,
) -> bool {
    forall|s: int, j: int|
        0 <= s < a0.len() && 0 <= j < a0[s].len() && #[trigger] cur[s][j] != a0[s][j] ==> (s == seg
            && ptr + 8 <= j < bound) || exists|e2: int, q: int|
            0 <= e2 < e && #[trigger] child_reaches(a0, seg, tag, ptr, e2, q, (d - 1) as nat, s, j)
}

/// What the pointers of the first `e` elements reach (in `a0`) within `d - 1`
/// pointers is zero in `cur`.
pub open spec fn elements_prefix_zeroed(
    a0: Seq<Seq<u8>>,
    cur: Seq<Seq<u8>>,
    seg: int,
    tag: WirePointer,
    ptr: int,
    e: int,
    d: nat,
) -> bool {
    forall|e2: int, q: int, s: int, j: int|
        0 <= e2 < e && 0 <= s < a0.len() && 0 <= j < a0[s].len() && #[trigger] child_reaches(
            a0,
            seg,
            tag,
            ptr,
            e2,
            q,
            (d - 1) as nat,
            s,
            j,
        ) ==> cur[s][j] == 0
}

/// One step of zeroing an inline-composite list: once the pointer section of
/// element `e` is zeroed with all it reaches, the first `e + 1` elements are
/// done.
pub proof fn lemma_elements_step(
    a0: Seq<Seq<u8>>,
    before: Seq<Seq<u8>>,
    after: Seq<Seq<u8>>,
    seg: int,
    tag: WirePointer,
    ptr: int,
    e: int,
    d: nat,
    b1: nat,
)
    requires
        tree_object(a0, seg, tag, ptr, d),
        zeroable_object(a0, seg, tag, ptr, d),
        tag.spec_kind() == WirePointerKind::WP_LIST,
        tag.spec_list_ref().spec_element_size() == FieldSize::INLINE_COMPOSITE,
        0 <= e < wire_pointer_at(a0[seg], ptr).offset_words(),
        ptr % 8 == 0,
        0 <= ptr,
        0 <= seg < a0.len(),
        ({
            let sr = wire_pointer_at(a0[seg], ptr).spec_struct_ref();
            let sec = element_section(ptr + 8, sr, e);
            &&& elements_changes_within(a0, before, seg, tag, ptr, e, sec - 8 * sr.data_size, d)
            &&& elements_prefix_zeroed(a0, before, seg, tag, ptr, e, d)
            &&& changed_only_where(
                before,
                after,
                |s: int, j: int| in_section(before, seg, sec, sr.ptr_count as int, b1, s, j),
            )
            &&& forall|s: int, j: int|
                0 <= s < before.len() && 0 <= j < before[s].len() && #[trigger] in_section(
                    before,
                    seg,
                    sec,
                    sr.ptr_count as int,
                    d,
                    s,
                    j,
                ) ==> after[s][j] == 0
        }),
        words_zeroed(a0, before),
        words_zeroed(before, after),
    ensures
        ({
            let sr = wire_pointer_at(a0[seg], ptr).spec_struct_ref();
            let sec = element_section(ptr + 8, sr, e);
            &&& elements_changes_within(a0, after, seg, tag, ptr, e + 1, sec + 8 * sr.ptr_count, d)
            &&& elements_prefix_zeroed(a0, after, seg, tag, ptr, e + 1, d)
        }),
{
    let etag = wire_pointer_at(a0[seg], ptr);
    let sr = etag.spec_struct_ref();
    let sec = element_section(ptr + 8, sr, e);
    let pc = sr.ptr_count as int;
    let n = etag.offset_words() as int;
    let w = sr.spec_word_size() as int;
    let bound = sec - 8 * sr.data_size;
    assert(e * w + w <= n * w) by (nonlinear_arith)
        requires
            e < n,
            w >= 0,
    ;
    assert(e * w >= 0) by (nonlinear_arith)
        requires
            0 <= e,
            w >= 0,
    ;
    assert(w * n == n * w) by (nonlinear_arith);
    let ext = object_extent(a0[seg], tag, ptr);
    assert(ext == 8 * (w * n + 1));
    assert(ptr + ext <= a0[seg].len());
    assert(before[seg].len() == a0[seg].len());
    assert(after[seg].len() == a0[seg].len());
    assert forall|q: int| 0 <= q < pc implies #[trigger] child_pos(a0, seg, tag, ptr, e, q) == Some(sec + 8 * q)
        && is_child(a0, seg, tag, ptr, e, q) by {}
    // The pointers of element `e` are as they were.
    assert forall|q: int| 0 <= q < pc implies #[trigger] wire_pointer_at(before[seg], sec + 8 * q)
        == wire_pointer_at(a0[seg], sec + 8 * q) by {
        assert(child_pos(a0, seg, tag, ptr, e, q) == Some(sec + 8 * q));
        assert forall|k: int| sec + 8 * q <= k < sec + 8 * q + 8 implies a0[seg][k] == before[seg][k] by {
            if before[seg][k] != a0[seg][k] {
                let (e2, q2) = choose|e2: int, q2: int|
                    0 <= e2 < e && #[trigger] child_reaches(a0, seg, tag, ptr, e2, q2, (d - 1) as nat, seg, k);
            }
        }
        lemma_read_le_same(a0[seg], before[seg], sec + 8 * q, 4);
        lemma_read_le_same(a0[seg], before[seg], sec + 8 * q + 4, 4);
    }
    // What they reach is as it was, so it is zero now.
    assert forall|e2: int, q: int, s: int, j: int|
        0 <= e2 < e + 1 && 0 <= s < a0.len() && 0 <= j < a0[s].len() && #[trigger] child_reaches(
            a0,
            seg,
            tag,
            ptr,
            e2,
            q,
            (d - 1) as nat,
            s,
            j,
        ) implies after[s][j] == 0 by {
        if e2 < e {
            lemma_zero_stays(before, after, s, j);
        } else {
            let c = sec + 8 * q;
            let cp = wire_pointer_at(a0[seg], c);
            assert(child_pos(a0, seg, tag, ptr, e, q) == Some(c));
            assert(0 <= q < pc);
            assert forall|s2: int, j2: int|
                0 <= s2 < a0.len() && 0 <= j2 < a0[s2].len() && #[trigger] in_value(
                    a0,
                    seg,
                    c,
                    cp,
                    (d - 1) as nat,
                    s2,
                    j2,
                ) implies before[s2][j2] == a0[s2][j2] by {
                assert(child_reaches(a0, seg, tag, ptr, e, q, (d - 1) as nat, s2, j2));
                if before[s2][j2] != a0[s2][j2] {
                    if !(s2 == seg && ptr + 8 <= j2 < bound) {
                        let (e3, q3) = choose|e3: int, q3: int|
                            0 <= e3 < e && #[trigger] child_reaches(a0, seg, tag, ptr, e3, q3, (d - 1) as nat, s2, j2);
                    }
                }
            }
            if cp.spec_is_null() {
                lemma_in_value_null(a0, seg, c, cp, (d - 1) as nat, s, j);
            } else {
                lemma_in_value_local(a0, before, seg, c, cp, (d - 1) as nat, s, j);
                assert(wire_pointer_at(before[seg], sec + 8 * q) == cp);
                assert(in_section(before, seg, sec, pc, d, s, j));
            }
        }
    }
    // What changed lies in the elements so far or in what they reach.
    assert forall|s: int, j: int|
        0 <= s < a0.len() && 0 <= j < a0[s].len() && #[trigger] after[s][j] != a0[s][j] implies (s == seg
            && ptr + 8 <= j < sec + 8 * pc) || exists|e2: int, q: int|
            0 <= e2 < e + 1 && #[trigger] child_reaches(a0, seg, tag, ptr, e2, q, (d - 1) as nat, s, j) by {
        assert(before[s].len() == a0[s].len());
        if before[s][j] != a0[s][j] {
            if !(s == seg && ptr + 8 <= j < bound) {
                let (e2, q) = choose|e2: int, q: int|
                    0 <= e2 < e && #[trigger] child_reaches(a0, seg, tag, ptr, e2, q, (d - 1) as nat, s, j);
                assert(0 <= e2 < e + 1);
            }
        } else {
            assert(in_section(before, seg, sec, pc, b1, s, j));
            if !(s == seg && sec <= j < sec + 8 * pc) {
                let q = choose|q: int|
                    0 <= q < pc && #[trigger] in_value(
                        before,
                        seg,
                        sec + 8 * q,
                        wire_pointer_at(before[seg], sec + 8 * q),
                        (b1 - 1) as nat,
                        s,
                        j,
                    );
                let c = sec + 8 * q;
                let cp = wire_pointer_at(a0[seg], c);
                assert(wire_pointer_at(before[seg], c) == cp);
                if cp.spec_is_null() {
                    lemma_in_value_null(before, seg, c, cp, (b1 - 1) as nat, s, j);
                } else {
                    assert(zeroable_section(a0, seg, sec, pc, d));
                    assert(zeroable_value(a0, seg, c, cp, (d - 1) as nat));
                    lemma_in_value_state(a0, before, seg, c, cp, (b1 - 1) as nat, s, j);
                    lemma_in_value_stable(a0, seg, c, cp, (d - 1) as nat, (b1 - 1) as nat, s, j);
                    assert(child_pos(a0, seg, tag, ptr, e, q) == Some(c));
                    assert(child_reaches(a0, seg, tag, ptr, e, q, (d - 1) as nat, s, j));
                }
            }
        }
    }
}


/// An object whose pointers are those of one section is all zero once the
/// section and what it reaches are zero, and then the object's own bytes.
pub proof fn lemma_object_done_by_section(
    a0: Seq<Seq<u8>>,
    mid: Seq<Seq<u8>>,
    fin: Seq<Seq<u8>>,
    seg: int,
    tag: WirePointer,
    ptr: int,
    start: int,
    count: int,
    d: nat,
)
    requires
        forall|e: int, q: int|
            #[trigger] is_child(a0, seg, tag, ptr, e, q) ==> 0 <= q < count && child_pos(
                a0,
                seg,
                tag,
                ptr,
                e,
                q,
            ) == Some(start + 8 * q),
        forall|s: int, j: int|
            0 <= s < a0.len() && 0 <= j < a0[s].len() && #[trigger] in_section(a0, seg, start, count, d, s, j)
                ==> mid[s][j] == 0,
        words_zeroed(mid, fin),
        a0.len() == mid.len(),
        forall|i: int| 0 <= i < a0.len() ==> #[trigger] mid[i].len() == a0[i].len(),
        forall|j: int|
            ptr <= j < ptr + object_extent(a0[seg], tag, ptr) ==> #[trigger] fin[seg][j] == 0,
    ensures
        forall|s: int, j: int|
            0 <= s < a0.len() && 0 <= j < a0[s].len() && #[trigger] in_object(a0, seg, tag, ptr, d, s, j)
                ==> fin[s][j] == 0,
{
    assert forall|s: int, j: int|
        0 <= s < a0.len() && 0 <= j < a0[s].len() && #[trigger] in_object(a0, seg, tag, ptr, d, s, j)
            implies fin[s][j] == 0 by {
        if !(s == seg && ptr <= j < ptr + object_extent(a0[seg], tag, ptr)) {
            let (e, q) = choose|e: int, q: int|
                #[trigger] is_child(a0, seg, tag, ptr, e, q) && in_value(
                    a0,
                    seg,
                    child_pos(a0, seg, tag, ptr, e, q)->0,
                    wire_pointer_at(a0[seg], child_pos(a0, seg, tag, ptr, e, q)->0),
                    (d - 1) as nat,
                    s,
                    j,
                );
            assert(in_value(a0, seg, start + 8 * q, wire_pointer_at(a0[seg], start + 8 * q), (d - 1) as nat, s, j));
            assert(in_section(a0, seg, start, count, d, s, j));
            lemma_zero_stays(mid, fin, s, j);
        }
    }
}

/// An inline-composite list is all zero once what the pointers of all its
/// elements reach is zero, and then the list's own bytes.
pub proof fn lemma_elements_done(
    a0: Seq<Seq<u8>>,
    mid: Seq<Seq<u8>>,
    fin: Seq<Seq<u8>>,
    seg: int,
    tag: WirePointer,
    ptr: int,
    d: nat,
)
    requires
        tag.spec_kind() == WirePointerKind::WP_LIST,
        tag.spec_list_ref().spec_element_size() == FieldSize::INLINE_COMPOSITE,
        0 <= seg < a0.len(),
        0 <= ptr,
        ptr + 8 <= a0[seg].len(),
        elements_prefix_zeroed(a0, mid, seg, tag, ptr, wire_pointer_at(a0[seg], ptr).offset_words() as int, d),
        words_zeroed(mid, fin),
        a0.len() == mid.len(),
        forall|i: int| 0 <= i < a0.len() ==> #[trigger] mid[i].len() == a0[i].len(),
        forall|j: int|
            ptr <= j < ptr + object_extent(a0[seg], tag, ptr) ==> #[trigger] fin[seg][j] == 0,
    ensures
        forall|s: int, j: int|
            0 <= s < a0.len() && 0 <= j < a0[s].len() && #[trigger] in_object(a0, seg, tag, ptr, d, s, j)
                ==> fin[s][j] == 0,
{
    assert forall|s: int, j: int|
        0 <= s < a0.len() && 0 <= j < a0[s].len() && #[trigger] in_object(a0, seg, tag, ptr, d, s, j)
            implies fin[s][j] == 0 by {
        if !(s == seg && ptr <= j < ptr + object_extent(a0[seg], tag, ptr)) {
            let (e, q) = choose|e: int, q: int|
                #[trigger] is_child(a0, seg, tag, ptr, e, q) && in_value(
                    a0,
                    seg,
                    child_pos(a0, seg, tag, ptr, e, q)->0,
                    wire_pointer_at(a0[seg], child_pos(a0, seg, tag, ptr, e, q)->0),
                    (d - 1) as nat,
                    s,
                    j,
                );
            assert(child_reaches(a0, seg, tag, ptr, e, q, (d - 1) as nat, s, j));
            lemma_zero_stays(mid, fin, s, j);
        }
    }
}


/// An object's bytes depend on the segment only through the word at its
/// start (an inline-composite list's tag).
pub proof fn lemma_extent_same(a: Seq<u8>, b: Seq<u8>, tag: WirePointer, ptr: int)
    requires
        0 <= ptr,
        ptr + 8 <= a.len(),
        a.len() == b.len(),
        forall|k: int| ptr <= k < ptr + 8 ==> a[k] == b[k],
    ensures
        object_extent(a, tag, ptr) == object_extent(b, tag, ptr),
{
    lemma_read_le_same(a, b, ptr, 4);
    lemma_read_le_same(a, b, ptr + 4, 4);
}

} // verus!
