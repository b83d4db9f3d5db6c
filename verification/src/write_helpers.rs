//! Zeroing, allocating and initializing objects in a message under
//! construction.
use vstd::prelude::*;
use crate::arena::{
    BuilderArena, SEGMENT_WORD_LIMIT, segment_byte_limit, segment_wf, arena_nonzero,
    arena_only_zeroed, only_zeroed, lemma_arena_only_zeroed_count, lemma_arena_only_zeroed_trans,
};
use crate::le::{read_le, lemma_le_value_zero, lemma_le_value_zero_bytes, lemma_le_value_bound};
use crate::wire::{
    FieldSize, WirePointer, WirePointerKind, wire_pointer_at, data_bits_per_element,
    spec_data_bits_per_element, spec_pointers_per_element,
};
use crate::wire_helpers::{
    spec_follow_fars, target_of, round_bits_up_to_words, round_bytes_up_to_words, spec_read_struct_pointer,
    spec_read_list_pointer, spec_read_text_pointer, take_until_nul,
};
use crate::wire::{StructSize, StructRef, pointers_per_element};
use crate::builder::{StructBuilder, ListBuilder};
use vstd::string::StringSliceAdditionalSpecFns;
use crate::reader::StructReader;
use crate::footprint::{
    old_object_zeroable, zeroable_section, zeroable_object, zeroable_value, lemma_zeroable_section_state,
    lemma_zeroable_object_state, lemma_zeroable_value_state, element_section,
    words_zeroed, changed_only_where, in_section, in_value, in_object, lemma_words_zeroed_refl,
    lemma_words_zeroed_trans, lemma_zero_range_words, lemma_changed_compose, lemma_words_zeroed_pointer,
    lemma_in_value_state, lemma_in_value_fuel, lemma_in_object_state, lemma_in_object_fuel,
    tree_section, tree_value, tree_object, lemma_tree_value_state, lemma_tree_object_state,
    lemma_in_value_local, lemma_in_object_local, lemma_in_value_stable, lemma_in_object_stable,
    lemma_in_value_null, lemma_zero_stays, lemma_tree_section_of_object, section_prefix_zeroed,
    section_changes_within, section_pointer, lemma_section_agrees, lemma_section_step,
    lemma_section_null_step, lemma_section_done, lemma_tree_section_state, elements_changes_within,
    elements_prefix_zeroed, lemma_elements_step, lemma_object_done_by_section, lemma_elements_done,
    old_object_tree, lemma_extent_same,
};

verus! {

/// A pointer that is not null has a nonzero byte.
pub proof fn lemma_nonnull_has_nonzero_byte(s: Seq<u8>, pos: int)
    requires
        0 <= pos,
        pos + 8 <= s.len(),
        !wire_pointer_at(s, pos).spec_is_null(),
    ensures
        exists|j: int| pos <= j < pos + 8 && s[j] != 0,
{
    if forall|j: int| pos <= j < pos + 8 ==> s[j] == 0 {
        let lo = s.subrange(pos, pos + 4);
        let hi = s.subrange(pos + 4, pos + 8);
        assert forall|i: int| 0 <= i < lo.len() implies lo[i] == 0 by {
            assert(s[pos + i] == 0);
        }
        assert forall|i: int| 0 <= i < hi.len() implies hi[i] == 0 by {
            assert(s[pos + 4 + i] == 0);
        }
        lemma_le_value_zero(lo);
        lemma_le_value_zero(hi);
    }
}

/// The eight bytes of a null pointer are zero.
pub proof fn lemma_null_pointer_bytes(s: Seq<u8>, pos: int)
    requires
        0 <= pos,
        pos + 8 <= s.len(),
        wire_pointer_at(s, pos).spec_is_null(),
    ensures
        forall|j: int| pos <= j < pos + 8 ==> #[trigger] s[j] == 0,
{
    let lo = s.subrange(pos, pos + 4);
    let hi = s.subrange(pos + 4, pos + 8);
    lemma_le_value_bound(lo);
    lemma_le_value_bound(hi);
    crate::le::lemma_pow256_values();
    lemma_le_value_zero_bytes(lo);
    lemma_le_value_zero_bytes(hi);
    assert forall|j: int| pos <= j < pos + 8 implies #[trigger] s[j] == 0 by {
        if j < pos + 4 {
            assert(s[j] == lo[j - pos]);
        } else {
            assert(s[j] == hi[j - pos - 4]);
        }
    }
}

/// Zeroing a nonzero byte that an earlier state also had lowers the count of
/// nonzero bytes below that of the earlier state.
proof fn lemma_zeroing_decreases(
    start: Seq<Seq<u8>>,
    before: Seq<Seq<u8>>,
    after: Seq<Seq<u8>>,
    seg: int,
    pos: int,
)
    requires
        arena_only_zeroed(start, before),
        arena_only_zeroed(before, after),
        0 <= seg < before.len(),
        0 <= pos,
        pos + 8 <= before[seg].len(),
        !wire_pointer_at(before[seg], pos).spec_is_null(),
        forall|j: int| pos <= j < pos + 8 ==> #[trigger] after[seg][j] == 0,
    ensures
        arena_only_zeroed(start, after),
        arena_nonzero(after) < arena_nonzero(start),
{
    lemma_nonnull_has_nonzero_byte(before[seg], pos);
    let j = choose|j: int| pos <= j < pos + 8 && before[seg][j] != 0;
    lemma_arena_only_zeroed_trans(start, before, after);
    assert(only_zeroed(start[seg], before[seg]));
    assert(start[seg][j] != 0 && after[seg][j] == 0);
    lemma_arena_only_zeroed_count(start, after);
}

/// The bytes that zeroing the object described by `tag` at byte `ptr` of a
/// segment `s` covers: a struct's two sections; a list's elements (for an
/// inline-composite list, its tag word and elements).
pub open spec fn object_extent(s: Seq<u8>, tag: WirePointer, ptr: int) -> nat {
    match tag.spec_kind() {
        WirePointerKind::WP_STRUCT => 8 * tag.spec_struct_ref().spec_word_size(),
        WirePointerKind::WP_LIST => {
            let lr = tag.spec_list_ref();
            let es = lr.spec_element_size();
            let count = lr.spec_element_count();
            if es == FieldSize::INLINE_COMPOSITE {
                let etag = wire_pointer_at(s, ptr);
                8 * (etag.spec_struct_ref().spec_word_size() * etag.offset_words() + 1)
            } else if es == FieldSize::POINTER {
                8 * count
            } else {
                8 * ((count * spec_data_bits_per_element(es) + 63) / 64)
            }
        },
        _ => 0,
    }
}

/// The segments `segs` with bytes `[start, end)` of segment `seg` set to zero.
pub open spec fn zero_range(segs: Seq<Seq<u8>>, seg: int, start: int, end: int) -> Seq<Seq<u8>> {
    segs.update(
        seg,
        Seq::new(segs[seg].len(), |j: int| if start <= j < end { 0u8 } else { segs[seg][j] }),
    )
}

/// An object that holds no pointers and has bytes to zero: a struct without
/// pointers, or a list of bits or of fixed-width values.
pub open spec fn is_flat_object(tag: WirePointer) -> bool {
    ||| tag.spec_kind() == WirePointerKind::WP_STRUCT && tag.spec_struct_ref().ptr_count == 0
    ||| tag.spec_kind() == WirePointerKind::WP_LIST && {
        let es = tag.spec_list_ref().spec_element_size();
        es != FieldSize::VOID && es != FieldSize::POINTER && es != FieldSize::INLINE_COMPOSITE
    }
}

/// Zeroes the objects that the `count` pointers starting at byte `start` of
/// segment `segment` point at, and the pointers themselves.
#[verifier::spinoff_prover]
#[verifier::rlimit(60)]
fn zero_pointer_section(
    arena: &mut BuilderArena,
    segment: usize,
    start: usize,
    count: usize,
    Ghost(budget): Ghost<nat>,
    Ghost(d): Ghost<nat>,
) -> (ok: bool)
    requires
        old(arena).wf(),
        segment < old(arena)@.len(),
        start + 8 * count <= old(arena)@[segment as int].len(),
        start % 8 == 0,
        budget == arena_nonzero(old(arena)@),
    ensures
        final(arena).wf(),
        final(arena).used@ == old(arena).used@,
        final(arena).segment_words == old(arena).segment_words,
        arena_only_zeroed(old(arena)@, final(arena)@),
        words_zeroed(old(arena)@, final(arena)@),
        changed_only_where(
            old(arena)@,
            final(arena)@,
            |s: int, j: int|
                in_section(old(arena)@, segment as int, start as int, count as int, budget, s, j),
        ),
        count == 0 ==> ok && final(arena)@ == old(arena)@,
        (exists|d: nat|
            zeroable_section(old(arena)@, segment as int, start as int, count as int, d)) ==> ok,
        ok ==> forall|j: int|
            start <= j < start + 8 * count ==> #[trigger] final(arena)@[segment as int][j] == 0,
        (forall|j: int|
            start <= j < start + 8 * count ==> #[trigger] old(arena)@[segment as int][j] == 0) ==> ok
            && final(arena)@ == old(arena)@,
        zeroable_section(old(arena)@, segment as int, start as int, count as int, d) && tree_section(
            old(arena)@,
            segment as int,
            start as int,
            count as int,
            d,
        ) ==> forall|s: int, j: int|
            0 <= s < old(arena)@.len() && 0 <= j < old(arena)@[s].len() && #[trigger] in_section(
                old(arena)@,
                segment as int,
                start as int,
                count as int,
                d,
                s,
                j,
            ) ==> final(arena)@[s][j] == 0,
    decreases budget, 0nat,
{
    let ghost start_view = arena@;
    let mut i: usize = 0;
    proof {
        lemma_arena_only_zeroed_refl(start_view);
        lemma_words_zeroed_refl(start_view);
        assert(segment_wf(arena@[segment as int], arena.used@[segment as int] as nat));
    }
    while i < count
        invariant
            arena.wf(),
            arena.used@ == old(arena).used@,
            arena.segment_words == old(arena).segment_words,
            start_view == old(arena)@,
            arena_only_zeroed(start_view, arena@),
            segment < arena@.len(),
            start + 8 * count <= arena@[segment as int].len(),
            arena@[segment as int].len() < segment_byte_limit(),
            budget == arena_nonzero(start_view),
            i <= count,
            i == 0 ==> arena@ == start_view,
            start % 8 == 0,
            words_zeroed(start_view, arena@),
            changed_only_where(
                start_view,
                arena@,
                |s: int, j: int|
                    in_section(start_view, segment as int, start as int, count as int, budget, s, j),
            ),
            forall|j: int| start <= j < start + 8 * i ==> #[trigger] arena@[segment as int][j] == 0,
            (forall|j: int|
                start <= j < start + 8 * count ==> #[trigger] start_view[segment as int][j] == 0)
                ==> arena@ == start_view,
            zeroable_section(start_view, segment as int, start as int, count as int, d) && tree_section(
                start_view,
                segment as int,
                start as int,
                count as int,
                d,
            ) ==> section_prefix_zeroed(start_view, arena@, segment as int, start as int, i as int, d)
                && section_changes_within(start_view, arena@, segment as int, start as int, i as int, d),
        decreases count - i,
    {
        let cpos = start + 8 * i;
        let child = arena.read_pointer(segment, cpos);
        let ghost tree = zeroable_section(start_view, segment as int, start as int, count as int, d)
            && tree_section(start_view, segment as int, start as int, count as int, d);
        proof {
            if tree {
                lemma_section_agrees(start_view, arena@, segment as int, start as int, count as int,
                    i as int, d);
                assert(child == section_pointer(start_view, segment as int, start as int, i as int));
            }
        }
        if child.is_null() {
            proof {
                lemma_null_pointer_bytes(arena@[segment as int], cpos as int);
                if tree {
                    lemma_section_null_step(start_view, arena@, segment as int, start as int, i as int, d);
                }
            }
        } else {
            let ghost before = arena@;
            proof {
                lemma_nonnull_has_nonzero_byte(before[segment as int], cpos as int);
                if forall|j: int|
                    start <= j < start + 8 * count ==> #[trigger] start_view[segment as int][j] == 0 {
                    let j = choose|j: int| cpos <= j < cpos + 8 && before[segment as int][j] != 0;
                    assert(start_view[segment as int][j] == 0);
                }
            }
            arena.zero_bytes(segment, cpos, cpos + 8);
            proof {
                lemma_zeroing_decreases(start_view, before, arena@, segment as int, cpos as int);
                assert(segment_wf(arena@[segment as int], arena.used@[segment as int] as nat));
                lemma_words_zeroed_pointer(start_view, before, segment as int, cpos as int);
                lemma_zero_range_words(before, arena@, segment as int, cpos as int, cpos + 8);
                lemma_words_zeroed_trans(start_view, before, arena@);
                let sec = |s: int, j: int|
                    in_section(start_view, segment as int, start as int, count as int, budget, s, j);
                lemma_changed_compose(
                    start_view,
                    before,
                    arena@,
                    sec,
                    |s: int, j: int| s == segment && cpos <= j < cpos + 8,
                    sec,
                );
            }
            let ghost mid = arena@;
            let ghost b1 = arena_nonzero(arena@);
            proof {
                if tree {
                    lemma_zeroable_value_state(start_view, mid, segment as int, cpos as int, child,
                        (d - 1) as nat);
                    lemma_tree_value_state(start_view, mid, segment as int, cpos as int, child,
                        (d - 1) as nat);
                }
            }
            let ok = zero_object_value(arena, segment, cpos, child, Ghost(arena_nonzero(arena@)), Ghost((d - 1) as nat));
            proof {
                if tree {
                    assert(changed_only_where(before, mid, |s: int, j: int| s == segment && cpos <= j < cpos + 8));
                    lemma_words_zeroed_trans(start_view, before, mid);
                    lemma_section_step(start_view, before, mid, arena@, segment as int, start as int,
                        count as int, i as int, d, b1);
                }
            }
            proof {
                let sec = |s: int, j: int|
                    in_section(start_view, segment as int, start as int, count as int, budget, s, j);
                let callee = |s: int, j: int| in_value(mid, segment as int, cpos as int, child, b1, s, j);
                assert forall|s: int, j: int|
                    0 <= s < start_view.len() && 0 <= j < start_view[s].len() && #[trigger] callee(s, j)
                        implies sec(s, j) by {
                    lemma_in_value_state(start_view, mid, segment as int, cpos as int, child, b1, s, j);
                    lemma_in_value_fuel(start_view, segment as int, cpos as int, child, b1,
                        (budget - 1) as nat, s, j);
                    assert(in_value(
                        start_view,
                        segment as int,
                        start + 8 * i,
                        wire_pointer_at(start_view[segment as int], start + 8 * i),
                        (budget - 1) as nat,
                        s,
                        j,
                    ));
                }
                lemma_changed_compose(start_view, mid, arena@, sec, callee, sec);
                lemma_words_zeroed_trans(start_view, mid, arena@);
                lemma_arena_only_zeroed_trans(start_view, mid, arena@);
                assert(only_zeroed(mid[segment as int], arena@[segment as int]));
                assert forall|j: int| start <= j < cpos + 8 implies #[trigger] arena@[
                    segment as int][j] == 0 by {
                    assert(mid[segment as int][j] == 0);
                    assert(arena@[segment as int][j] == mid[segment as int][j] || arena@[
                        segment as int][j] == 0);
                }
            }
            proof {
                if exists|d0: nat|
                    zeroable_section(start_view, segment as int, start as int, count as int, d0) {
                    let d0 = choose|d0: nat|
                        zeroable_section(start_view, segment as int, start as int, count as int, d0);
                    assert(wire_pointer_at(start_view[segment as int], start + 8 * i) == child);
                    lemma_zeroable_value_state(start_view, mid, segment as int, cpos as int, child,
                        (d0 - 1) as nat);
                    assert(zeroable_value(mid, segment as int, cpos as int, child, (d0 - 1) as nat));
                }
            }
            if !ok {
                return false;
            }
        }
        i = i + 1;
    }
    proof {
        if zeroable_section(start_view, segment as int, start as int, count as int, d) && tree_section(
            start_view,
            segment as int,
            start as int,
            count as int,
            d,
        ) {
            lemma_section_done(start_view, arena@, segment as int, start as int, count as int, d);
        }
    }
    true
}

pub proof fn lemma_arena_only_zeroed_refl(s: Seq<Seq<u8>>)
    ensures
        arena_only_zeroed(s, s),
{
}

/// Zeroes the object that `tag` describes, which starts at byte `ptr` of
/// segment `segment`, and, first, the objects its pointers lead to. Returns
/// false, having zeroed only part of it, where the object does not fit its
/// segment; `tag` is a struct or list tag. Where what it reaches within `d`
/// pointers can be zeroed and is a tree, all of that is zero afterwards.
fn zero_object_helper(
    arena: &mut BuilderArena,
    segment: usize,
    tag: WirePointer,
    ptr: u64,
    Ghost(budget): Ghost<nat>,
    Ghost(d): Ghost<nat>,
) -> (ok: bool)
    requires
        old(arena).wf(),
        segment < old(arena)@.len(),
        ptr <= 0x4_0000_0000,
        ptr % 8 == 0,
        budget == arena_nonzero(old(arena)@),
        tag.spec_kind() != WirePointerKind::WP_CAPABILITY,
        tag.spec_kind() != WirePointerKind::WP_FAR,
    ensures
        final(arena).wf(),
        final(arena).used@ == old(arena).used@,
        final(arena).segment_words == old(arena).segment_words,
        arena_only_zeroed(old(arena)@, final(arena)@),
        words_zeroed(old(arena)@, final(arena)@),
        changed_only_where(
            old(arena)@,
            final(arena)@,
            |s: int, j: int| in_object(old(arena)@, segment as int, tag, ptr as int, budget, s, j),
        ),
        (exists|d: nat| zeroable_object(old(arena)@, segment as int, tag, ptr as int, d)) ==> ok,
        ok ==> forall|j: int|
            ptr <= j < ptr + object_extent(old(arena)@[segment as int], tag, ptr as int)
                ==> #[trigger] final(arena)@[segment as int][j] == 0,
        zeroable_object(old(arena)@, segment as int, tag, ptr as int, d) && tree_object(
            old(arena)@,
            segment as int,
            tag,
            ptr as int,
            d,
        ) ==> forall|s: int, j: int|
            0 <= s < old(arena)@.len() && 0 <= j < old(arena)@[s].len() && #[trigger] in_object(
                old(arena)@,
                segment as int,
                tag,
                ptr as int,
                d,
                s,
                j,
            ) ==> final(arena)@[s][j] == 0,
        tag.spec_kind() == WirePointerKind::WP_LIST && tag.spec_list_ref().spec_element_size()
            == FieldSize::VOID ==> ok && final(arena)@ == old(arena)@,
        ({
            let end = ptr + object_extent(old(arena)@[segment as int], tag, ptr as int);
            &&& is_flat_object(tag) && end <= old(arena)@[segment as int].len() ==> ok
                && final(arena)@ == zero_range(old(arena)@, segment as int, ptr as int, end)
            &&& is_flat_object(tag) && end > old(arena)@[segment as int].len() ==> !ok
                && final(arena)@ == old(arena)@
        }),
    decreases budget, 2nat,
{
    let len = arena.segment_len(segment) as u64;
    proof {
        assert(segment_wf(arena@[segment as int], arena.used@[segment as int] as nat));
    }
    match tag.kind() {
        WirePointerKind::WP_CAPABILITY => false,
        WirePointerKind::WP_FAR => false,
        WirePointerKind::WP_STRUCT => {
            let sr = tag.struct_ref();
            let ws = sr.word_size() as u64;
            if ptr + 8 * ws > len {
                return false;
            }
            let section = (ptr + 8 * sr.data_size as u64) as usize;
            let ghost a0 = arena@;
            let ghost tree = zeroable_object(a0, segment as int, tag, ptr as int, d) && tree_object(
                a0,
                segment as int,
                tag,
                ptr as int,
                d,
            );
            proof {
                if tree {
                    lemma_tree_section_of_object(a0, segment as int, tag, ptr as int, 0, section as int,
                        sr.ptr_count as int, d);
                }
            }
            let ok0 = zero_pointer_section(arena, segment, section, sr.ptr_count as usize, Ghost(budget), Ghost(d));
            proof {
                if exists|d: nat| zeroable_object(a0, segment as int, tag, ptr as int, d) {
                    let d = choose|d: nat| zeroable_object(a0, segment as int, tag, ptr as int, d);
                    assert(zeroable_section(a0, segment as int, section as int, sr.ptr_count as int, d));
                }
                let obj = |s: int, j: int| in_object(a0, segment as int, tag, ptr as int, budget, s, j);
                let sec = |s: int, j: int|
                    in_section(a0, segment as int, section as int, sr.ptr_count as int, budget, s, j);
                assert forall|s: int, j: int|
                    0 <= s < a0.len() && 0 <= j < a0[s].len() && #[trigger] sec(s, j) implies obj(
                    s,
                    j,
                ) by {
                    crate::footprint::lemma_section_in_object(a0, segment as int, tag, ptr as int, 0,
                        section as int, sr.ptr_count as int, budget, s, j);
                }
                lemma_words_zeroed_refl(a0);
                lemma_changed_compose(a0, a0, arena@, obj, sec, obj);
            }
            if !ok0 {
                return false;
            }
            let ghost mid = arena@;
            arena.zero_bytes(segment, ptr as usize, (ptr + 8 * ws) as usize);
            proof {
                lemma_arena_only_zeroed_trans(old(arena)@, mid, arena@);
                lemma_zero_range_words(mid, arena@, segment as int, ptr as int, ptr + 8 * ws);
                lemma_words_zeroed_trans(a0, mid, arena@);
                let obj = |s: int, j: int| in_object(a0, segment as int, tag, ptr as int, budget, s, j);
                lemma_changed_compose(a0, mid, arena@, obj, |s: int, j: int| s == segment && ptr <= j
                    < ptr + 8 * ws, obj);
                if sr.ptr_count == 0 {
                    let z = zero_range(old(arena)@, segment as int, ptr as int, ptr + 8 * ws);
                    assert(arena@[segment as int] =~= z[segment as int]);
                    assert(arena@ =~= z);
                }
                if tree {
                    lemma_object_done_by_section(a0, mid, arena@, segment as int, tag, ptr as int,
                        section as int, sr.ptr_count as int, d);
                }
            }
            true
        },
        WirePointerKind::WP_LIST => zero_list_object(arena, segment, tag, ptr, Ghost(budget), Ghost(d)),
    }
}


/// The part of `zero_object_helper` for a list.
fn zero_list_object(
    arena: &mut BuilderArena,
    segment: usize,
    tag: WirePointer,
    ptr: u64,
    Ghost(budget): Ghost<nat>,
    Ghost(d): Ghost<nat>,
) -> (ok: bool)
    requires
        old(arena).wf(),
        segment < old(arena)@.len(),
        ptr <= 0x4_0000_0000,
        ptr % 8 == 0,
        budget == arena_nonzero(old(arena)@),
        tag.spec_kind() == WirePointerKind::WP_LIST,
    ensures
        final(arena).wf(),
        final(arena).used@ == old(arena).used@,
        final(arena).segment_words == old(arena).segment_words,
        arena_only_zeroed(old(arena)@, final(arena)@),
        words_zeroed(old(arena)@, final(arena)@),
        changed_only_where(
            old(arena)@,
            final(arena)@,
            |s: int, j: int| in_object(old(arena)@, segment as int, tag, ptr as int, budget, s, j),
        ),
        (exists|d: nat| zeroable_object(old(arena)@, segment as int, tag, ptr as int, d)) ==> ok,
        ok ==> forall|j: int|
            ptr <= j < ptr + object_extent(old(arena)@[segment as int], tag, ptr as int)
                ==> #[trigger] final(arena)@[segment as int][j] == 0,
        tag.spec_list_ref().spec_element_size() == FieldSize::VOID ==> ok && final(arena)@ == old(
            arena,
        )@,
        zeroable_object(old(arena)@, segment as int, tag, ptr as int, d) && tree_object(
            old(arena)@,
            segment as int,
            tag,
            ptr as int,
            d,
        ) ==> forall|s: int, j: int|
            0 <= s < old(arena)@.len() && 0 <= j < old(arena)@[s].len() && #[trigger] in_object(
                old(arena)@,
                segment as int,
                tag,
                ptr as int,
                d,
                s,
                j,
            ) ==> final(arena)@[s][j] == 0,
        ({
            let end = ptr + object_extent(old(arena)@[segment as int], tag, ptr as int);
            &&& is_flat_object(tag) && end <= old(arena)@[segment as int].len() ==> ok
                && final(arena)@ == zero_range(old(arena)@, segment as int, ptr as int, end)
            &&& is_flat_object(tag) && end > old(arena)@[segment as int].len() ==> !ok
                && final(arena)@ == old(arena)@
        }),
    decreases budget, 1nat,
{
    let len = arena.segment_len(segment) as u64;
    let ghost a0 = arena@;
    proof {
        assert(segment_wf(arena@[segment as int], arena.used@[segment as int] as nat));
        lemma_words_zeroed_refl(a0);
    }
        let lr = tag.list_ref();
        let count = lr.element_count();
        match lr.element_size() {
            FieldSize::VOID => true,
            FieldSize::POINTER => {
                if ptr + 8 * count as u64 > len {
                    return false;
                }
                let ghost tree = zeroable_object(a0, segment as int, tag, ptr as int, d) && tree_object(
                    a0,
                    segment as int,
                    tag,
                    ptr as int,
                    d,
                );
                proof {
                    if tree {
                        lemma_tree_section_of_object(a0, segment as int, tag, ptr as int, 0, ptr as int,
                            count as int, d);
                    }
                }
                let ok0 = zero_pointer_section(arena, segment, ptr as usize, count, Ghost(budget), Ghost(d));
                proof {
                    if exists|d: nat| zeroable_object(a0, segment as int, tag, ptr as int, d) {
                        let d = choose|d: nat| zeroable_object(a0, segment as int, tag, ptr as int, d);
                        assert(zeroable_section(a0, segment as int, ptr as int, count as int, d));
                    }
                    let obj = |s: int, j: int| in_object(a0, segment as int, tag, ptr as int, budget, s, j);
                    let sec = |s: int, j: int|
                        in_section(a0, segment as int, ptr as int, count as int, budget, s, j);
                    assert forall|s: int, j: int|
                        0 <= s < a0.len() && 0 <= j < a0[s].len() && #[trigger] sec(s, j) implies obj(
                        s,
                        j,
                    ) by {
                        crate::footprint::lemma_section_in_object(a0, segment as int, tag, ptr as int, 0,
                            ptr as int, count as int, budget, s, j);
                    }
                    lemma_changed_compose(a0, a0, arena@, obj, sec, obj);
                }
                if !ok0 {
                    return false;
                }
                let ghost mid = arena@;
                arena.zero_bytes(segment, ptr as usize, ptr as usize + 8 * count);
                proof {
                    lemma_arena_only_zeroed_trans(old(arena)@, mid, arena@);
                    lemma_zero_range_words(mid, arena@, segment as int, ptr as int, ptr + 8 * count);
                    lemma_words_zeroed_trans(a0, mid, arena@);
                    let obj = |s: int, j: int| in_object(a0, segment as int, tag, ptr as int, budget, s, j);
                    lemma_changed_compose(a0, mid, arena@, obj, |s: int, j: int| s == segment && ptr <= j
                        < ptr + 8 * count, obj);
                    if tree {
                        lemma_object_done_by_section(a0, mid, arena@, segment as int, tag, ptr as int,
                            ptr as int, count as int, d);
                    }
                }
                true
            },
            FieldSize::INLINE_COMPOSITE => {
                if ptr + 8 > len {
                    return false;
                }
                let etag = arena.read_pointer(segment, ptr as usize);
                if etag.kind() != WirePointerKind::WP_STRUCT {
                    return false;
                }
                let esr = etag.struct_ref();
                let data_size = esr.data_size as u64;
                let pointer_count = esr.ptr_count as u64;
                let elements = etag.inline_composite_list_element_count();
                let mut pos: u64 = ptr + 8;
                let mut e: usize = 0;
                let ghost tree = zeroable_object(a0, segment as int, tag, ptr as int, d) && tree_object(
                    a0,
                    segment as int,
                    tag,
                    ptr as int,
                    d,
                );
                proof {
                    lemma_arena_only_zeroed_refl(arena@);
                    assert(arena@ == a0);
                }
                while e < elements
                    invariant
                        arena.wf(),
                        arena.used@ == old(arena).used@,
                        arena.segment_words == old(arena).segment_words,
                        arena_only_zeroed(old(arena)@, arena@),
                        arena_nonzero(arena@) <= budget,
                        budget == arena_nonzero(old(arena)@),
                        segment < arena@.len(),
                        len == arena@[segment as int].len(),
                        len < segment_byte_limit(),
                        pos <= len + 8,
                        data_size < 0x1_0000,
                        pointer_count < 0x1_0000,
                        e <= elements,
                        tag.spec_kind() == WirePointerKind::WP_LIST,
                        tag.spec_list_ref().spec_element_size() == FieldSize::INLINE_COMPOSITE,
                        a0 == old(arena)@,
                        ptr % 8 == 0,
                        ptr + 8 <= len,
                        etag == wire_pointer_at(a0[segment as int], ptr as int),
                        etag.spec_kind() == WirePointerKind::WP_STRUCT,
                        elements == etag.offset_words(),
                        data_size == etag.spec_struct_ref().data_size,
                        pointer_count == etag.spec_struct_ref().ptr_count,
                        pos == ptr + 8 + 8 * (e * (data_size + pointer_count)),
                        (exists|d: nat| zeroable_object(a0, segment as int, tag, ptr as int, d))
                            ==> ptr + object_extent(a0[segment as int], tag, ptr as int) <= len,
                        words_zeroed(a0, arena@),
                        changed_only_where(
                            a0,
                            arena@,
                            |s: int, j: int| in_object(a0, segment as int, tag, ptr as int, budget, s, j),
                        ),
                        tree == (zeroable_object(a0, segment as int, tag, ptr as int, d) && tree_object(
                            a0,
                            segment as int,
                            tag,
                            ptr as int,
                            d,
                        )),
                        tree ==> elements_changes_within(a0, arena@, segment as int, tag, ptr as int,
                            e as int, pos as int, d),
                        tree ==> elements_prefix_zeroed(a0, arena@, segment as int, tag, ptr as int,
                            e as int, d),
                    decreases elements - e,
                {
                    pos = pos + 8 * data_size;
                    proof {
                        let ws = (data_size + pointer_count) as int;
                        let n = elements as int;
                        assert(e * ws + ws <= n * ws) by (nonlinear_arith)
                            requires
                                e < n,
                                ws >= 0,
                        ;
                        assert(ws * n == n * ws) by (nonlinear_arith);
                        assert(pos == ptr + 8 + 8 * (e * ws) + 8 * data_size);
                    }
                    if pos + 8 * pointer_count > len {
                        return false;
                    }
                    let ghost before = arena@;
                    let ghost b1 = arena_nonzero(arena@);
                    proof {
                        lemma_arena_only_zeroed_count(old(arena)@, arena@);
                        if tree {
                            let sr = etag.spec_struct_ref();
                            assert(element_section(ptr + 8, sr, e as int) == pos);
                            assert forall|q: int| 0 <= q < pointer_count implies #[trigger] crate::footprint::child_pos(
                                a0,
                                segment as int,
                                tag,
                                ptr as int,
                                e as int,
                                q,
                            ) == Some(pos + 8 * q) by {}
                            lemma_tree_section_of_object(a0, segment as int, tag, ptr as int, e as int,
                                pos as int, pointer_count as int, d);
                            lemma_tree_section_state(a0, before, segment as int, pos as int,
                                pointer_count as int, d);
                            assert(zeroable_section(a0, segment as int, pos as int, pointer_count as int, d));
                            lemma_zeroable_section_state(a0, before, segment as int, pos as int,
                                pointer_count as int, d);
                        }
                    }
                    let ok0 = zero_pointer_section(
                        arena,
                        segment,
                        pos as usize,
                        pointer_count as usize,
                        Ghost(arena_nonzero(arena@)),
                        Ghost(d),
                    );
                    proof {
                        if exists|d: nat| zeroable_object(a0, segment as int, tag, ptr as int, d) {
                            let d = choose|d: nat| zeroable_object(a0, segment as int, tag, ptr as int, d);
                            let sr = etag.spec_struct_ref();
                            assert(element_section(ptr + 8, sr, e as int) == pos);
                            assert(zeroable_section(a0, segment as int, pos as int, pointer_count as int, d));
                            lemma_zeroable_section_state(a0, before, segment as int, pos as int,
                                pointer_count as int, d);
                        }
                        lemma_arena_only_zeroed_trans(old(arena)@, before, arena@);
                        let ws = (data_size + pointer_count) as int;
                        let n = elements as int;
                        assert(e * ws + ws <= n * ws) by (nonlinear_arith)
                            requires
                                e < n,
                                ws >= 0,
                        ;
                        assert(ws * n == n * ws) by (nonlinear_arith);
                        let obj = |s: int, j: int| in_object(a0, segment as int, tag, ptr as int, budget, s, j);
                        let sec = |s: int, j: int|
                            in_section(before, segment as int, pos as int, pointer_count as int, b1, s, j);
                        assert forall|s: int, j: int|
                            0 <= s < a0.len() && 0 <= j < a0[s].len() && #[trigger] sec(s, j) implies obj(
                            s,
                            j,
                        ) by {
                            crate::footprint::lemma_section_state(a0, before, segment as int, pos as int,
                                pointer_count as int, b1, budget, s, j);
                            assert forall|q: int| 0 <= q < pointer_count implies #[trigger] crate::footprint::child_pos(
                                a0,
                                segment as int,
                                tag,
                                ptr as int,
                                e as int,
                                q,
                            ) == Some(pos + 8 * q) by {}
                            crate::footprint::lemma_section_in_object(a0, segment as int, tag, ptr as int,
                                e as int, pos as int, pointer_count as int, budget, s, j);
                        }
                        lemma_changed_compose(a0, before, arena@, obj, sec, obj);
                        lemma_words_zeroed_trans(a0, before, arena@);
                    }
                    proof {
                        if tree {
                            assert(element_section(ptr + 8, etag.spec_struct_ref(), e as int) == pos);
                            lemma_elements_step(a0, before, arena@, segment as int, tag, ptr as int,
                                e as int, d, b1);
                        }
                    }
                    if !ok0 {
                        return false;
                    }
                    proof {
                        lemma_arena_only_zeroed_count(old(arena)@, arena@);
                        assert((e + 1) * (data_size + pointer_count) == e * (data_size + pointer_count)
                            + (data_size + pointer_count)) by (nonlinear_arith);
                    }
                    pos = pos + 8 * pointer_count;
                    e = e + 1;
                }
                let ws = esr.word_size();
                assert(ws as u64 * elements as u64 <= 0x2_0000 * 0x4000_0000) by (nonlinear_arith)
                    requires
                        ws < 0x2_0000,
                        elements < 0x4000_0000,
                ;
                let total: u64 = ws as u64 * elements as u64 + 1;
                if ptr + 8 * total > len {
                    return false;
                }
                let ghost mid = arena@;
                arena.zero_bytes(segment, ptr as usize, (ptr + 8 * total) as usize);
                proof {
                    lemma_arena_only_zeroed_trans(old(arena)@, mid, arena@);
                    lemma_zero_range_words(mid, arena@, segment as int, ptr as int, ptr + 8 * total);
                    lemma_words_zeroed_trans(a0, mid, arena@);
                    let obj = |s: int, j: int| in_object(a0, segment as int, tag, ptr as int, budget, s, j);
                    assert(ws * elements == etag.spec_struct_ref().spec_word_size() * etag.offset_words());
                    lemma_changed_compose(a0, mid, arena@, obj, |s: int, j: int| s == segment && ptr <= j
                        < ptr + 8 * total, obj);
                    if tree {
                        assert(object_extent(a0[segment as int], tag, ptr as int) == 8 * total);
                        lemma_elements_done(a0, mid, arena@, segment as int, tag, ptr as int, d);
                    }
                }
                true
            },
            es => {
                let per = data_bits_per_element(es);
                assert(count as u64 * per as u64 <= 0x2000_0000 * 64) by (nonlinear_arith)
                    requires
                        count < 0x2000_0000,
                        per <= 64,
                ;
                let bits = count as u64 * per as u64;
                let words = round_bits_up_to_words(bits);
                if ptr + 8 * words as u64 > len {
                    return false;
                }
                arena.zero_bytes(segment, ptr as usize, (ptr + 8 * words as u64) as usize);
                proof {
                    lemma_zero_range_words(a0, arena@, segment as int, ptr as int, ptr + 8 * words);
                    let obj = |s: int, j: int| in_object(a0, segment as int, tag, ptr as int, budget, s, j);
                    lemma_changed_compose(a0, a0, arena@, obj, |s: int, j: int| s == segment && ptr <= j
                        < ptr + 8 * words, obj);
                    let z = zero_range(old(arena)@, segment as int, ptr as int, ptr + 8 * words);
                    assert(arena@[segment as int] =~= z[segment as int]);
                    assert(arena@ =~= z);
                }
                true
            },
        }
}

/// The landing pad that far pointer `p` names (two words for a double far
/// pointer) lies within the segments `segs` and is zero.
pub open spec fn pads_zeroed(segs: Seq<Seq<u8>>, p: WirePointer) -> bool {
    let id = p.spec_far_ref().segment_id as int;
    let pad = 8 * p.spec_far_position() as int;
    let n: int = if p.spec_is_double_far() {
        16
    } else {
        8
    };
    &&& 0 <= id < segs.len()
    &&& pad + n <= segs[id].len()
    &&& forall|j: int| pad <= j < pad + n ==> #[trigger] segs[id][j] == 0
}

/// The object that far pointer `p` leads to in `segs`, as its segment and
/// the range of its bytes: for a single far pointer, the object that the
/// landing pad points at (when the pad is no far pointer itself), for a
/// double far pointer the object that the pad's tag describes (when the pad
/// is not null); `None` where the object's first word lies outside its
/// segment or is one of the pads.
pub open spec fn far_object(segs: Seq<Seq<u8>>, p: WirePointer) -> Option<(int, int, int)> {
    let id = p.spec_far_ref().segment_id as int;
    let pad = 8 * p.spec_far_position() as int;
    let padp = wire_pointer_at(segs[id], pad);
    if !p.spec_is_double_far() {
        let t = padp.spec_target(pad);
        if padp.spec_kind() != WirePointerKind::WP_FAR && 0 <= id < segs.len() && 0 <= t && t + 8
            <= segs[id].len() && t != pad {
            Some((id, t, t + object_extent(segs[id], padp, t)))
        } else {
            None
        }
    } else {
        let s2 = padp.spec_far_ref().segment_id as int;
        let p2 = 8 * padp.spec_far_position() as int;
        let tag = wire_pointer_at(segs[id], pad + 8);
        if !padp.spec_is_null() && 0 <= s2 < segs.len() && p2 + 8 <= segs[s2].len() && !(s2 == id
            && pad <= p2 < pad + 16) {
            Some((s2, p2, p2 + object_extent(segs[s2], tag, p2)))
        } else {
            None
        }
    }
}

/// The object that far pointer `p` leads to in `old` (see `far_object`) is
/// zero in `new`.
pub open spec fn far_object_zeroed(old: Seq<Seq<u8>>, new: Seq<Seq<u8>>, p: WirePointer) -> bool {
    far_object(old, p) matches Some((s, lo, hi)) ==> forall|j: int| lo <= j < hi ==> #[trigger] new[s][j]
        == 0
}

/// Zeroes the object that pointer `p`, which sits (or sat) at byte `pos` of
/// segment `segment`, points at; for a far pointer, the landing pad too.
/// Returns false, having zeroed only part of it, where the object cannot be
/// zeroed (see `zero_object_helper`) or a landing pad is missing. Where it
/// returns true for a far pointer, the landing pad is zero; where what `p`
/// reaches within `d` pointers can be zeroed and is a tree, all of that is
/// zero afterwards.
#[verifier::spinoff_prover]
#[verifier::rlimit(60)]
fn zero_object_value(
    arena: &mut BuilderArena,
    segment: usize,
    pos: usize,
    p: WirePointer,
    Ghost(budget): Ghost<nat>,
    Ghost(d): Ghost<nat>,
) -> (ok: bool)
    requires
        old(arena).wf(),
        segment < old(arena)@.len(),
        pos < segment_byte_limit(),
        pos % 8 == 0,
        budget == arena_nonzero(old(arena)@),
    ensures
        final(arena).wf(),
        final(arena).used@ == old(arena).used@,
        final(arena).segment_words == old(arena).segment_words,
        arena_only_zeroed(old(arena)@, final(arena)@),
        words_zeroed(old(arena)@, final(arena)@),
        changed_only_where(
            old(arena)@,
            final(arena)@,
            |s: int, j: int| in_value(old(arena)@, segment as int, pos as int, p, budget, s, j),
        ),
        (exists|d: nat| zeroable_value(old(arena)@, segment as int, pos as int, p, d)) ==> ok,
        ok && p.spec_kind() != WirePointerKind::WP_FAR ==> forall|j: int|
            p.spec_target(pos as int) <= j < p.spec_target(pos as int) + object_extent(
                old(arena)@[segment as int],
                p,
                p.spec_target(pos as int),
            ) ==> #[trigger] final(arena)@[segment as int][j] == 0,
        p.spec_kind() == WirePointerKind::WP_CAPABILITY ==> !ok && final(arena)@ == old(arena)@,
        p.spec_kind() == WirePointerKind::WP_LIST && p.spec_list_ref().spec_element_size()
            == FieldSize::VOID ==> ok && final(arena)@ == old(arena)@,
        zeroable_value(old(arena)@, segment as int, pos as int, p, d) && tree_value(
            old(arena)@,
            segment as int,
            pos as int,
            p,
            d,
        ) ==> forall|s: int, j: int|
            0 <= s < old(arena)@.len() && 0 <= j < old(arena)@[s].len() && #[trigger] in_value(
                old(arena)@,
                segment as int,
                pos as int,
                p,
                d,
                s,
                j,
            ) ==> final(arena)@[s][j] == 0,
        ok && p.spec_kind() == WirePointerKind::WP_FAR ==> pads_zeroed(final(arena)@, p)
            && far_object_zeroed(old(arena)@, final(arena)@, p),
        ({
            let t = p.spec_target(pos as int);
            let end = t + object_extent(old(arena)@[segment as int], p, t);
            &&& is_flat_object(p) && end <= old(arena)@[segment as int].len() ==> ok
                && final(arena)@ == zero_range(old(arena)@, segment as int, t, end)
            &&& is_flat_object(p) && end > old(arena)@[segment as int].len() ==> !ok
                && final(arena)@ == old(arena)@
        }),
    decreases budget, 3nat,
{
    let ghost a0 = arena@;
    let ghost val = |s: int, j: int| in_value(a0, segment as int, pos as int, p, budget, s, j);
    let ghost tree = zeroable_value(a0, segment as int, pos as int, p, d) && tree_value(
        a0,
        segment as int,
        pos as int,
        p,
        d,
    );
    proof {
        lemma_words_zeroed_refl(a0);
    }
    if p.kind() == WirePointerKind::WP_FAR {
        let id = p.far_ref().segment_id as usize;
        if id >= arena.segment_count() {
            return false;
        }
        proof {
            assert(segment_wf(arena@[id as int], arena.used@[id as int] as nat));
        }
        let pad: u64 = 8 * p.far_position_in_segment() as u64;
        let double = p.is_double_far();
        let pad_len: u64 = if double {
            16
        } else {
            8
        };
        if pad + pad_len > arena.segment_len(id) as u64 {
            return false;
        }
        let pad = pad as usize;
        let pad_ptr = arena.read_pointer(id, pad);
        if !double {
            let ghost before = arena@;
            arena.zero_bytes(id, pad, pad + 8);
            proof {
                lemma_zero_range_words(a0, arena@, id as int, pad as int, pad + 8);
                lemma_changed_compose(a0, a0, arena@, val, |s: int, j: int| s == id && pad <= j < pad
                    + 8, val);
            }
            if pad_ptr.is_null() {
                proof {
                    if tree {
                        assert forall|s: int, j: int|
                            0 <= s < a0.len() && 0 <= j < a0[s].len() && #[trigger] in_value(
                                a0,
                                segment as int,
                                pos as int,
                                p,
                                d,
                                s,
                                j,
                            ) implies arena@[s][j] == 0 by {
                            if !(s == id && pad <= j < pad + 8) {
                                lemma_in_value_null(a0, id as int, pad as int, pad_ptr, (d - 1) as nat, s, j);
                            }
                        }
                    }
                }
                return true;
            }
            proof {
                lemma_arena_only_zeroed_refl(before);
                lemma_zeroing_decreases(before, before, arena@, id as int, pad as int);
            }
            let ghost mid = arena@;
            let ghost b1 = arena_nonzero(arena@);
            proof {
                if tree {
                    lemma_zeroable_value_state(a0, mid, id as int, pad as int, pad_ptr, (d - 1) as nat);
                    lemma_tree_value_state(a0, mid, id as int, pad as int, pad_ptr, (d - 1) as nat);
                }
            }
            let ok = zero_object_value(arena, id, pad, pad_ptr, Ghost(arena_nonzero(arena@)), Ghost((d - 1) as nat));
            proof {
                lemma_words_zeroed_trans(mid, mid, arena@);
                if tree {
                    assert forall|s2: int, j2: int|
                        0 <= s2 < a0.len() && 0 <= j2 < a0[s2].len() && #[trigger] in_value(
                            a0,
                            id as int,
                            pad as int,
                            pad_ptr,
                            (d - 1) as nat,
                            s2,
                            j2,
                        ) implies mid[s2][j2] == a0[s2][j2] by {
                        assert(!(s2 == id && pad <= j2 < pad + 8));
                    }
                    assert forall|s: int, j: int|
                        0 <= s < a0.len() && 0 <= j < a0[s].len() && #[trigger] in_value(
                            a0,
                            segment as int,
                            pos as int,
                            p,
                            d,
                            s,
                            j,
                        ) implies arena@[s][j] == 0 by {
                        if s == id && pad <= j < pad + 8 {
                            lemma_zero_stays(mid, arena@, s, j);
                        } else {
                            lemma_in_value_local(a0, mid, id as int, pad as int, pad_ptr, (d - 1) as nat, s, j);
                        }
                    }
                }
                assert forall|j: int| pad <= j < pad + 8 implies #[trigger] arena@[id as int][j] == 0 by {
                    lemma_zero_stays(mid, arena@, id as int, j);
                }
                let t = pad_ptr.spec_target(pad as int);
                if ok && pad_ptr.spec_kind() != WirePointerKind::WP_FAR && 0 <= t && t + 8 <= a0[id as int].len()
                    && t != pad {
                    assert forall|k: int| t <= k < t + 8 implies a0[id as int][k] == mid[id as int][k] by {}
                    lemma_extent_same(a0[id as int], mid[id as int], pad_ptr, t);
                }
            }
            proof {
                if exists|d0: nat| zeroable_value(a0, segment as int, pos as int, p, d0) {
                    let d = choose|d0: nat| zeroable_value(a0, segment as int, pos as int, p, d0);
                    lemma_zeroable_value_state(a0, mid, id as int, pad as int, pad_ptr, (d - 1) as nat);
                    assert(zeroable_value(mid, id as int, pad as int, pad_ptr, (d - 1) as nat));
                }
                lemma_arena_only_zeroed_trans(before, mid, arena@);
                let callee = |s: int, j: int| in_value(mid, id as int, pad as int, pad_ptr, b1, s, j);
                assert forall|s: int, j: int|
                    0 <= s < a0.len() && 0 <= j < a0[s].len() && #[trigger] callee(s, j) implies val(
                    s,
                    j,
                ) by {
                    lemma_in_value_state(a0, mid, id as int, pad as int, pad_ptr, b1, s, j);
                    lemma_in_value_fuel(a0, id as int, pad as int, pad_ptr, b1, (budget - 1) as nat,
                        s, j);
                }
                lemma_changed_compose(a0, mid, arena@, val, callee, val);
                lemma_words_zeroed_trans(a0, mid, arena@);
            }
            ok
        } else {
            let tag = arena.read_pointer(id, pad + 8);
            let ghost before = arena@;
            arena.zero_bytes(id, pad, pad + 16);
            proof {
                lemma_zero_range_words(a0, arena@, id as int, pad as int, pad + 16);
                lemma_changed_compose(a0, a0, arena@, val, |s: int, j: int| s == id && pad <= j < pad
                    + 16, val);
            }
            if pad_ptr.is_null() {
                proof {
                    if tree {
                        assert forall|s: int, j: int|
                            0 <= s < a0.len() && 0 <= j < a0[s].len() && #[trigger] in_value(
                                a0,
                                segment as int,
                                pos as int,
                                p,
                                d,
                                s,
                                j,
                            ) implies arena@[s][j] == 0 by {}
                    }
                }
                return true;
            }
            let id2 = pad_ptr.far_ref().segment_id as usize;
            proof {
                if exists|d0: nat| zeroable_value(a0, segment as int, pos as int, p, d0) {
                    let d = choose|d0: nat| zeroable_value(a0, segment as int, pos as int, p, d0);
                    assert(zeroable_object(
                        a0,
                        id2 as int,
                        tag,
                        8 * pad_ptr.spec_far_position() as int,
                        (d - 1) as nat,
                    ));
                }
            }
            if id2 >= arena.segment_count() || tag.kind() == WirePointerKind::WP_FAR || tag.kind()
                == WirePointerKind::WP_CAPABILITY {
                return false;
            }
            proof {
                lemma_arena_only_zeroed_count(before, arena@);
                lemma_arena_only_zeroed_refl(before);
                lemma_zeroing_decreases(before, before, arena@, id as int, pad as int);
            }
            let ghost mid = arena@;
            let ghost b1 = arena_nonzero(arena@);
            let ptr2 = 8 * pad_ptr.far_position_in_segment() as u64;
            proof {
                if tree {
                    lemma_zeroable_object_state(a0, mid, id2 as int, tag, ptr2 as int, (d - 1) as nat);
                    lemma_tree_object_state(a0, mid, id2 as int, tag, ptr2 as int, (d - 1) as nat);
                }
            }
            let ok = zero_object_helper(arena, id2, tag, ptr2, Ghost(arena_nonzero(arena@)), Ghost((d - 1) as nat));
            proof {
                lemma_words_zeroed_trans(mid, mid, arena@);
                if tree {
                    assert forall|s2: int, j2: int|
                        0 <= s2 < a0.len() && 0 <= j2 < a0[s2].len() && #[trigger] in_object(
                            a0,
                            id2 as int,
                            tag,
                            ptr2 as int,
                            (d - 1) as nat,
                            s2,
                            j2,
                        ) implies mid[s2][j2] == a0[s2][j2] by {
                        assert(!(s2 == id && pad <= j2 < pad + 16));
                    }
                    assert forall|s: int, j: int|
                        0 <= s < a0.len() && 0 <= j < a0[s].len() && #[trigger] in_value(
                            a0,
                            segment as int,
                            pos as int,
                            p,
                            d,
                            s,
                            j,
                        ) implies arena@[s][j] == 0 by {
                        if s == id && pad <= j < pad + 16 {
                            lemma_zero_stays(mid, arena@, s, j);
                        } else {
                            lemma_in_object_local(a0, mid, id2 as int, tag, ptr2 as int, (d - 1) as nat, s, j);
                        }
                    }
                }
                assert forall|j: int| pad <= j < pad + 16 implies #[trigger] arena@[id as int][j] == 0 by {
                    lemma_zero_stays(mid, arena@, id as int, j);
                }
                if ok && ptr2 + 8 <= a0[id2 as int].len() && !(id2 == id && pad <= ptr2 < pad + 16) {
                    assert forall|k: int| ptr2 <= k < ptr2 + 8 implies a0[id2 as int][k] == mid[id2 as int][k] by {}
                    lemma_extent_same(a0[id2 as int], mid[id2 as int], tag, ptr2 as int);
                }
            }
            proof {
                if exists|d0: nat| zeroable_value(a0, segment as int, pos as int, p, d0) {
                    let d = choose|d0: nat| zeroable_value(a0, segment as int, pos as int, p, d0);
                    lemma_zeroable_object_state(a0, mid, id2 as int, tag, ptr2 as int, (d - 1) as nat);
                    assert(zeroable_object(mid, id2 as int, tag, ptr2 as int, (d - 1) as nat));
                }
                lemma_arena_only_zeroed_trans(before, mid, arena@);
                let callee = |s: int, j: int| in_object(mid, id2 as int, tag, ptr2 as int, b1, s, j);
                assert forall|s: int, j: int|
                    0 <= s < a0.len() && 0 <= j < a0[s].len() && #[trigger] callee(s, j) implies val(
                    s,
                    j,
                ) by {
                    lemma_in_object_state(a0, mid, id2 as int, tag, ptr2 as int, b1, s, j);
                    lemma_in_object_fuel(a0, id2 as int, tag, ptr2 as int, b1, (budget - 1) as nat,
                        s, j);
                }
                lemma_changed_compose(a0, mid, arena@, val, callee, val);
                lemma_words_zeroed_trans(a0, mid, arena@);
            }
            ok
        }
    } else {
        proof {
            if exists|d0: nat| zeroable_value(a0, segment as int, pos as int, p, d0) {
                let d = choose|d0: nat| zeroable_value(a0, segment as int, pos as int, p, d0);
                assert(zeroable_object(a0, segment as int, p, p.spec_target(pos as int), d));
            }
        }
        if p.kind() == WirePointerKind::WP_CAPABILITY {
            return false;
        }
        let t = target_of(&p, pos);
        let r = zero_object_helper(arena, segment, p, t, Ghost(budget), Ghost(d));
        proof {
            if tree {
                assert(tree_object(a0, segment as int, p, t as int, d));
                assert forall|s: int, j: int|
                    0 <= s < a0.len() && 0 <= j < a0[s].len() && #[trigger] in_value(
                        a0,
                        segment as int,
                        pos as int,
                        p,
                        d,
                        s,
                        j,
                    ) implies arena@[s][j] == 0 by {
                    assert(in_object(a0, segment as int, p, t as int, d, s, j));
                }
            }
        }
        r
    }
}

/// Zeroes the object that the pointer at byte `reff` of segment `segment`
/// points at, before the pointer is overwritten and the object becomes
/// unreachable; for a far pointer, the landing pad too. Only ever sets whole
/// words to zero, and only words the pointer reached. Checks the message on
/// the way: returns false, having zeroed only part of it, where what the
/// pointer leads to does not fit its segment or cannot be zeroed (a
/// capability, a far pointer where a tag belongs, an inline-composite list
/// whose tag is not a struct tag, a landing pad in a segment the message does
/// not have); returns true wherever it can all be zeroed. Where it returns
/// true for a far pointer, the landing pad is zero and so is the object
/// beyond it (see `far_object_zeroed`); where what the pointer reaches is a
/// tree (`old_object_tree`), every byte it reaches is zero afterwards.
pub fn try_zero_object(arena: &mut BuilderArena, segment: usize, reff: usize) -> (ok: bool)
    requires
        old(arena).wf(),
        segment < old(arena)@.len(),
        reff + 8 <= old(arena)@[segment as int].len(),
        reff % 8 == 0,
    ensures
        final(arena).wf(),
        final(arena).used@ == old(arena).used@,
        final(arena).segment_words == old(arena).segment_words,
        arena_only_zeroed(old(arena)@, final(arena)@),
        words_zeroed(old(arena)@, final(arena)@),
        changed_only_where(
            old(arena)@,
            final(arena)@,
            |s: int, j: int|
                in_value(
                    old(arena)@,
                    segment as int,
                    reff as int,
                    wire_pointer_at(old(arena)@[segment as int], reff as int),
                    arena_nonzero(old(arena)@),
                    s,
                    j,
                ),
        ),
        (exists|d: nat|
            zeroable_value(
                old(arena)@,
                segment as int,
                reff as int,
                wire_pointer_at(old(arena)@[segment as int], reff as int),
                d,
            )) ==> ok,
        ({
            let p = wire_pointer_at(old(arena)@[segment as int], reff as int);
            let t = p.spec_target(reff as int);
            let end = t + object_extent(old(arena)@[segment as int], p, t);
            &&& ok && p.spec_kind() != WirePointerKind::WP_FAR ==> forall|j: int|
                t <= j < end ==> #[trigger] final(arena)@[segment as int][j] == 0
            &&& p.spec_kind() == WirePointerKind::WP_CAPABILITY ==> !ok && final(arena)@ == old(
                arena,
            )@
            &&& p.spec_kind() == WirePointerKind::WP_LIST && p.spec_list_ref().spec_element_size()
                == FieldSize::VOID ==> ok && final(arena)@ == old(arena)@
            &&& is_flat_object(p) && end <= old(arena)@[segment as int].len() ==> ok
                && final(arena)@ == zero_range(old(arena)@, segment as int, t, end)
            &&& is_flat_object(p) && end > old(arena)@[segment as int].len() ==> !ok
                && final(arena)@ == old(arena)@
            &&& ok && p.spec_kind() == WirePointerKind::WP_FAR ==> pads_zeroed(final(arena)@, p)
                && far_object_zeroed(old(arena)@, final(arena)@, p)
        }),
        old_object_tree(old(arena)@, segment as int, reff as int) ==> forall|s: int, j: int|
            0 <= s < old(arena)@.len() && 0 <= j < old(arena)@[s].len() && #[trigger] in_value(
                old(arena)@,
                segment as int,
                reff as int,
                wire_pointer_at(old(arena)@[segment as int], reff as int),
                arena_nonzero(old(arena)@),
                s,
                j,
            ) ==> final(arena)@[s][j] == 0,
{
    proof {
        assert(segment_wf(arena@[segment as int], arena.used@[segment as int] as nat));
    }
    let p = arena.read_pointer(segment, reff);
    let ghost d = choose|d: nat|
        zeroable_value(arena@, segment as int, reff as int, p, d) && tree_value(
            arena@,
            segment as int,
            reff as int,
            p,
            d,
        );
    let ghost a0 = arena@;
    let ok = zero_object_value(arena, segment, reff, p, Ghost(arena_nonzero(arena@)), Ghost(d));
    proof {
        if old_object_tree(a0, segment as int, reff as int) {
            assert forall|s: int, j: int|
                0 <= s < a0.len() && 0 <= j < a0[s].len() && #[trigger] in_value(
                    a0,
                    segment as int,
                    reff as int,
                    p,
                    arena_nonzero(a0),
                    s,
                    j,
                ) implies arena@[s][j] == 0 by {
                lemma_in_value_stable(a0, segment as int, reff as int, p, d, arena_nonzero(a0), s, j);
            }
        }
    }
    ok
}

/// Zeroes the object that the pointer at byte `reff` of segment `segment`
/// points at, where all that it leads to can be zeroed (see
/// `try_zero_object`): the object, its landing pads, and what its pointers
/// lead to. Only words that the pointer reached change, and they become zero;
/// the object's own words, a far pointer's landing pad and the object beyond
/// it (see `far_object_zeroed`) always do, and, where what the pointer
/// reaches is a tree (`old_object_tree`), every byte it reaches does: the
/// segments are then the old ones with exactly those bytes set to zero.
pub fn zero_object(arena: &mut BuilderArena, segment: usize, reff: usize)
    requires
        old(arena).wf(),
        segment < old(arena)@.len(),
        reff + 8 <= old(arena)@[segment as int].len(),
        reff % 8 == 0,
        old_object_zeroable(old(arena)@, segment as int, reff as int),
    ensures
        final(arena).wf(),
        final(arena).used@ == old(arena).used@,
        final(arena).segment_words == old(arena).segment_words,
        arena_only_zeroed(old(arena)@, final(arena)@),
        words_zeroed(old(arena)@, final(arena)@),
        changed_only_where(
            old(arena)@,
            final(arena)@,
            |s: int, j: int|
                in_value(
                    old(arena)@,
                    segment as int,
                    reff as int,
                    wire_pointer_at(old(arena)@[segment as int], reff as int),
                    arena_nonzero(old(arena)@),
                    s,
                    j,
                ),
        ),
        ({
            let p = wire_pointer_at(old(arena)@[segment as int], reff as int);
            let t = p.spec_target(reff as int);
            let end = t + object_extent(old(arena)@[segment as int], p, t);
            &&& p.spec_kind() != WirePointerKind::WP_FAR ==> forall|j: int|
                t <= j < end ==> #[trigger] final(arena)@[segment as int][j] == 0
            &&& is_flat_object(p) ==> final(arena)@ == zero_range(
                old(arena)@,
                segment as int,
                t,
                end,
            )
            &&& p.spec_kind() == WirePointerKind::WP_FAR ==> pads_zeroed(final(arena)@, p)
                && far_object_zeroed(old(arena)@, final(arena)@, p)
        }),
        old_object_tree(old(arena)@, segment as int, reff as int) ==> forall|s: int, j: int|
            0 <= s < old(arena)@.len() && 0 <= j < old(arena)@[s].len() ==> #[trigger] final(arena)@[s][j]
                == if in_value(
                old(arena)@,
                segment as int,
                reff as int,
                wire_pointer_at(old(arena)@[segment as int], reff as int),
                arena_nonzero(old(arena)@),
                s,
                j,
            ) {
                0
            } else {
                old(arena)@[s][j]
            },
{
    let _ = try_zero_object(arena, segment, reff);
}


/// The pointer at byte `p0` of segment `s0` leads to the pointer at byte `p1`
/// of segment `s1`: it is that pointer (and not a far pointer), or it is a
/// single far pointer whose landing pad is that pointer.
pub open spec fn lands_at(segs: Seq<Seq<u8>>, s0: int, p0: int, s1: int, p1: int) -> bool {
    let p = wire_pointer_at(segs[s0], p0);
    if s0 == s1 && p0 == p1 {
        p.spec_kind() != WirePointerKind::WP_FAR
    } else {
        &&& p.spec_kind() == WirePointerKind::WP_FAR
        &&& !p.spec_is_double_far()
        &&& p.spec_far_ref().segment_id == s1
        &&& 8 * p.spec_far_position() == p1
    }
}

/// Following a pointer that lands at another gives that other pointer as the
/// tag, and its target.
pub proof fn lemma_lands_at_follow(segs: Seq<Seq<u8>>, s0: int, p0: int, s1: int, p1: int)
    requires
        lands_at(segs, s0, p0, s1, p1),
        0 <= s0 < segs.len(),
        0 <= s1 < segs.len(),
        0 <= p1,
        p1 + 8 <= segs[s1].len(),
    ensures
        ({
            let p = wire_pointer_at(segs[s0], p0);
            let tag = wire_pointer_at(segs[s1], p1);
            crate::wire_helpers::spec_follow_fars(segs, p, p.spec_target(p0), s0) == Ok::<
                (WirePointer, int, int),
                crate::reader::ReadError,
            >((tag, s1, tag.spec_target(p1)))
        }),
{
}

/// Bytes of the segments that changed, other than the two pointers at `p0` of
/// `s0` and at `p1` of `s1`, were set to zero; segments were only added.
pub open spec fn zeroed_except(
    old: Seq<Seq<u8>>,
    new: Seq<Seq<u8>>,
    s0: int,
    p0: int,
    s1: int,
    p1: int,
) -> bool {
    &&& new.len() >= old.len()
    &&& forall|i: int| 0 <= i < old.len() ==> #[trigger] new[i].len() == old[i].len()
    &&& forall|i: int, j: int|
        0 <= i < old.len() && 0 <= j < old[i].len() && !(i == s0 && p0 <= j < p0 + 8) && !(i
            == s1 && p1 <= j < p1 + 8) ==> #[trigger] new[i][j] == old[i][j] || new[i][j] == 0
}

/// No byte of the segments changed other than the two pointers at `p0` of
/// `s0` and at `p1` of `s1`; segments were only added.
pub open spec fn unchanged_except(
    old: Seq<Seq<u8>>,
    new: Seq<Seq<u8>>,
    s0: int,
    p0: int,
    s1: int,
    p1: int,
) -> bool {
    &&& new.len() >= old.len()
    &&& forall|i: int| 0 <= i < old.len() ==> #[trigger] new[i].len() == old[i].len()
    &&& forall|i: int, j: int|
        0 <= i < old.len() && 0 <= j < old[i].len() && !(i == s0 && p0 <= j < p0 + 8) && !(i
            == s1 && p1 <= j < p1 + 8) ==> #[trigger] new[i][j] == old[i][j]
}

/// Storing a pointer changes no byte outside it.
pub proof fn lemma_write_pointer_unchanged(segs: Seq<Seq<u8>>, s: int, p: int, q: WirePointer)
    requires
        0 <= s < segs.len(),
        0 <= p,
        p + 8 <= segs[s].len(),
    ensures
        unchanged_except(
            segs,
            segs.update(s, crate::wire::write_wire_pointer(segs[s], p, q)),
            s,
            p,
            s,
            p,
        ),
{
    crate::wire::lemma_write_wire_pointer(segs[s], p, q);
}

/// Two changes, each confined to one pointer, are together confined to the
/// two pointers.
pub proof fn lemma_unchanged_except_compose(
    a: Seq<Seq<u8>>,
    b: Seq<Seq<u8>>,
    c: Seq<Seq<u8>>,
    s0: int,
    p0: int,
    s1: int,
    p1: int,
)
    requires
        unchanged_except(a, b, s0, p0, s0, p0),
        unchanged_except(b, c, s1, p1, s1, p1),
    ensures
        unchanged_except(a, c, s0, p0, s1, p1),
{
    assert forall|i: int| 0 <= i < a.len() implies #[trigger] c[i].len() == a[i].len() by {
        assert(b[i].len() == a[i].len());
    }
    assert forall|i: int, j: int|
        0 <= i < a.len() && 0 <= j < a[i].len() && !(i == s0 && p0 <= j < p0 + 8) && !(i == s1
            && p1 <= j < p1 + 8) implies #[trigger] c[i][j] == a[i][j] by {
        assert(b[i][j] == a[i][j]);
        assert(b[i].len() == a[i].len());
        assert(c[i][j] == b[i][j]);
    }
}

/// Zeroing followed by changes confined to two pointers is zeroing outside
/// the two pointers.
pub proof fn lemma_zeroed_then_unchanged(
    a: Seq<Seq<u8>>,
    b: Seq<Seq<u8>>,
    c: Seq<Seq<u8>>,
    s0: int,
    p0: int,
    s1: int,
    p1: int,
)
    requires
        arena_only_zeroed(a, b),
        unchanged_except(b, c, s0, p0, s1, p1),
    ensures
        zeroed_except(a, c, s0, p0, s1, p1),
        a == b ==> unchanged_except(a, c, s0, p0, s1, p1),
{
    assert forall|i: int| 0 <= i < a.len() implies #[trigger] c[i].len() == a[i].len() by {
        assert(b[i].len() == a[i].len());
    }
    assert forall|i: int, j: int|
        0 <= i < a.len() && 0 <= j < a[i].len() && !(i == s0 && p0 <= j < p0 + 8) && !(i == s1
            && p1 <= j < p1 + 8) implies #[trigger] c[i][j] == a[i][j] || c[i][j] == 0 by {
        assert(only_zeroed(a[i], b[i]));
        assert(b[i][j] == a[i][j] || b[i][j] == 0);
        assert(c[i][j] == b[i][j]);
    }
}

/// Adding a segment changes no byte of the others.
pub proof fn lemma_push_unchanged(a: Seq<Seq<u8>>, b: Seq<Seq<u8>>, s: int, p: int)
    requires
        b.len() >= a.len(),
        forall|i: int| 0 <= i < a.len() ==> #[trigger] b[i] == a[i],
    ensures
        unchanged_except(a, b, s, p, s, p),
{
}

/// Unchanged is transitive for the same two exempt pointers.
pub proof fn lemma_unchanged_except_trans(
    a: Seq<Seq<u8>>,
    b: Seq<Seq<u8>>,
    c: Seq<Seq<u8>>,
    s0: int,
    p0: int,
    s1: int,
    p1: int,
)
    requires
        unchanged_except(a, b, s0, p0, s1, p1),
        unchanged_except(b, c, s0, p0, s1, p1),
    ensures
        unchanged_except(a, c, s0, p0, s1, p1),
{
    assert forall|i: int| 0 <= i < a.len() implies #[trigger] c[i].len() == a[i].len() by {
        assert(b[i].len() == a[i].len());
    }
    assert forall|i: int, j: int|
        0 <= i < a.len() && 0 <= j < a[i].len() && !(i == s0 && p0 <= j < p0 + 8) && !(i == s1
            && p1 <= j < p1 + 8) implies #[trigger] c[i][j] == a[i][j] by {
        assert(b[i][j] == a[i][j]);
        assert(b[i].len() == a[i].len());
        assert(c[i][j] == b[i][j]);
    }
}

/// Every byte of `old` that was allocated and differs in `new`, other than
/// the pointer at byte `p0` of segment `s0`, is now zero and was reachable
/// from that pointer: the old object, its landing pads, and what its
/// pointers led to.
pub open spec fn kept_but_old_object(old: BuilderArena, new: Seq<Seq<u8>>, s0: int, p0: int) -> bool {
    forall|i: int, j: int|
        0 <= i < old@.len() && 0 <= j < 8 * old.used@[i] && !(i == s0 && p0 <= j < p0 + 8)
            && #[trigger] new[i][j] != old@[i][j] ==> new[i][j] == 0 && in_value(
            old@,
            s0,
            p0,
            wire_pointer_at(old@[s0], p0),
            arena_nonzero(old@),
            i,
            j,
        )
}

/// Zeroing what the old pointer reached, then changing only the pointer and
/// a word that was not allocated, keeps everything else.
pub proof fn lemma_kept_after(
    a0: BuilderArena,
    a1: Seq<Seq<u8>>,
    c: Seq<Seq<u8>>,
    s0: int,
    r0: int,
    s1: int,
    p1: int,
)
    requires
        a0.wf(),
        arena_only_zeroed(a0@, a1),
        changed_only_where(
            a0@,
            a1,
            |i: int, j: int|
                in_value(a0@, s0, r0, wire_pointer_at(a0@[s0], r0), arena_nonzero(a0@), i, j),
        ),
        unchanged_except(a1, c, s0, r0, s1, p1),
        (s1 == s0 && p1 == r0) || s1 >= a0@.len() || p1 >= 8 * a0.used@[s1],
    ensures
        kept_but_old_object(a0, c, s0, r0),
{
    assert forall|i: int, j: int|
        0 <= i < a0@.len() && 0 <= j < 8 * a0.used@[i] && !(i == s0 && r0 <= j < r0 + 8)
            && #[trigger] c[i][j] != a0@[i][j] implies c[i][j] == 0 && in_value(
        a0@,
        s0,
        r0,
        wire_pointer_at(a0@[s0], r0),
        arena_nonzero(a0@),
        i,
        j,
    ) by {
        assert(segment_wf(a0@[i], a0.used@[i] as nat));
        assert(only_zeroed(a0@[i], a1[i]));
        assert(c[i][j] == a1[i][j]);
    }
}

/// What the pointer at byte `p0` of segment `s0` of `old` led to is zero in
/// `new`, as far as it lay in what was allocated and apart from the pointer
/// itself: the object it pointed at (when not through a far pointer), the
/// landing pads of a far pointer and the object beyond them (see
/// `far_object`), and, where what it led to is a tree (see
/// `old_object_tree`), all of it: landing pads, objects and what their
/// pointers led to.
#[verifier::opaque]
pub open spec fn old_object_cleared(old: BuilderArena, new: Seq<Seq<u8>>, s0: int, p0: int) -> bool {
    let p = wire_pointer_at(old@[s0], p0);
    let t = p.spec_target(p0);
    let end = t + object_extent(old@[s0], p, t);
    let id = p.spec_far_ref().segment_id as int;
    let pad = 8 * p.spec_far_position() as int;
    let n: int = if p.spec_is_double_far() {
        16
    } else {
        8
    };
    &&& p.spec_kind() != WirePointerKind::WP_FAR ==> forall|j: int|
        t <= j < end && 0 <= j < 8 * old.used@[s0] && !(p0 <= j < p0 + 8) ==> #[trigger] new[s0][j]
            == 0
    &&& p.spec_kind() == WirePointerKind::WP_FAR ==> forall|j: int|
        pad <= j < pad + n && 0 <= id < old@.len() && 0 <= j < 8 * old.used@[id] && !(id == s0 && p0
            <= j < p0 + 8) ==> #[trigger] new[id][j] == 0
    &&& p.spec_kind() == WirePointerKind::WP_FAR ==> (far_object(old@, p) matches Some((s, lo, hi))
        ==> forall|j: int|
        lo <= j < hi && 0 <= j < 8 * old.used@[s] && !(s == s0 && p0 <= j < p0 + 8) ==> #[trigger] new[s][j]
            == 0)
    &&& old_object_tree(old@, s0, p0) ==> forall|i: int, j: int|
        0 <= i < old@.len() && 0 <= j < 8 * old.used@[i] && !(i == s0 && p0 <= j < p0 + 8)
            && #[trigger] in_value(old@, s0, p0, p, arena_nonzero(old@), i, j) ==> new[i][j] == 0
}

/// Where `new` keeps every allocated byte of `mid` apart from the pointer at
/// byte `p0` of segment `s0`, the old object stays cleared.
pub proof fn lemma_cleared_kept(a0: BuilderArena, mid: Seq<Seq<u8>>, new: Seq<Seq<u8>>, s0: int, p0: int)
    requires
        a0.wf(),
        0 <= s0 < a0@.len(),
        old_object_cleared(a0, mid, s0, p0),
        forall|i: int, j: int|
            0 <= i < a0@.len() && 0 <= j < 8 * a0.used@[i] && !(i == s0 && p0 <= j < p0 + 8)
                ==> #[trigger] new[i][j] == mid[i][j],
    ensures
        old_object_cleared(a0, new, s0, p0),
{
    reveal(old_object_cleared);
    let p = wire_pointer_at(a0@[s0], p0);
    let t = p.spec_target(p0);
    let end = t + object_extent(a0@[s0], p, t);
    let id = p.spec_far_ref().segment_id as int;
    if p.spec_kind() != WirePointerKind::WP_FAR {
        assert forall|j: int|
            t <= j < end && 0 <= j < 8 * a0.used@[s0] && !(p0 <= j < p0 + 8) implies #[trigger] new[s0][j]
            == 0 by {
            assert(new[s0][j] == mid[s0][j]);
        }
    } else {
        let pad = 8 * p.spec_far_position() as int;
        let n: int = if p.spec_is_double_far() {
            16
        } else {
            8
        };
        assert forall|j: int|
            pad <= j < pad + n && 0 <= id < a0@.len() && 0 <= j < 8 * a0.used@[id] && !(id == s0 && p0
                <= j < p0 + 8) implies #[trigger] new[id][j] == 0 by {
            assert(new[id][j] == mid[id][j]);
        }
        if let Some((fs, lo, hi)) = far_object(a0@, p) {
            assert forall|j: int|
                lo <= j < hi && 0 <= j < 8 * a0.used@[fs] && !(fs == s0 && p0 <= j < p0 + 8) implies #[trigger] new[fs][j]
                == 0 by {
                assert(new[fs][j] == mid[fs][j]);
            }
        }
    }
    if old_object_tree(a0@, s0, p0) {
        assert forall|i: int, j: int|
            0 <= i < a0@.len() && 0 <= j < 8 * a0.used@[i] && !(i == s0 && p0 <= j < p0 + 8)
                && #[trigger] in_value(a0@, s0, p0, p, arena_nonzero(a0@), i, j) implies new[i][j] == 0 by {
            assert(new[i][j] == mid[i][j]);
        }
    }
}

/// Changing only the pointer and a word that was not allocated keeps the
/// old object cleared.
pub proof fn lemma_cleared_after_far(
    a0: BuilderArena,
    a1: Seq<Seq<u8>>,
    c: Seq<Seq<u8>>,
    s0: int,
    r0: int,
    s1: int,
    p1: int,
)
    requires
        a0.wf(),
        0 <= s0 < a0@.len(),
        0 <= r0,
        a0@.len() <= a1.len(),
        forall|i: int| 0 <= i < a0@.len() ==> #[trigger] a1[i].len() == a0@[i].len(),
        old_object_cleared(a0, a1, s0, r0),
        unchanged_except(a1, c, s0, r0, s1, p1),
        (s1 == s0 && p1 == r0) || s1 >= a0@.len() || p1 >= 8 * a0.used@[s1],
    ensures
        old_object_cleared(a0, c, s0, r0),
{
    assert forall|i: int, j: int|
        0 <= i < a0@.len() && 0 <= j < 8 * a0.used@[i] && !(i == s0 && r0 <= j < r0 + 8)
            implies #[trigger] c[i][j] == a1[i][j] by {
        assert(segment_wf(a0@[i], a0.used@[i] as nat));
        assert(j < a1[i].len());
        assert(!(i == s1 && p1 <= j < p1 + 8));
    }
    lemma_cleared_kept(a0, a1, c, s0, r0);
}

/// Changing only the pointer itself or a word that was not allocated keeps
/// the old object cleared.
pub proof fn lemma_cleared_write(
    a0: BuilderArena,
    x: Seq<Seq<u8>>,
    y: Seq<Seq<u8>>,
    s0: int,
    p0: int,
    s: int,
    lo: int,
    hi: int,
)
    requires
        a0.wf(),
        0 <= s0 < a0@.len(),
        0 <= p0,
        old_object_cleared(a0, x, s0, p0),
        a0@.len() <= x.len(),
        forall|i: int| 0 <= i < a0@.len() ==> #[trigger] x[i].len() == a0@[i].len(),
        y.len() == x.len(),
        forall|i: int| 0 <= i < x.len() && i != s ==> #[trigger] y[i] == x[i],
        0 <= s < x.len(),
        y[s].len() == x[s].len(),
        forall|j: int| 0 <= j < x[s].len() && !(lo <= j < hi) ==> #[trigger] y[s][j] == x[s][j],
        (s == s0 && lo == p0 && hi == p0 + 8) || s >= a0@.len() || lo >= 8 * a0.used@[s],
    ensures
        old_object_cleared(a0, y, s0, p0),
{
    assert forall|i: int, j: int|
        0 <= i < a0@.len() && 0 <= j < 8 * a0.used@[i] && !(i == s0 && p0 <= j < p0 + 8)
            implies #[trigger] y[i][j] == x[i][j] by {
        assert(segment_wf(a0@[i], a0.used@[i] as nat));
        assert(j < x[i].len());
        if i == s {
            assert(!(lo <= j < hi));
        }
    }
    lemma_cleared_kept(a0, x, y, s0, p0);
}

/// Changing only the pointer itself or a word that was not allocated keeps
/// what `kept_but_old_object` says.
pub proof fn lemma_kept_write(
    a0: BuilderArena,
    x: Seq<Seq<u8>>,
    y: Seq<Seq<u8>>,
    s0: int,
    p0: int,
    s: int,
    lo: int,
    hi: int,
)
    requires
        a0.wf(),
        kept_but_old_object(a0, x, s0, p0),
        a0@.len() <= x.len(),
        forall|i: int| 0 <= i < a0@.len() ==> #[trigger] x[i].len() == a0@[i].len(),
        y.len() == x.len(),
        forall|i: int| 0 <= i < x.len() && i != s ==> #[trigger] y[i] == x[i],
        0 <= s < x.len(),
        y[s].len() == x[s].len(),
        forall|j: int| 0 <= j < x[s].len() && !(lo <= j < hi) ==> #[trigger] y[s][j] == x[s][j],
        (s == s0 && lo == p0 && hi == p0 + 8) || s >= a0@.len() || lo >= 8 * a0.used@[s],
    ensures
        kept_but_old_object(a0, y, s0, p0),
{
    assert forall|i: int, j: int|
        0 <= i < a0@.len() && 0 <= j < 8 * a0.used@[i] && !(i == s0 && p0 <= j < p0 + 8)
            && #[trigger] y[i][j] != a0@[i][j] implies y[i][j] == 0 && in_value(
        a0@,
        s0,
        p0,
        wire_pointer_at(a0@[s0], p0),
        arena_nonzero(a0@),
        i,
        j,
    ) by {
        assert(segment_wf(a0@[i], a0.used@[i] as nat));
        assert(y[i][j] == x[i][j]);
    }
}

/// Exactly `amount` words were allocated for an object in segment `s`, after
/// a landing-pad word where `s` is not the pointer's segment `segment`, when
/// the allocated words of the segments went from `old` to `new`; no other
/// segment of `old` allocated more.
#[verifier::opaque]
pub open spec fn allocated_words(
    old: Seq<usize>,
    new: Seq<usize>,
    segment: int,
    s: int,
    amount: nat,
) -> bool {
    &&& forall|i: int| 0 <= i < old.len() && i != s ==> #[trigger] new[i] == old[i]
    &&& new[s] == (if s < old.len() {
        old[s] as int
    } else {
        0
    }) + amount + (if s == segment {
        0int
    } else {
        1int
    })
}

/// `amount` words fit what is left of segment `seg`, or else a segment of
/// their own after a landing-pad word.
#[verifier::opaque]
pub open spec fn room_for(arena: BuilderArena, seg: int, amount: int) -> bool {
    arena.used@[seg] + amount <= arena.capacity(seg) || amount + 1 < SEGMENT_WORD_LIMIT
}

/// Allocates `amount` words for an object of the given kind and points the
/// pointer at byte `reff` of segment `segment` at them; first zeroes the
/// object the pointer pointed at, if it was not null. Where the segment has no
/// room, the words go to a segment that has, after a landing pad, and the
/// pointer becomes a far pointer to the pad; `reff` and `segment` are then
/// moved to the pad, which points at the words. Returns the byte position of
/// the words.
#[verifier::rlimit(90)]
#[verifier::spinoff_prover]
pub fn allocate(
    arena: &mut BuilderArena,
    reff: &mut usize,
    segment: &mut usize,
    amount: usize,
    kind: WirePointerKind,
) -> (ptr: usize)
    requires
        old(arena).wf(),
        old(arena)@.len() < 0xFFFF_FFFF,
        *old(segment) < old(arena)@.len(),
        *old(reff) % 8 == 0,
        *old(reff) + 8 <= 8 * old(arena).used@[*old(segment) as int],
        old_object_zeroable(old(arena)@, *old(segment) as int, *old(reff) as int),
        room_for(*old(arena), *old(segment) as int, amount as int),
        kind != WirePointerKind::WP_FAR,
    ensures
        final(arena).wf(),
        crate::arena::arena_grows(*old(arena), *final(arena)),
        final(arena)@.len() <= old(arena)@.len() + 1,
        *final(segment) < final(arena)@.len(),
        *final(reff) % 8 == 0,
        ptr % 8 == 0,
        *final(reff) + 8 <= ptr,
        allocated_words(
            old(arena).used@,
            final(arena).used@,
            *old(segment) as int,
            *final(segment) as int,
            amount as nat,
        ),
        ptr + 8 * amount == 8 * final(arena).used@[*final(segment) as int],
        (*final(segment) == *old(segment) && *final(reff) == *old(reff))
            || *final(segment) >= old(arena)@.len()
            || *final(reff) >= 8 * old(arena).used@[*final(segment) as int],
        *final(segment) >= old(arena)@.len() || ptr >= 8 * old(arena).used@[*final(segment) as int],
        old(arena).used@[*old(segment) as int] + amount <= old(arena).capacity(*old(segment) as int)
            ==> {
            &&& *final(segment) == *old(segment)
            &&& *final(reff) == *old(reff)
            &&& ptr == 8 * old(arena).used@[*old(segment) as int]
        },
        old(arena).used@[*old(segment) as int] + amount > old(arena).capacity(*old(segment) as int)
            ==> {
            &&& *final(segment) != *old(segment)
            &&& *final(reff) + 8 == ptr
        },
        forall|j: int|
            ptr <= j < ptr + 8 * amount ==> #[trigger] final(arena)@[*final(segment) as int][j]
                == 0,
        ({
            let tag = wire_pointer_at(final(arena)@[*final(segment) as int], *final(reff) as int);
            &&& tag.spec_kind() == kind
            &&& tag.spec_target(*final(reff) as int) == ptr
        }),
        lands_at(
            final(arena)@,
            *old(segment) as int,
            *old(reff) as int,
            *final(segment) as int,
            *final(reff) as int,
        ),
        zeroed_except(
            old(arena)@,
            final(arena)@,
            *old(segment) as int,
            *old(reff) as int,
            *final(segment) as int,
            *final(reff) as int,
        ),
        kept_but_old_object(*old(arena), final(arena)@, *old(segment) as int, *old(reff) as int),
        old_object_cleared(*old(arena), final(arena)@, *old(segment) as int, *old(reff) as int),
        wire_pointer_at(old(arena)@[*old(segment) as int], *old(reff) as int).spec_is_null()
            ==> unchanged_except(
            old(arena)@,
            final(arena)@,
            *old(segment) as int,
            *old(reff) as int,
            *final(segment) as int,
            *final(reff) as int,
        ),
{
    let ghost a0 = *arena;
    let s0 = *segment;
    let r0 = *reff;
    proof {
        assert(segment_wf(arena@[s0 as int], arena.used@[s0 as int] as nat));
    }
    let p0 = arena.read_pointer(s0, r0);
    if !p0.is_null() {
        zero_object(arena, s0, r0);
    }
    let ghost a1 = *arena;
    proof {
        if p0.spec_is_null() {
            assert(a1 == a0);
        }
        assert(changed_only_where(
            a0@,
            a1@,
            |i: int, j: int|
                in_value(a0@, s0 as int, r0 as int, wire_pointer_at(a0@[s0 as int], r0 as int),
                    arena_nonzero(a0@), i, j),
        ));
        if p0.spec_is_null() {
            assert forall|i: int, j: int|
                0 <= i < a0@.len() && 0 <= j < 8 * a0.used@[i] && !(i == s0 && r0 <= j < r0 + 8)
                    && #[trigger] in_value(a0@, s0 as int, r0 as int, p0, arena_nonzero(a0@), i, j)
                    implies a1@[i][j] == 0 by {
                lemma_in_value_null(a0@, s0 as int, r0 as int, p0, arena_nonzero(a0@), i, j);
            }
        } else {
            assert forall|i: int, j: int|
                0 <= i < a0@.len() && 0 <= j < 8 * a0.used@[i] && !(i == s0 && r0 <= j < r0 + 8)
                    && #[trigger] in_value(a0@, s0 as int, r0 as int, p0, arena_nonzero(a0@), i, j)
                    && old_object_tree(a0@, s0 as int, r0 as int) implies a1@[i][j] == 0 by {
                assert(segment_wf(a0@[i], a0.used@[i] as nat));
            }
        }
        assert(old_object_cleared(a0, a1@, s0 as int, r0 as int)) by {
            reveal(old_object_cleared);
        }
        lemma_arena_only_zeroed_refl(a0@);
        assert(arena_only_zeroed(a0@, a1@));
        assert(segment_wf(a1@[s0 as int], a1.used@[s0 as int] as nat));
    }
    match arena.allocate(s0, amount) {
        Some(ptr) => {
            let ghost a2 = *arena;
            let mut p = arena.read_pointer(s0, r0);
            p.set_kind_and_target(kind, ptr, r0);
            arena.write_pointer(s0, r0, p);
            proof {
                let s = s0 as int;
                crate::wire::lemma_write_wire_pointer(a2@[s], r0 as int, p);
                lemma_write_pointer_unchanged(a2@, s, r0 as int, p);
                assert(a2@ == a1@);
                lemma_zeroed_then_unchanged(a0@, a1@, arena@, s, r0 as int, s, r0 as int);
                assert(segment_wf(a1@[s], a1.used@[s] as nat));
                assert forall|j: int| ptr <= j < ptr + 8 * amount implies #[trigger] arena@[s][j]
                    == 0 by {
                    assert(a2@[s][j] == 0);
                }
                reveal(allocated_words);
                lemma_kept_after(a0, a1@, arena@, s, r0 as int, s, r0 as int);
                lemma_cleared_write(a0, a1@, arena@, s, r0 as int, s, r0 as int, r0 + 8);
            }
            ptr
        },
        None => {
            proof {
                reveal(room_for);
            }
            let (pad, s) = allocate_far(arena, s0, r0, amount, kind, Ghost(a0), Ghost(a1));
            proof {
                assert(segment_wf(arena@[s as int], arena.used@[s as int] as nat));
                lemma_kept_after(a0, a1@, arena@, s0 as int, r0 as int, s as int, pad as int);
                lemma_cleared_after_far(a0, a1@, arena@, s0 as int, r0 as int, s as int, pad as int);
            }
            *reff = pad;
            *segment = s;
            pad + 8
        },
    }
}

/// The part of `allocate` for an object that does not fit its segment: the
/// words go to a segment with room, after a landing pad; the pointer at byte
/// `r0` of segment `s0` becomes a far pointer to the pad, and the pad points
/// at the words. Returns the pad's position and segment.
#[verifier::rlimit(40)]
#[verifier::spinoff_prover]
fn allocate_far(
    arena: &mut BuilderArena,
    s0: usize,
    r0: usize,
    amount: usize,
    kind: WirePointerKind,
    Ghost(a0): Ghost<BuilderArena>,
    Ghost(a1): Ghost<BuilderArena>,
) -> (res: (usize, usize))
    requires
        old(arena).wf(),
        old(arena)@ == a1@,
        old(arena).used@ == a1.used@,
        old(arena).segment_words == a1.segment_words,
        a0.wf(),
        a0@.len() < 0xFFFF_FFFF,
        s0 < a0@.len(),
        r0 % 8 == 0,
        r0 + 8 <= 8 * a0.used@[s0 as int],
        amount + 1 < SEGMENT_WORD_LIMIT,
        kind != WirePointerKind::WP_FAR,
        arena_only_zeroed(a0@, a1@),
        a1.used@ == a0.used@,
        a1.segment_words == a0.segment_words,
        a1.used@[s0 as int] + amount > a1.capacity(s0 as int),
        wire_pointer_at(a0@[s0 as int], r0 as int).spec_is_null() ==> a1@ == a0@,
    ensures
        ({
            let (pad, s) = res;
            &&& final(arena).wf()
            &&& crate::arena::arena_grows(a0, *final(arena))
            &&& final(arena)@.len() <= a0@.len() + 1
            &&& s < final(arena)@.len()
            &&& pad % 8 == 0
            &&& s != s0
            &&& allocated_words(a0.used@, final(arena).used@, s0 as int, s as int, amount as nat)
            &&& (s >= a0@.len() || pad >= 8 * a0.used@[s as int])
            &&& pad + 8 + 8 * amount == 8 * final(arena).used@[s as int]
            &&& pad + 8 + 8 * amount <= final(arena)@[s as int].len()
            &&& forall|j: int|
                pad + 8 <= j < pad + 8 + 8 * amount ==> #[trigger] final(arena)@[s as int][j] == 0
            &&& wire_pointer_at(final(arena)@[s as int], pad as int).spec_kind() == kind
            &&& wire_pointer_at(final(arena)@[s as int], pad as int).spec_target(pad as int) == pad + 8
            &&& lands_at(final(arena)@, s0 as int, r0 as int, s as int, pad as int)
            &&& zeroed_except(a0@, final(arena)@, s0 as int, r0 as int, s as int, pad as int)
            &&& unchanged_except(a1@, final(arena)@, s0 as int, r0 as int, s as int, pad as int)
            &&& wire_pointer_at(a0@[s0 as int], r0 as int).spec_is_null() ==> unchanged_except(
                a0@,
                final(arena)@,
                s0 as int,
                r0 as int,
                s as int,
                pad as int,
            )
        }),
{
    proof {
        assert(segment_wf(a1@[s0 as int], a1.used@[s0 as int] as nat));
    }
        let amount_plus_ref = amount + 1;
        let s = arena.get_segment_with_available(amount_plus_ref);
        let ghost a2 = *arena;
        proof {
            assert(a2@[s0 as int] == a1@[s0 as int]);
            assert(a2.used@[s0 as int] == a1.used@[s0 as int]) by {
                assert(a2.used@.subrange(0, a1@.len() as int)[s0 as int] == a1.used@[s0 as int]);
            }
            assert(segment_wf(a2@[s as int], a2.used@[s as int] as nat));
        }
        let pad = match arena.allocate(s, amount_plus_ref) {
            Some(pad) => pad,
            None => {
                proof {
                    assert(false);
                }
                0
            },
        };
        let ghost a3 = *arena;
        proof {
            assert(s != s0);
            assert(segment_wf(a3@[s as int], a3.used@[s as int] as nat));
            assert(a3.used@[s0 as int] == a1.used@[s0 as int]);
        }
        let mut fp = arena.read_pointer(s0, r0);
        fp.set_far(false, pad / 8);
        fp.set_far_ref(crate::wire::FarRef { segment_id: s as u32 });
        arena.write_pointer(s0, r0, fp);
        let ghost a4 = *arena;
        let ptr1 = pad + 8;
        let mut lp = arena.read_pointer(s, pad);
        lp.set_kind_and_target(kind, ptr1, pad);
        arena.write_pointer(s, pad, lp);
        proof {
            crate::wire::lemma_write_wire_pointer(a3@[s0 as int], r0 as int, fp);
            crate::wire::lemma_write_wire_pointer(a4@[s as int], pad as int, lp);
            assert(a4@[s as int] == a3@[s as int]);
            assert(arena@[s0 as int] == a4@[s0 as int]);
            assert(wire_pointer_at(arena@[s0 as int], r0 as int) == fp);
            assert(wire_pointer_at(arena@[s as int], pad as int) == lp);
            assert(a3@ == a2@);
            lemma_push_unchanged(a1@, a2@, s0 as int, r0 as int);
            lemma_write_pointer_unchanged(a3@, s0 as int, r0 as int, fp);
            lemma_unchanged_except_trans(a1@, a3@, a4@, s0 as int, r0 as int, s0 as int, r0 as int);
            lemma_write_pointer_unchanged(a4@, s as int, pad as int, lp);
            lemma_unchanged_except_compose(a1@, a4@, arena@, s0 as int, r0 as int, s as int, pad as int);
            lemma_zeroed_then_unchanged(a0@, a1@, arena@, s0 as int, r0 as int, s as int, pad as int);
            assert forall|j: int| ptr1 <= j < ptr1 + 8 * amount implies #[trigger] arena@[s as int][j]
                == 0 by {
                assert(a3@[s as int][j] == 0);
            }
            assert forall|i: int| 0 <= i < a0@.len() implies #[trigger] arena.used@[i] >= a0.used@[i] by {
                assert(a2.used@.subrange(0, a1@.len() as int)[i] == a1.used@[i]);
            }
            assert forall|i: int| 0 <= i < a0@.len() && i != s implies #[trigger] arena.used@[i]
                == a0.used@[i] by {
                assert(a2.used@.subrange(0, a1@.len() as int)[i] == a1.used@[i]);
            }
            if s < a0@.len() {
                assert(a2.used@.subrange(0, a1@.len() as int)[s as int] == a1.used@[s as int]);
            }
            reveal(allocated_words);
            assert(allocated_words(a0.used@, arena.used@, s0 as int, s as int, amount as nat));
        }
        (pad, s)
}


/// Bytes that were allocated before, other than the pointer at `p0` of `s0`,
/// kept their value, or (with `zeroing`) were set to zero.
pub open spec fn allocated_preserved(
    old: BuilderArena,
    new: Seq<Seq<u8>>,
    s0: int,
    p0: int,
    zeroing: bool,
) -> bool {
    forall|i: int, j: int|
        0 <= i < old@.len() && 0 <= j < 8 * old.used@[i] && !(i == s0 && p0 <= j < p0 + 8)
            ==> #[trigger] new[i][j] == old@[i][j] || (zeroing && new[i][j] == 0)
}

/// Writing the pointer at which a pointer lands, keeping its lower half,
/// keeps the landing.
pub proof fn lemma_lands_at_write(
    segs: Seq<Seq<u8>>,
    s0: int,
    p0: int,
    s1: int,
    p1: int,
    q: WirePointer,
)
    requires
        lands_at(segs, s0, p0, s1, p1),
        0 <= s0 < segs.len(),
        0 <= s1 < segs.len(),
        0 <= p0,
        p0 + 8 <= segs[s0].len(),
        0 <= p1,
        p1 + 8 <= segs[s1].len(),
        q.offset_and_kind == wire_pointer_at(segs[s1], p1).offset_and_kind,
        s0 != s1 || p0 == p1 || p0 + 8 <= p1 || p1 + 8 <= p0,
    ensures
        lands_at(
            segs.update(s1, crate::wire::write_wire_pointer(segs[s1], p1, q)),
            s0,
            p0,
            s1,
            p1,
        ),
        wire_pointer_at(
            segs.update(s1, crate::wire::write_wire_pointer(segs[s1], p1, q))[s1],
            p1,
        ) == q,
{
    let new = segs.update(s1, crate::wire::write_wire_pointer(segs[s1], p1, q));
    crate::wire::lemma_write_wire_pointer(segs[s1], p1, q);
    if !(s0 == s1 && p0 == p1) {
        if s0 == s1 {
            crate::le::lemma_read_le_same(segs[s0], new[s0], p0, 4);
            crate::le::lemma_read_le_same(segs[s0], new[s0], p0 + 4, 4);
        }
        assert(wire_pointer_at(new[s0], p0) == wire_pointer_at(segs[s0], p0));
    }
}

/// The frame of an allocation: what was allocated before kept its value (or,
/// where the overwritten pointer was not null, was zeroed), other than the
/// overwritten pointer itself.
pub proof fn lemma_allocation_frame(
    a0: BuilderArena,
    a1: BuilderArena,
    s0: int,
    r0: int,
    s1: int,
    r1: int,
)
    requires
        a0.wf(),
        zeroed_except(a0@, a1@, s0, r0, s1, r1),
        (s1 == s0 && r1 == r0) || s1 >= a0@.len() || r1 >= 8 * a0.used@[s1],
    ensures
        allocated_preserved(a0, a1@, s0, r0, true),
{
    assert forall|i: int, j: int|
        0 <= i < a0@.len() && 0 <= j < 8 * a0.used@[i] && !(i == s0 && r0 <= j < r0 + 8)
            implies #[trigger] a1@[i][j] == a0@[i][j] || (true && a1@[i][j] == 0) by {
        assert(segment_wf(a0@[i], a0.used@[i] as nat));
    }
}

/// The frame of an allocation over a null pointer: what was allocated before
/// kept its value, other than the overwritten pointer itself.
pub proof fn lemma_allocation_frame_null(
    a0: BuilderArena,
    a1: BuilderArena,
    s0: int,
    r0: int,
    s1: int,
    r1: int,
)
    requires
        a0.wf(),
        unchanged_except(a0@, a1@, s0, r0, s1, r1),
        (s1 == s0 && r1 == r0) || s1 >= a0@.len() || r1 >= 8 * a0.used@[s1],
    ensures
        allocated_preserved(a0, a1@, s0, r0, false),
{
    assert forall|i: int, j: int|
        0 <= i < a0@.len() && 0 <= j < 8 * a0.used@[i] && !(i == s0 && r0 <= j < r0 + 8)
            implies #[trigger] a1@[i][j] == a0@[i][j] || (false && a1@[i][j] == 0) by {
        assert(segment_wf(a0@[i], a0.used@[i] as nat));
    }
}

/// Allocates a struct of the given size, all zero, for the pointer at byte
/// `reff` of segment `segment`, and returns a builder over it. Whatever the
/// pointer pointed at before is zeroed first.
#[verifier::rlimit(80)]
#[verifier::spinoff_prover]
pub fn init_struct_pointer(
    arena: &mut BuilderArena,
    reff: usize,
    segment: usize,
    size: StructSize,
) -> (b: StructBuilder)
    requires
        old(arena).wf(),
        old(arena)@.len() < 0xFFFF_FFFF,
        segment < old(arena)@.len(),
        reff % 8 == 0,
        reff + 8 <= 8 * old(arena).used@[segment as int],
        old_object_zeroable(old(arena)@, segment as int, reff as int),
    ensures
        final(arena).wf(),
        crate::arena::arena_grows(*old(arena), *final(arena)),
        final(arena)@.len() <= old(arena)@.len() + 1,
        kept_but_old_object(*old(arena), final(arena)@, segment as int, reff as int),
        old_object_cleared(*old(arena), final(arena)@, segment as int, reff as int),
        b.wf(*final(arena)),
        b.data_size == size.data * 64,
        b.pointer_count == size.pointers,
        b.bit0offset == 0,
        b.pointers == b.data + 8 * size.data,
        b.data % 8 == 0,
        forall|j: int|
            b.data <= j < b.data + 8 * (size.data + size.pointers) ==> #[trigger] final(arena)@[b.segment as int][j] == 0,
        allocated_preserved(
            *old(arena),
            final(arena)@,
            segment as int,
            reff as int,
            !wire_pointer_at(old(arena)@[segment as int], reff as int).spec_is_null(),
        ),
        forall|n: int|
            n > 0 && size.data + size.pointers > 0 ==> #[trigger] spec_read_struct_pointer(
                final(arena)@,
                segment as int,
                Some(reff),
                n,
            ) == Ok::<StructReader, crate::reader::ReadError>(b.spec_as_reader(n - 1)),
        forall|n: int|
            n > 0 && size.data + size.pointers == 0 ==> (#[trigger] spec_read_struct_pointer(
                final(arena)@,
                segment as int,
                Some(reff),
                n,
            ) matches Ok(e) && e.data_size == 0 && e.pointer_count == 0),
        ({
            let p = wire_pointer_at(final(arena)@[segment as int], reff as int);
            spec_follow_fars(final(arena)@, p, p.spec_target(reff as int), segment as int) matches Ok(
                (tag, ts, t),
            ) && {
                &&& ts == b.segment && t == b.data
                &&& tag.spec_kind() == WirePointerKind::WP_STRUCT
                &&& tag.upper32bits == size.data + 0x1_0000 * size.pointers
                &&& b.data + 8 * (size.data + size.pointers) == 8 * final(arena).used@[ts]
                &&& allocated_words(
                    old(arena).used@,
                    final(arena).used@,
                    segment as int,
                    ts,
                    (size.data + size.pointers) as nat,
                )
            }
        }),
{
    let ghost a0 = *arena;
    let total = size.total();
    let upper = size.data as u32 + 0x1_0000 * (size.pointers as u32);
    proof {
        reveal(room_for);
    }
    let (ptr, s, r) = allocate_object(arena, reff, segment, total, WirePointerKind::WP_STRUCT, upper);
    let b = StructBuilder {
        segment: s,
        data: ptr,
        pointers: ptr + 8 * size.data as usize,
        data_size: size.data as u32 * 64,
        pointer_count: size.pointers,
        bit0offset: 0,
    };
    proof {
        let segs = arena@;
        assert(segment_wf(a0@[segment as int], a0.used@[segment as int] as nat));
        assert(segs[segment as int].len() == a0@[segment as int].len());
        assert(b.wf(*arena));
        let tag = wire_pointer_at(segs[s as int], r as int);
        assert(tag.spec_struct_ref() == (StructRef { data_size: size.data, ptr_count: size.pointers }));
        lemma_lands_at_follow(segs, segment as int, reff as int, s as int, r as int);
        lemma_read_initialized_struct(segs, segment as int, reff as int, s as int, r as int, b, size);
    }
    b
}

/// Zeroing outside two pointers composes with zeroing outside the same two
/// pointers.
pub proof fn lemma_zeroed_except_trans(
    a: Seq<Seq<u8>>,
    b: Seq<Seq<u8>>,
    c: Seq<Seq<u8>>,
    s0: int,
    p0: int,
    s1: int,
    p1: int,
)
    requires
        zeroed_except(a, b, s0, p0, s1, p1),
        zeroed_except(b, c, s1, p1, s1, p1),
    ensures
        zeroed_except(a, c, s0, p0, s1, p1),
{
    assert forall|i: int| 0 <= i < a.len() implies #[trigger] c[i].len() == a[i].len() by {
        assert(b[i].len() == a[i].len());
    }
    assert forall|i: int, j: int|
        0 <= i < a.len() && 0 <= j < a[i].len() && !(i == s0 && p0 <= j < p0 + 8) && !(i == s1
            && p1 <= j < p1 + 8) implies #[trigger] c[i][j] == a[i][j] || c[i][j] == 0 by {
        assert(b[i][j] == a[i][j] || b[i][j] == 0);
        assert(b[i].len() == a[i].len());
        assert(c[i][j] == b[i][j] || c[i][j] == 0);
    }
}

/// A struct pointer whose tag records `size` and targets `b.data` reads as the
/// struct that `b` builds.
pub proof fn lemma_read_initialized_struct(
    segs: Seq<Seq<u8>>,
    segment: int,
    reff: int,
    s: int,
    r: int,
    b: StructBuilder,
    size: StructSize,
)
    requires
        lands_at(segs, segment, reff, s, r),
        0 <= segment < segs.len(),
        0 <= s < segs.len(),
        0 <= reff,
        reff + 8 <= segs[segment].len(),
        0 <= r,
        r + 8 <= segs[s].len(),
        reff <= usize::MAX,
        b.segment == s,
        wire_pointer_at(segs[s], r).spec_kind() == WirePointerKind::WP_STRUCT,
        wire_pointer_at(segs[s], r).spec_target(r) == b.data,
        wire_pointer_at(segs[s], r).spec_struct_ref() == (StructRef {
            data_size: size.data,
            ptr_count: size.pointers,
        }),
        b.data + 8 * (size.data + size.pointers) <= segs[s].len(),
        b.data_size == size.data * 64,
        b.pointer_count == size.pointers,
        b.bit0offset == 0,
        b.pointers == b.data + 8 * size.data,
    ensures
        forall|n: int|
            n > 0 && size.data + size.pointers > 0 ==> #[trigger] spec_read_struct_pointer(
                segs,
                segment,
                Some(reff as usize),
                n,
            ) == Ok::<StructReader, crate::reader::ReadError>(b.spec_as_reader(n - 1)),
        forall|n: int|
            n > 0 && size.data + size.pointers == 0 ==> (#[trigger] spec_read_struct_pointer(
                segs,
                segment,
                Some(reff as usize),
                n,
            ) matches Ok(e) && e.data_size == 0 && e.pointer_count == 0),
{
    lemma_lands_at_follow(segs, segment, reff, s, r);
    let p = wire_pointer_at(segs[segment], reff);
    let tag = wire_pointer_at(segs[s], r);
    if s == segment && r == reff {
        assert(p == tag);
        if size.data + size.pointers > 0 {
            assert(tag.upper32bits != 0);
        }
    }
}


/// Whether the pointer at byte `p0` of segment `s0` still lands at the pointer
/// at `p1` of `s1` depends only on the bytes of the two pointers.
pub proof fn lemma_lands_at_frame(
    a: Seq<Seq<u8>>,
    b: Seq<Seq<u8>>,
    s0: int,
    p0: int,
    s1: int,
    p1: int,
)
    requires
        lands_at(a, s0, p0, s1, p1),
        0 <= s0 < a.len(),
        0 <= s1 < a.len(),
        a.len() <= b.len(),
        0 <= p0,
        p0 + 8 <= a[s0].len(),
        p0 + 8 <= b[s0].len(),
        0 <= p1,
        p1 + 8 <= a[s1].len(),
        p1 + 8 <= b[s1].len(),
        forall|j: int| p0 <= j < p0 + 8 ==> #[trigger] b[s0][j] == a[s0][j],
        forall|j: int| p1 <= j < p1 + 8 ==> #[trigger] b[s1][j] == a[s1][j],
    ensures
        lands_at(b, s0, p0, s1, p1),
        wire_pointer_at(b[s1], p1) == wire_pointer_at(a[s1], p1),
        wire_pointer_at(b[s0], p0) == wire_pointer_at(a[s0], p0),
{
    crate::le::lemma_read_le_same(a[s0], b[s0], p0, 4);
    crate::le::lemma_read_le_same(a[s0], b[s0], p0 + 4, 4);
    crate::le::lemma_read_le_same(a[s1], b[s1], p1, 4);
    crate::le::lemma_read_le_same(a[s1], b[s1], p1 + 4, 4);
}

/// Words needed for `count` elements of size `es` (not inline-composite).
pub open spec fn spec_list_words(count: nat, es: FieldSize) -> nat {
    (count * (spec_data_bits_per_element(es) + 64 * spec_pointers_per_element(es)) + 63) / 64
}


/// Allocates `amount` words for an object of the given kind and points the
/// pointer at byte `reff` of segment `segment` at them, with `upper` as the
/// pointer's upper half (see `allocate`). Returns the words' byte position
/// and the segment and byte position of the pointer that describes the
/// object (the overwritten pointer itself, or a landing pad).
#[verifier::rlimit(60)]
#[verifier::spinoff_prover]
fn allocate_object(
    arena: &mut BuilderArena,
    reff: usize,
    segment: usize,
    amount: usize,
    kind: WirePointerKind,
    upper: u32,
) -> (res: (usize, usize, usize))
    requires
        old(arena).wf(),
        old(arena)@.len() < 0xFFFF_FFFF,
        segment < old(arena)@.len(),
        reff % 8 == 0,
        reff + 8 <= 8 * old(arena).used@[segment as int],
        old_object_zeroable(old(arena)@, segment as int, reff as int),
        room_for(*old(arena), segment as int, amount as int),
        kind != WirePointerKind::WP_FAR,
    ensures
        ({
            let (ptr, s, r) = res;
            let tag = wire_pointer_at(final(arena)@[s as int], r as int);
            &&& final(arena).wf()
            &&& crate::arena::arena_grows(*old(arena), *final(arena))
            &&& final(arena)@.len() <= old(arena)@.len() + 1
            &&& s < final(arena)@.len()
            &&& r % 8 == 0
            &&& ptr % 8 == 0
            &&& r + 8 <= ptr
            &&& ptr + 8 * amount == 8 * final(arena).used@[s as int]
            &&& allocated_words(old(arena).used@, final(arena).used@, segment as int, s as int, amount as nat)
            &&& 8 * final(arena).used@[s as int] <= final(arena)@[s as int].len()
            &&& final(arena)@[s as int].len() < segment_byte_limit()
            &&& s >= old(arena)@.len() || ptr >= 8 * old(arena).used@[s as int]
            &&& forall|j: int|
                ptr <= j < ptr + 8 * amount ==> #[trigger] final(arena)@[s as int][j] == 0
            &&& tag.spec_kind() == kind
            &&& tag.spec_target(r as int) == ptr
            &&& tag.upper32bits == upper
            &&& lands_at(final(arena)@, segment as int, reff as int, s as int, r as int)
            &&& kept_but_old_object(*old(arena), final(arena)@, segment as int, reff as int)
            &&& old_object_cleared(*old(arena), final(arena)@, segment as int, reff as int)
            &&& segment as int != s as int || reff as int == r as int || reff + 8 <= r
            &&& allocated_preserved(
                *old(arena),
                final(arena)@,
                segment as int,
                reff as int,
                !wire_pointer_at(old(arena)@[segment as int], reff as int).spec_is_null(),
            )
        }),
{
    let ghost a0 = *arena;
    let mut r = reff;
    let mut s = segment;
    let ptr = allocate(arena, &mut r, &mut s, amount, kind);
    let ghost a1 = *arena;
    proof {
        assert(segment_wf(a1@[s as int], a1.used@[s as int] as nat));
        assert(segment_wf(a0@[segment as int], a0.used@[segment as int] as nat));
        assert(a1@[segment as int].len() == a0@[segment as int].len());
    }
    let mut tag = arena.read_pointer(s, r);
    tag.upper32bits = upper;
    arena.write_pointer(s, r, tag);
    proof {
        let segs = arena@;
        lemma_lands_at_write(a1@, segment as int, reff as int, s as int, r as int, tag);
        crate::wire::lemma_write_wire_pointer(a1@[s as int], r as int, tag);
        lemma_write_pointer_unchanged(a1@, s as int, r as int, tag);
        lemma_frame_after_allocation(a0, a1, *arena, segment as int, reff as int, s as int, r as int);
        assert forall|j: int| ptr <= j < ptr + 8 * amount implies #[trigger] segs[s as int][j] == 0 by {
            assert(a1@[s as int][j] == 0);
        }
        assert(segment_wf(segs[s as int], arena.used@[s as int] as nat));
        lemma_kept_write(a0, a1@, segs, segment as int, reff as int, s as int, r as int, r + 8);
        lemma_cleared_write(a0, a1@, segs, segment as int, reff as int, s as int, r as int, r + 8);
    }
    (ptr, s, r)
}

/// Allocates a list of `element_count` elements of size `element_size`, all
/// zero, for the pointer at byte `reff` of segment `segment`, and returns a
/// builder over it. Whatever the pointer pointed at before is zeroed first.
#[verifier::rlimit(60)]
#[verifier::spinoff_prover]
pub fn init_list_pointer(
    arena: &mut BuilderArena,
    reff: usize,
    segment: usize,
    element_count: usize,
    element_size: FieldSize,
) -> (l: ListBuilder)
    requires
        old(arena).wf(),
        old(arena)@.len() < 0xFFFF_FFFF,
        segment < old(arena)@.len(),
        reff % 8 == 0,
        reff + 8 <= 8 * old(arena).used@[segment as int],
        old_object_zeroable(old(arena)@, segment as int, reff as int),
        element_size != FieldSize::INLINE_COMPOSITE,
        element_count < 0x2000_0000,
        room_for(*old(arena), segment as int, spec_list_words(element_count as nat, element_size) as int),
    ensures
        final(arena).wf(),
        crate::arena::arena_grows(*old(arena), *final(arena)),
        final(arena)@.len() <= old(arena)@.len() + 1,
        kept_but_old_object(*old(arena), final(arena)@, segment as int, reff as int),
        old_object_cleared(*old(arena), final(arena)@, segment as int, reff as int),
        l.wf(*final(arena)),
        l.element_count == element_count,
        l.step == spec_data_bits_per_element(element_size) + 64 * spec_pointers_per_element(
            element_size,
        ),
        l.struct_data_size == spec_data_bits_per_element(element_size),
        l.struct_pointer_count == spec_pointers_per_element(element_size),
        l.ptr % 8 == 0,
        forall|j: int|
            l.ptr <= j < l.ptr + 8 * spec_list_words(element_count as nat, element_size)
                ==> #[trigger] final(arena)@[l.segment as int][j] == 0,
        allocated_preserved(
            *old(arena),
            final(arena)@,
            segment as int,
            reff as int,
            !wire_pointer_at(old(arena)@[segment as int], reff as int).spec_is_null(),
        ),
        forall|n: int|
            n > 0 && (element_count > 0 || element_size != FieldSize::VOID)
                ==> #[trigger] spec_read_list_pointer(
                final(arena)@,
                segment as int,
                Some(reff),
                element_size,
                n,
            ) == Ok::<crate::reader::ListReader, crate::reader::ReadError>(l.spec_as_reader(n - 1)),
        forall|n: int|
            n > 0 && element_count == 0 && element_size == FieldSize::VOID
                ==> (#[trigger] spec_read_list_pointer(
                final(arena)@,
                segment as int,
                Some(reff),
                element_size,
                n,
            ) matches Ok(e) && e.element_count == 0),
        ({
            let p = wire_pointer_at(final(arena)@[segment as int], reff as int);
            let words = spec_list_words(element_count as nat, element_size);
            spec_follow_fars(final(arena)@, p, p.spec_target(reff as int), segment as int) matches Ok(
                (tag, ts, t),
            ) && {
                &&& ts == l.segment && t == l.ptr
                &&& tag.spec_kind() == WirePointerKind::WP_LIST
                &&& tag.upper32bits == 8 * element_count + element_size.code()
                &&& l.ptr + 8 * words == 8 * final(arena).used@[ts]
                &&& allocated_words(
                    old(arena).used@,
                    final(arena).used@,
                    segment as int,
                    ts,
                    words,
                )
            }
        }),
{
    let ghost a0 = *arena;
    let data_size = data_bits_per_element(element_size);
    let pointer_count = pointers_per_element(element_size);
    let step = data_size + pointer_count * 64;
    assert(element_count as u64 * step as u64 <= 0x2000_0000 * 64) by (nonlinear_arith)
        requires
            element_count < 0x2000_0000,
            step <= 64,
    ;
    let word_count = round_bits_up_to_words(element_count as u64 * step as u64);
    let mut lr = crate::wire::ListRef { element_size_and_count: 0 };
    lr.set(element_size, element_count);
    let (ptr, s, r) = allocate_object(arena, reff, segment, word_count, WirePointerKind::WP_LIST, lr.element_size_and_count);
    let l = ListBuilder {
        segment: s,
        ptr: ptr,
        element_count: element_count,
        step: step,
        struct_data_size: data_size as u32,
        struct_pointer_count: pointer_count as u16,
    };
    proof {
        let segs = arena@;
        assert(segment_wf(a0@[segment as int], a0.used@[segment as int] as nat));
        assert(segs[segment as int].len() == a0@[segment as int].len());
        if element_count > 0 {
            assert((element_count - 1) * step + step == element_count * step) by (nonlinear_arith);
            assert(element_count * step <= 64 * ((element_count * step + 63) / 64)) by (nonlinear_arith)
                requires element_count * step >= 0;
        }
        lemma_lands_at_follow(segs, segment as int, reff as int, s as int, r as int);
        let p = wire_pointer_at(segs[segment as int], reff as int);
        let tag = wire_pointer_at(segs[s as int], r as int);
        if s == segment && r == reff {
            assert(p == tag);
        }
    }
    l
}

/// Allocates a list of `element_count` structs of size `element_size`, all
/// zero, for the pointer at byte `reff` of segment `segment`, and returns a
/// builder over it. Structs whose preferred list encoding is not
/// inline-composite get a list of that encoding; the others an
/// inline-composite list: a tag word describing the structs, then the structs.
#[verifier::rlimit(80)]
#[verifier::spinoff_prover]
pub fn init_struct_list_pointer(
    arena: &mut BuilderArena,
    reff: usize,
    segment: usize,
    element_count: usize,
    element_size: StructSize,
) -> (l: ListBuilder)
    requires
        old(arena).wf(),
        old(arena)@.len() < 0xFFFF_FFFF,
        segment < old(arena)@.len(),
        reff % 8 == 0,
        reff + 8 <= 8 * old(arena).used@[segment as int],
        old_object_zeroable(old(arena)@, segment as int, reff as int),
        element_size.preferred_list_encoding != FieldSize::INLINE_COMPOSITE ==> {
            let words = spec_list_words(element_count as nat, element_size.preferred_list_encoding);
            &&& element_count < 0x2000_0000
            &&& room_for(*old(arena), segment as int, words as int)
        },
        element_size.preferred_list_encoding == FieldSize::INLINE_COMPOSITE ==> {
            let wc = element_count * (element_size.data + element_size.pointers);
            &&& wc + 1 < SEGMENT_WORD_LIMIT
            &&& room_for(*old(arena), segment as int, wc + 1)
        },
    ensures
        final(arena).wf(),
        crate::arena::arena_grows(*old(arena), *final(arena)),
        final(arena)@.len() <= old(arena)@.len() + 1,
        kept_but_old_object(*old(arena), final(arena)@, segment as int, reff as int),
        old_object_cleared(*old(arena), final(arena)@, segment as int, reff as int),
        l.wf(*final(arena)),
        l.element_count == element_count,
        allocated_preserved(
            *old(arena),
            final(arena)@,
            segment as int,
            reff as int,
            !wire_pointer_at(old(arena)@[segment as int], reff as int).spec_is_null(),
        ),
        element_size.preferred_list_encoding != FieldSize::INLINE_COMPOSITE ==> forall|n: int|
            n > 0 && (element_count > 0 || element_size.preferred_list_encoding != FieldSize::VOID)
                ==> #[trigger] spec_read_list_pointer(
                final(arena)@,
                segment as int,
                Some(reff),
                element_size.preferred_list_encoding,
                n,
            ) == Ok::<crate::reader::ListReader, crate::reader::ReadError>(l.spec_as_reader(n - 1)),
        element_size.preferred_list_encoding == FieldSize::VOID && element_count == 0 ==> forall|
            n: int,
        |
            n > 0 ==> (#[trigger] spec_read_list_pointer(
                final(arena)@,
                segment as int,
                Some(reff),
                FieldSize::VOID,
                n,
            ) matches Ok(e) && e.element_count == 0),
        element_size.preferred_list_encoding != FieldSize::INLINE_COMPOSITE ==> {
            let es = element_size.preferred_list_encoding;
            &&& l.step == spec_data_bits_per_element(es) + 64 * spec_pointers_per_element(es)
            &&& l.struct_data_size == spec_data_bits_per_element(es)
            &&& l.struct_pointer_count == spec_pointers_per_element(es)
        },
        element_size.preferred_list_encoding == FieldSize::INLINE_COMPOSITE ==> {
            &&& l.step == 64 * (element_size.data + element_size.pointers)
            &&& l.struct_data_size == 64 * element_size.data
            &&& l.struct_pointer_count == element_size.pointers
            &&& forall|j: int|
                l.ptr <= j < l.ptr + 8 * element_count * (element_size.data + element_size.pointers)
                    ==> #[trigger] final(arena)@[l.segment as int][j] == 0
            &&& element_count < 0x4000_0000 ==> forall|n: int|
                n > 0 ==> #[trigger] spec_read_list_pointer(
                    final(arena)@,
                    segment as int,
                    Some(reff),
                    FieldSize::INLINE_COMPOSITE,
                    n,
                ) == Ok::<crate::reader::ListReader, crate::reader::ReadError>(
                    l.spec_as_reader(n - 1),
                )
        },
        element_size.preferred_list_encoding != FieldSize::INLINE_COMPOSITE ==> ({
            let p = wire_pointer_at(final(arena)@[segment as int], reff as int);
            let es = element_size.preferred_list_encoding;
            let words = spec_list_words(element_count as nat, es);
            spec_follow_fars(final(arena)@, p, p.spec_target(reff as int), segment as int) matches Ok(
                (tag, ts, t),
            ) && {
                &&& ts == l.segment && t == l.ptr
                &&& tag.spec_kind() == WirePointerKind::WP_LIST
                &&& tag.upper32bits == 8 * element_count + es.code()
                &&& l.ptr + 8 * words == 8 * final(arena).used@[ts]
                &&& allocated_words(
                    old(arena).used@,
                    final(arena).used@,
                    segment as int,
                    ts,
                    words,
                )
            }
        }),
        element_size.preferred_list_encoding == FieldSize::INLINE_COMPOSITE ==> ({
            let p = wire_pointer_at(final(arena)@[segment as int], reff as int);
            let wc = element_count * (element_size.data + element_size.pointers);
            spec_follow_fars(final(arena)@, p, p.spec_target(reff as int), segment as int) matches Ok(
                (tag, ts, t),
            ) && {
                let etag = wire_pointer_at(final(arena)@[ts], t);
                &&& ts == l.segment && t + 8 == l.ptr
                &&& tag.spec_kind() == WirePointerKind::WP_LIST
                &&& tag.upper32bits == 8 * wc + 7
                &&& etag.offset_and_kind == (element_count % 0x4000_0000) * 4
                &&& etag.spec_struct_ref() == (StructRef {
                    data_size: element_size.data,
                    ptr_count: element_size.pointers,
                })
                &&& t + 8 + 8 * wc == 8 * final(arena).used@[ts]
                &&& allocated_words(
                    old(arena).used@,
                    final(arena).used@,
                    segment as int,
                    ts,
                    (1 + wc) as nat,
                )
            }
        }),
{
    match element_size.preferred_list_encoding {
        FieldSize::INLINE_COMPOSITE => {},
        other_encoding => {
            return init_list_pointer(arena, reff, segment, element_count, other_encoding);
        },
    }
    init_inline_composite_list(arena, reff, segment, element_count, element_size)
}

/// Writing bytes that were not allocated before keeps what was allocated.
pub proof fn lemma_preserved_fresh_write(
    a0: BuilderArena,
    x: Seq<Seq<u8>>,
    y: Seq<Seq<u8>>,
    s0: int,
    p0: int,
    zeroing: bool,
    s: int,
    lo: int,
    hi: int,
)
    requires
        a0.wf(),
        allocated_preserved(a0, x, s0, p0, zeroing),
        a0@.len() <= x.len(),
        forall|i: int| 0 <= i < a0@.len() ==> #[trigger] x[i].len() == a0@[i].len(),
        y.len() == x.len(),
        forall|i: int| 0 <= i < x.len() && i != s ==> #[trigger] y[i] == x[i],
        0 <= s < x.len(),
        y[s].len() == x[s].len(),
        forall|j: int| 0 <= j < x[s].len() && !(lo <= j < hi) ==> #[trigger] y[s][j] == x[s][j],
        s >= a0@.len() || lo >= 8 * a0.used@[s],
    ensures
        allocated_preserved(a0, y, s0, p0, zeroing),
{
    assert forall|i: int, j: int|
        0 <= i < a0@.len() && 0 <= j < 8 * a0.used@[i] && !(i == s0 && p0 <= j < p0 + 8)
            implies #[trigger] y[i][j] == a0@[i][j] || (zeroing && y[i][j] == 0) by {
        assert(x[i][j] == a0@[i][j] || (zeroing && x[i][j] == 0));
        if i == s {
            assert(segment_wf(a0@[i], a0.used@[i] as nat));
            assert(j < x[s].len() || j >= x[s].len());
            if j < x[s].len() {
                assert(y[s][j] == x[s][j]);
            }
        }
    }
}

/// The part of `init_struct_list_pointer` for an inline-composite list.
#[verifier::rlimit(100)]
#[verifier::spinoff_prover]
fn init_inline_composite_list(
    arena: &mut BuilderArena,
    reff: usize,
    segment: usize,
    element_count: usize,
    element_size: StructSize,
) -> (l: ListBuilder)
    requires
        old(arena).wf(),
        old(arena)@.len() < 0xFFFF_FFFF,
        segment < old(arena)@.len(),
        reff % 8 == 0,
        reff + 8 <= 8 * old(arena).used@[segment as int],
        old_object_zeroable(old(arena)@, segment as int, reff as int),
        element_count * (element_size.data + element_size.pointers) + 1 < SEGMENT_WORD_LIMIT,
        room_for(*old(arena), segment as int, element_count * (element_size.data + element_size.pointers) + 1),
    ensures
        final(arena).wf(),
        crate::arena::arena_grows(*old(arena), *final(arena)),
        final(arena)@.len() <= old(arena)@.len() + 1,
        kept_but_old_object(*old(arena), final(arena)@, segment as int, reff as int),
        old_object_cleared(*old(arena), final(arena)@, segment as int, reff as int),
        l.wf(*final(arena)),
        l.element_count == element_count,
        allocated_preserved(
            *old(arena),
            final(arena)@,
            segment as int,
            reff as int,
            !wire_pointer_at(old(arena)@[segment as int], reff as int).spec_is_null(),
        ),
        l.step == 64 * (element_size.data + element_size.pointers),
        l.struct_data_size == 64 * element_size.data,
        l.struct_pointer_count == element_size.pointers,
        forall|j: int|
            l.ptr <= j < l.ptr + 8 * element_count * (element_size.data + element_size.pointers)
                ==> #[trigger] final(arena)@[l.segment as int][j] == 0,
        element_count < 0x4000_0000 ==> forall|n: int|
            n > 0 ==> #[trigger] spec_read_list_pointer(
                final(arena)@,
                segment as int,
                Some(reff),
                FieldSize::INLINE_COMPOSITE,
                n,
            ) == Ok::<crate::reader::ListReader, crate::reader::ReadError>(l.spec_as_reader(n - 1)),
        ({
            let p = wire_pointer_at(final(arena)@[segment as int], reff as int);
            let wc = element_count * (element_size.data + element_size.pointers);
            spec_follow_fars(final(arena)@, p, p.spec_target(reff as int), segment as int) matches Ok(
                (tag, ts, t),
            ) && {
                let etag = wire_pointer_at(final(arena)@[ts], t);
                &&& ts == l.segment && t + 8 == l.ptr
                &&& tag.spec_kind() == WirePointerKind::WP_LIST
                &&& tag.upper32bits == 8 * wc + 7
                &&& etag.offset_and_kind == (element_count % 0x4000_0000) * 4
                &&& etag.spec_struct_ref() == (StructRef {
                    data_size: element_size.data,
                    ptr_count: element_size.pointers,
                })
                &&& t + 8 + 8 * wc == 8 * final(arena).used@[ts]
                &&& allocated_words(
                    old(arena).used@,
                    final(arena).used@,
                    segment as int,
                    ts,
                    (1 + wc) as nat,
                )
            }
        }),
{
    let ghost a0 = *arena;
    let words_per_element = element_size.total();
    let word_count = element_count * words_per_element;
    let mut lr = crate::wire::ListRef { element_size_and_count: 0 };
    lr.set_inline_composite(word_count);
    let (ptr, s, r) = allocate_object(
        arena,
        reff,
        segment,
        1 + word_count,
        WirePointerKind::WP_LIST,
        lr.element_size_and_count,
    );
    let ghost a2 = *arena;
    proof {
        assert(segment_wf(a0@[segment as int], a0.used@[segment as int] as nat));
        assert(a2@[segment as int].len() == a0@[segment as int].len());
    }
    let mut etag = arena.read_pointer(s, ptr);
    etag.set_kind_and_inline_composite_list_element_count(WirePointerKind::WP_STRUCT, element_count);
    let mut sr = etag.struct_ref();
    sr.set(element_size);
    etag.set_struct_ref(sr);
    arena.write_pointer(s, ptr, etag);
    let l = ListBuilder {
        segment: s,
        ptr: ptr + 8,
        element_count: element_count,
        step: words_per_element * 64,
        struct_data_size: element_size.data as u32 * 64,
        struct_pointer_count: element_size.pointers,
    };
    proof {
        let segs = arena@;
        crate::wire::lemma_write_wire_pointer(a2@[s as int], ptr as int, etag);
        lemma_lands_at_frame(a2@, segs, segment as int, reff as int, s as int, r as int);
        assert(8 * element_count * (element_size.data + element_size.pointers) == 8 * word_count) by (nonlinear_arith)
            requires word_count == element_count * words_per_element, words_per_element == element_size.data + element_size.pointers;
        if element_count > 0 {
            assert((element_count - 1) * (words_per_element * 64) + 64 * words_per_element
                == 64 * (element_count * words_per_element)) by (nonlinear_arith);
        }
        assert forall|j: int|
            l.ptr <= j < l.ptr + 8 * element_count * (element_size.data + element_size.pointers) implies #[trigger] segs[
            l.segment as int][j] == 0 by {
            assert(a2@[s as int][j] == 0);
        }
        assert(kept_but_old_object(a0, segs, segment as int, reff as int)) by {
            lemma_kept_write(a0, a2@, segs, segment as int, reff as int, s as int, ptr as int, ptr + 8);
        }
        assert(old_object_cleared(a0, segs, segment as int, reff as int)) by {
            lemma_cleared_write(a0, a2@, segs, segment as int, reff as int, s as int, ptr as int,
                ptr + 8);
        }
        let nonnull = !wire_pointer_at(a0@[segment as int], reff as int).spec_is_null();
        assert(allocated_preserved(a0, segs, segment as int, reff as int, nonnull)) by {
            lemma_preserved_fresh_write(a0, a2@, segs, segment as int, reff as int, nonnull,
                s as int, ptr as int, ptr + 8);
        }
        if element_count < 0x4000_0000 {
            lemma_read_initialized_composite(segs, segment as int, reff as int, s as int, r as int,
                ptr as int, l, element_size);
        }
    }
    l
}

/// After an allocation and a write of the tag it lands at, what was
/// allocated before kept its value (or was zeroed, where the overwritten
/// pointer was not null).
pub proof fn lemma_frame_after_allocation(
    a0: BuilderArena,
    a1: BuilderArena,
    a2: BuilderArena,
    segment: int,
    reff: int,
    s: int,
    r: int,
)
    requires
        a0.wf(),
        zeroed_except(a0@, a1@, segment, reff, s, r),
        wire_pointer_at(a0@[segment], reff).spec_is_null() ==> unchanged_except(
            a0@,
            a1@,
            segment,
            reff,
            s,
            r,
        ),
        unchanged_except(a1@, a2@, s, r, s, r),
        (s == segment && r == reff) || s >= a0@.len() || r >= 8 * a0.used@[s],
    ensures
        allocated_preserved(
            a0,
            a2@,
            segment,
            reff,
            !wire_pointer_at(a0@[segment], reff).spec_is_null(),
        ),
        forall|i: int| 0 <= i < a0@.len() ==> #[trigger] a2@[i].len() == a0@[i].len(),
        a2@.len() >= a0@.len(),
{
    if wire_pointer_at(a0@[segment], reff).spec_is_null() {
        lemma_unchanged_except_trans(a0@, a1@, a2@, segment, reff, s, r);
        lemma_allocation_frame_null(a0, a2, segment, reff, s, r);
    } else {
        lemma_arena_only_zeroed_refl(a1@);
        lemma_zeroed_then_unchanged(a1@, a1@, a2@, s, r, s, r);
        lemma_zeroed_except_trans(a0@, a1@, a2@, segment, reff, s, r);
        lemma_allocation_frame(a0, a2, segment, reff, s, r);
    }
}

/// An inline-composite list pointer whose tag records the word count and
/// whose element tag records `element_size` and the element count reads as
/// the list that `l` builds.
pub proof fn lemma_read_initialized_composite(
    segs: Seq<Seq<u8>>,
    segment: int,
    reff: int,
    s: int,
    r: int,
    ptr: int,
    l: ListBuilder,
    element_size: StructSize,
)
    requires
        lands_at(segs, segment, reff, s, r),
        0 <= segment < segs.len(),
        0 <= s < segs.len(),
        0 <= reff,
        reff + 8 <= segs[segment].len(),
        reff <= usize::MAX,
        0 <= r,
        r + 8 <= segs[s].len(),
        0 <= ptr,
        l.segment == s,
        l.ptr == ptr + 8,
        l.element_count < 0x4000_0000,
        l.step == 64 * (element_size.data + element_size.pointers),
        l.struct_data_size == 64 * element_size.data,
        l.struct_pointer_count == element_size.pointers,
        ({
            let tag = wire_pointer_at(segs[s], r);
            &&& tag.spec_kind() == WirePointerKind::WP_LIST
            &&& tag.spec_target(r) == ptr
            &&& tag.spec_list_ref().spec_element_size() == FieldSize::INLINE_COMPOSITE
            &&& tag.spec_list_ref().spec_element_count() == l.element_count * (element_size.data
                + element_size.pointers)
        }),
        ({
            let etag = wire_pointer_at(segs[s], ptr);
            &&& etag.spec_kind() == WirePointerKind::WP_STRUCT
            &&& etag.offset_words() == l.element_count
            &&& etag.spec_struct_ref() == (StructRef {
                data_size: element_size.data,
                ptr_count: element_size.pointers,
            })
        }),
        ptr + 8 + 8 * l.element_count * (element_size.data + element_size.pointers) <= segs[s].len(),
    ensures
        forall|n: int|
            n > 0 ==> #[trigger] spec_read_list_pointer(
                segs,
                segment,
                Some(reff as usize),
                FieldSize::INLINE_COMPOSITE,
                n,
            ) == Ok::<crate::reader::ListReader, crate::reader::ReadError>(l.spec_as_reader(n - 1)),
{
    lemma_lands_at_follow(segs, segment, reff, s, r);
    let p = wire_pointer_at(segs[segment], reff);
    let tag = wire_pointer_at(segs[s], r);
    if s == segment && r == reff {
        assert(p == tag);
        assert(tag.upper32bits != 0);
    }
    assert(8 * l.element_count * (element_size.data + element_size.pointers) == 8 * (
    l.element_count * (element_size.data + element_size.pointers))) by (nonlinear_arith);
}

/// Copies `bytes` to byte `ptr` of segment `s`, within its allocated part.
fn copy_bytes_to(arena: &mut BuilderArena, s: usize, ptr: usize, bytes: &[u8])
    requires
        old(arena).wf(),
        s < old(arena)@.len(),
        ptr + bytes@.len() <= 8 * old(arena).used@[s as int],
    ensures
        final(arena).wf(),
        final(arena).used@ == old(arena).used@,
        final(arena).segment_words == old(arena).segment_words,
        final(arena)@.len() == old(arena)@.len(),
        forall|i: int| 0 <= i < old(arena)@.len() && i != s ==> #[trigger] final(arena)@[i] == old(
            arena,
        )@[i],
        final(arena)@[s as int].len() == old(arena)@[s as int].len(),
        forall|j: int|
            0 <= j < old(arena)@[s as int].len() ==> #[trigger] final(arena)@[s as int][j] == if ptr
                <= j < ptr + bytes@.len() {
                bytes@[j - ptr]
            } else {
                old(arena)@[s as int][j]
            },
{
    let ghost a0 = *arena;
    proof {
        assert(segment_wf(a0@[s as int], a0.used@[s as int] as nat));
    }
    let mut i: usize = 0;
    while i < bytes.len()
        invariant
            arena.wf(),
            arena.used@ == a0.used@,
            arena.segment_words == a0.segment_words,
            arena@.len() == a0@.len(),
            s < a0@.len(),
            ptr + bytes@.len() <= 8 * a0.used@[s as int],
            8 * a0.used@[s as int] <= a0@[s as int].len(),
            a0@[s as int].len() < segment_byte_limit(),
            forall|k: int| 0 <= k < a0@.len() && k != s ==> #[trigger] arena@[k] == a0@[k],
            arena@[s as int].len() == a0@[s as int].len(),
            forall|j: int|
                0 <= j < a0@[s as int].len() ==> #[trigger] arena@[s as int][j] == if ptr <= j < ptr
                    + i {
                    bytes@[j - ptr]
                } else {
                    a0@[s as int][j]
                },
            i <= bytes@.len(),
        decreases bytes@.len() - i,
    {
        arena.store_byte(s, ptr + i, bytes[i]);
        i = i + 1;
    }
}

/// Allocates a byte list for `value` followed by a NUL byte, for the pointer
/// at byte `reff` of segment `segment`, and copies the text into it. Whatever
/// the pointer pointed at before is zeroed first.
#[verifier::rlimit(60)]
#[verifier::spinoff_prover]
pub fn set_text_pointer(arena: &mut BuilderArena, reff: usize, segment: usize, value: &str)
    requires
        old(arena).wf(),
        old(arena)@.len() < 0xFFFF_FFFF,
        segment < old(arena)@.len(),
        reff % 8 == 0,
        reff + 8 <= 8 * old(arena).used@[segment as int],
        old_object_zeroable(old(arena)@, segment as int, reff as int),
        value.spec_bytes().len() + 1 < 0x2000_0000,
    ensures
        final(arena).wf(),
        crate::arena::arena_grows(*old(arena), *final(arena)),
        final(arena)@.len() <= old(arena)@.len() + 1,
        kept_but_old_object(*old(arena), final(arena)@, segment as int, reff as int),
        old_object_cleared(*old(arena), final(arena)@, segment as int, reff as int),
        allocated_preserved(
            *old(arena),
            final(arena)@,
            segment as int,
            reff as int,
            !wire_pointer_at(old(arena)@[segment as int], reff as int).spec_is_null(),
        ),
        forall|d: Seq<u8>|
            #[trigger] spec_read_text_pointer(final(arena)@, segment as int, Some(reff), d) == Ok::<
                Seq<u8>,
                crate::reader::ReadError,
            >(take_until_nul(value.spec_bytes().push(0))),
        ({
            let p = wire_pointer_at(final(arena)@[segment as int], reff as int);
            let n = value.spec_bytes().len();
            let words = (n + 1 + 7) / 8;
            spec_follow_fars(final(arena)@, p, p.spec_target(reff as int), segment as int) matches Ok(
                (tag, ts, t),
            ) && {
                &&& tag.spec_kind() == WirePointerKind::WP_LIST
                &&& tag.upper32bits == 8 * (n + 1) + 2
                &&& final(arena)@[ts].subrange(t, t + n + 1) == value.spec_bytes().push(0)
                &&& forall|j: int| t + n + 1 <= j < t + 8 * words ==> #[trigger] final(arena)@[ts][j]
                    == 0
                &&& t + 8 * words == 8 * final(arena).used@[ts]
                &&& allocated_words(
                    old(arena).used@,
                    final(arena).used@,
                    segment as int,
                    ts,
                    words as nat,
                )
            }
        }),
{
    let ghost a0 = *arena;
    let bytes = value.as_bytes();
    let byte_size = bytes.len() + 1;
    let words = round_bytes_up_to_words(byte_size);
    let mut lr = crate::wire::ListRef { element_size_and_count: 0 };
    lr.set(FieldSize::BYTE, byte_size);
    proof {
        reveal(room_for);
    }
    let (ptr, s, r) = allocate_object(arena, reff, segment, words, WirePointerKind::WP_LIST, lr.element_size_and_count);
    let ghost a2 = *arena;
    proof {
        assert(segment_wf(a0@[segment as int], a0.used@[segment as int] as nat));
        assert(a2@[segment as int].len() == a0@[segment as int].len());
    }
    copy_bytes_to(arena, s, ptr, bytes);
    let ghost a3 = *arena;
    arena.store_byte(s, ptr + bytes.len(), 0);
    proof {
        let segs = arena@;
        let text = value.spec_bytes().push(0);
        lemma_preserved_fresh_write(a0, a2@, segs, segment as int, reff as int,
            !wire_pointer_at(a0@[segment as int], reff as int).spec_is_null(), s as int, ptr as int,
            ptr + byte_size);
        lemma_lands_at_frame(a2@, segs, segment as int, reff as int, s as int, r as int);
        lemma_lands_at_follow(segs, segment as int, reff as int, s as int, r as int);
        assert(segs[s as int].subrange(ptr as int, ptr + byte_size) =~= text);
        assert forall|j: int| ptr + byte_size <= j < ptr + 8 * words implies #[trigger] segs[
            s as int][j] == 0 by {
            assert(a2@[s as int][j] == 0);
        }
        let p = wire_pointer_at(segs[segment as int], reff as int);
        let tag = wire_pointer_at(segs[s as int], r as int);
        if s == segment && r == reff {
            assert(p == tag);
        }
        assert(!p.spec_is_null());
        assert forall|i: int, j: int|
            0 <= i < a0@.len() && 0 <= j < 8 * a0.used@[i] && !(i == segment && reff <= j < reff + 8)
                implies #[trigger] segs[i][j] == a2@[i][j] by {
            if i == s {
                assert(j < ptr);
            }
        }
        lemma_cleared_kept(a0, a2@, segs, segment as int, reff as int);
    }
}

} // verus!
