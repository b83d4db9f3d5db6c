//! The segments of a message, as a reader sees them and as a builder fills
//! them.
use vstd::prelude::*;
use crate::le::{read_le, write_le, load_le, store_le, lemma_write_le};
use crate::wire::{WirePointer, wire_pointer_at, write_wire_pointer, lemma_write_wire_pointer};

verus! {

/// The largest segment, in words: a far pointer addresses a word of a
/// segment with 29 bits.
pub const SEGMENT_WORD_LIMIT: usize = 0x2000_0000;

/// A bound on the size of a segment, in bytes: every segment is shorter.
pub open spec fn segment_byte_limit() -> nat {
    8 * 0x2000_0000
}

/// The segments of a message, each a sequence of bytes.
pub struct ReaderArena {
    pub segments: Vec<Vec<u8>>,
}

impl View for ReaderArena {
    type V = Seq<Seq<u8>>;

    open spec fn view(&self) -> Seq<Seq<u8>> {
        self.segments@.map_values(|s: Vec<u8>| s@)
    }
}

/// Every segment is within the size that the wire format can address.
pub open spec fn segments_wf(segs: Seq<Seq<u8>>) -> bool {
    forall|i: int| 0 <= i < segs.len() ==> #[trigger] segs[i].len() < segment_byte_limit()
}

impl ReaderArena {
    pub open spec fn wf(&self) -> bool {
        segments_wf(self@)
    }

    /// Takes the segments of a message; `None` when one of them is larger
    /// than the wire format can address.
    pub fn new(segments: Vec<Vec<u8>>) -> (r: Option<ReaderArena>)
        ensures
            r is Some <==> segments_wf(segments@.map_values(|s: Vec<u8>| s@)),
            r matches Some(a) ==> a@ == segments@.map_values(|s: Vec<u8>| s@) && a.wf(),
    {
        let ghost view = segments@.map_values(|s: Vec<u8>| s@);
        let mut i: usize = 0;
        while i < segments.len()
            invariant
                i <= segments@.len(),
                view == segments@.map_values(|s: Vec<u8>| s@),
                forall|j: int| 0 <= j < i ==> #[trigger] view[j].len() < segment_byte_limit(),
            decreases segments@.len() - i,
        {
            if segments[i].len() / 8 >= SEGMENT_WORD_LIMIT {
                assert(view[i as int].len() >= segment_byte_limit());
                return None;
            }
            i = i + 1;
        }
        Some(ReaderArena { segments })
    }

    /// The number of segments.
    pub fn segment_count(&self) -> (n: usize)
        ensures
            n == self@.len(),
    {
        self.segments.len()
    }
}

/// The segments of a message under construction. Each segment has a fixed
/// capacity, a multiple of the word size; its first `used` words are
/// allocated, and every byte past them is zero.
pub struct BuilderArena {
    pub reader: ReaderArena,
    pub used: Vec<usize>,
    pub segment_words: usize,
}

impl View for BuilderArena {
    type V = Seq<Seq<u8>>;

    open spec fn view(&self) -> Seq<Seq<u8>> {
        self.reader@
    }
}

/// A segment of `cap` words of which the first `used` are allocated and the
/// rest is zero.
pub open spec fn segment_wf(s: Seq<u8>, used: nat) -> bool {
    &&& s.len() % 8 == 0
    &&& used * 8 <= s.len()
    &&& s.len() < segment_byte_limit()
    &&& forall|j: int| used * 8 <= j < s.len() ==> #[trigger] s[j] == 0
}

impl BuilderArena {
    pub open spec fn wf(&self) -> bool {
        &&& self@.len() == self.used@.len()
        &&& 1 <= self.segment_words < SEGMENT_WORD_LIMIT
        &&& forall|i: int|
            0 <= i < self@.len() ==> #[trigger] segment_wf(self@[i], self.used@[i] as nat)
    }

    /// The number of words segment `i` can hold.
    pub open spec fn capacity(&self, i: int) -> nat {
        self@[i].len() / 8
    }

    /// An arena with one empty segment of `segment_words` words; later
    /// segments hold at least that many.
    pub fn new(segment_words: usize) -> (a: BuilderArena)
        requires
            1 <= segment_words < SEGMENT_WORD_LIMIT,
        ensures
            a.wf(),
            a@.len() == 1,
            a.used@ == seq![0usize],
            a.capacity(0) == segment_words,
            a.segment_words == segment_words,
    {
        let seg = zeroed_segment(segment_words);
        let mut segments: Vec<Vec<u8>> = Vec::new();
        segments.push(seg);
        let mut used: Vec<usize> = Vec::new();
        used.push(0);
        let a = BuilderArena { reader: ReaderArena { segments }, used, segment_words };
        assert(a@[0] == seg@);
        a
    }

    /// The segments as a reader sees them.
    pub fn as_reader(&self) -> (r: &ReaderArena)
        requires
            self.wf(),
        ensures
            r@ == self@,
            r.wf(),
    {
        assert forall|i: int| 0 <= i < self@.len() implies #[trigger] self@[i].len()
            < segment_byte_limit() by {
            assert(segment_wf(self@[i], self.used@[i] as nat));
        }
        &self.reader
    }

    /// The number of segments.
    pub fn segment_count(&self) -> (n: usize)
        ensures
            n == self@.len(),
    {
        self.reader.segments.len()
    }

    /// Allocates `amount` words at the end of the allocated part of segment
    /// `segment`; returns their byte position, or `None` when the segment has
    /// no room for them.
    pub fn allocate(&mut self, segment: usize, amount: usize) -> (r: Option<usize>)
        requires
            old(self).wf(),
            segment < old(self)@.len(),
        ensures
            final(self).wf(),
            final(self)@ == old(self)@,
            final(self).segment_words == old(self).segment_words,
            old(self).used@[segment as int] + amount <= old(self).capacity(segment as int) ==> {
                &&& r == Some((old(self).used@[segment as int] * 8) as usize)
                &&& final(self).used@ == old(self).used@.update(
                    segment as int,
                    (old(self).used@[segment as int] + amount) as usize,
                )
            },
            old(self).used@[segment as int] + amount > old(self).capacity(segment as int) ==> {
                &&& r is None
                &&& final(self).used@ == old(self).used@
            },
    {
        assert(segment_wf(self@[segment as int], self.used@[segment as int] as nat));
        let cap = self.reader.segments[segment].len() / 8;
        let u = self.used[segment];
        if amount <= cap - u {
            self.used.set(segment, u + amount);
            assert forall|i: int| 0 <= i < self@.len() implies #[trigger] segment_wf(
                self@[i],
                self.used@[i] as nat,
            ) by {
                assert(segment_wf(old(self)@[i], old(self).used@[i] as nat));
            }
            Some(u * 8)
        } else {
            None
        }
    }

    /// Returns a segment with room for `amount` more words: the last one if it
    /// has room, else a new one of at least `segment_words` words.
    pub fn get_segment_with_available(&mut self, amount: usize) -> (s: usize)
        requires
            old(self).wf(),
            amount < SEGMENT_WORD_LIMIT,
            old(self)@.len() < 0xFFFF_FFFF,
        ensures
            final(self).wf(),
            final(self).segment_words == old(self).segment_words,
            s < final(self)@.len(),
            final(self)@.len() <= old(self)@.len() + 1,
            final(self).used@[s as int] + amount <= final(self).capacity(s as int),
            final(self)@.len() >= old(self)@.len(),
            forall|i: int| 0 <= i < old(self)@.len() ==> #[trigger] final(self)@[i] == old(self)@[i],
            final(self).used@.subrange(0, old(self)@.len() as int) == old(self).used@,
            ({
                let last = old(self)@.len() - 1;
                let reuse = old(self)@.len() > 0 && old(self).used@[last] + amount <= old(
                    self,
                ).capacity(last);
                &&& reuse ==> s == last && final(self)@ == old(self)@ && final(self).used@ == old(
                    self,
                ).used@
                &&& !reuse ==> {
                    &&& s == old(self)@.len()
                    &&& final(self)@.len() == old(self)@.len() + 1
                    &&& final(self).used@[s as int] == 0
                    &&& final(self).capacity(s as int) == if amount > old(self).segment_words {
                        amount as nat
                    } else {
                        old(self).segment_words as nat
                    }
                }
            }),
    {
        let n = self.reader.segments.len();
        if n > 0 {
            assert(segment_wf(self@[n - 1], self.used@[n - 1] as nat));
            let cap = self.reader.segments[n - 1].len() / 8;
            let u = self.used[n - 1];
            if amount <= cap - u {
                assert(self.used@.subrange(0, self@.len() as int) =~= self.used@);
                return n - 1;
            }
        }
        let words = if amount > self.segment_words {
            amount
        } else {
            self.segment_words
        };
        let seg = zeroed_segment(words);
        let ghost old_view = self@;
        let ghost old_used = self.used@;
        self.reader.segments.push(seg);
        self.used.push(0);
        assert(self@ =~= old_view.push(seg@));
        assert(self.used@.subrange(0, old_view.len() as int) =~= old_used);
        assert forall|i: int| 0 <= i < self@.len() implies #[trigger] segment_wf(
            self@[i],
            self.used@[i] as nat,
        ) by {
            if i < old_view.len() {
                assert(segment_wf(old_view[i], old_used[i] as nat));
            }
        }
        n
    }
}

/// A segment of `words` zero words.
fn zeroed_segment(words: usize) -> (s: Vec<u8>)
    requires
        words < SEGMENT_WORD_LIMIT,
    ensures
        s@.len() == words * 8,
        segment_wf(s@, 0),
{
    let mut s: Vec<u8> = Vec::new();
    let n = words * 8;
    while s.len() < n
        invariant
            s@.len() <= n,
            n == words * 8,
            forall|j: int| 0 <= j < s@.len() ==> s@[j] == 0,
        decreases n - s@.len(),
    {
        s.push(0);
    }
    s
}


/// The arena `new` is `old` grown: the same segments with the same lengths
/// (perhaps more allocated), and perhaps more segments.
pub open spec fn arena_grows(old: BuilderArena, new: BuilderArena) -> bool {
    &&& new@.len() >= old@.len()
    &&& new.segment_words == old.segment_words
    &&& forall|i: int| 0 <= i < old@.len() ==> #[trigger] new@[i].len() == old@[i].len()
    &&& forall|i: int| 0 <= i < old@.len() ==> #[trigger] new.used@[i] >= old.used@[i]
}

/// The number of nonzero bytes of `s`.
pub open spec fn nonzero_count(s: Seq<u8>) -> nat
    decreases s.len(),
{
    if s.len() == 0 {
        0
    } else {
        (if s.last() != 0 {
            1nat
        } else {
            0nat
        }) + nonzero_count(s.drop_last())
    }
}

/// The number of nonzero bytes of all segments.
pub open spec fn arena_nonzero(segs: Seq<Seq<u8>>) -> nat
    decreases segs.len(),
{
    if segs.len() == 0 {
        0
    } else {
        nonzero_count(segs.last()) + arena_nonzero(segs.drop_last())
    }
}

/// `new` is `old` with some bytes set to zero.
pub open spec fn only_zeroed(old: Seq<u8>, new: Seq<u8>) -> bool {
    &&& old.len() == new.len()
    &&& forall|j: int| 0 <= j < new.len() ==> #[trigger] new[j] == old[j] || new[j] == 0
}

/// The segments `new` are `old` with some bytes set to zero.
pub open spec fn arena_only_zeroed(old: Seq<Seq<u8>>, new: Seq<Seq<u8>>) -> bool {
    &&& old.len() == new.len()
    &&& forall|i: int| 0 <= i < new.len() ==> #[trigger] new[i].len() == old[i].len()
    &&& forall|i: int| 0 <= i < new.len() ==> #[trigger] only_zeroed(old[i], new[i])
}

pub proof fn lemma_only_zeroed_count(old: Seq<u8>, new: Seq<u8>)
    requires
        only_zeroed(old, new),
    ensures
        nonzero_count(new) <= nonzero_count(old),
        (exists|j: int| 0 <= j < old.len() && old[j] != 0 && new[j] == 0) ==> nonzero_count(new)
            < nonzero_count(old),
    decreases old.len(),
{
    if old.len() > 0 {
        let o = old.drop_last();
        let n = new.drop_last();
        assert(only_zeroed(o, n)) by {
            assert forall|j: int| 0 <= j < n.len() implies #[trigger] n[j] == o[j] || n[j] == 0 by {
                assert(new[j] == old[j] || new[j] == 0);
            }
        }
        lemma_only_zeroed_count(o, n);
        if exists|j: int| 0 <= j < old.len() && old[j] != 0 && new[j] == 0 {
            let j = choose|j: int| 0 <= j < old.len() && old[j] != 0 && new[j] == 0;
            if j < old.len() - 1 {
                assert(o[j] != 0 && n[j] == 0);
            }
        }
        assert(new.last() == old.last() || new.last() == 0) by {
            assert(new[new.len() - 1] == old[old.len() - 1] || new[new.len() - 1] == 0);
        }
    }
}

pub proof fn lemma_arena_only_zeroed_count(old: Seq<Seq<u8>>, new: Seq<Seq<u8>>)
    requires
        arena_only_zeroed(old, new),
    ensures
        arena_nonzero(new) <= arena_nonzero(old),
        (exists|i: int, j: int|
            0 <= i < old.len() && 0 <= j < old[i].len() && old[i][j] != 0 && new[i][j] == 0)
            ==> arena_nonzero(new) < arena_nonzero(old),
    decreases old.len(),
{
    if old.len() > 0 {
        let o = old.drop_last();
        let n = new.drop_last();
        assert(arena_only_zeroed(o, n)) by {
            assert forall|i: int| 0 <= i < n.len() implies #[trigger] only_zeroed(o[i], n[i]) by {
                assert(only_zeroed(old[i], new[i]));
            }
            assert forall|i: int| 0 <= i < n.len() implies #[trigger] n[i].len() == o[i].len() by {
                assert(new[i].len() == old[i].len());
            }
        }
        lemma_arena_only_zeroed_count(o, n);
        assert(only_zeroed(old[old.len() - 1], new[new.len() - 1]));
        lemma_only_zeroed_count(old.last(), new.last());
        if exists|i: int, j: int|
            0 <= i < old.len() && 0 <= j < old[i].len() && old[i][j] != 0 && new[i][j] == 0 {
            let (i, j) = choose|i: int, j: int|
                0 <= i < old.len() && 0 <= j < old[i].len() && old[i][j] != 0 && new[i][j] == 0;
            if i < old.len() - 1 {
                assert(o[i][j] != 0 && n[i][j] == 0);
            } else {
                assert(old.last()[j] != 0 && new.last()[j] == 0);
            }
        }
    }
}

pub proof fn lemma_arena_only_zeroed_trans(a: Seq<Seq<u8>>, b: Seq<Seq<u8>>, c: Seq<Seq<u8>>)
    requires
        arena_only_zeroed(a, b),
        arena_only_zeroed(b, c),
    ensures
        arena_only_zeroed(a, c),
{
    assert forall|i: int| 0 <= i < c.len() implies #[trigger] c[i].len() == a[i].len() by {
        assert(c[i].len() == b[i].len());
    }
    assert forall|i: int| 0 <= i < c.len() implies #[trigger] only_zeroed(a[i], c[i]) by {
        assert(only_zeroed(a[i], b[i]));
        assert(only_zeroed(b[i], c[i]));
        assert forall|j: int| 0 <= j < c[i].len() implies #[trigger] c[i][j] == a[i][j] || c[i][j]
            == 0 by {
            assert(c[i][j] == b[i][j] || c[i][j] == 0);
            assert(b[i][j] == a[i][j] || b[i][j] == 0);
        }
    }
}

impl BuilderArena {
    /// The length of segment `segment` in bytes.
    pub fn segment_len(&self, segment: usize) -> (n: usize)
        requires
            segment < self@.len(),
        ensures
            n == self@[segment as int].len(),
    {
        assert(self@[segment as int] == self.reader.segments@[segment as int]@);
        self.reader.segments[segment].len()
    }

    /// Loads the `n` bytes at `pos` of segment `segment` as a little-endian
    /// number.
    pub fn load(&self, segment: usize, pos: usize, n: usize) -> (v: u64)
        requires
            segment < self@.len(),
            n <= 8,
            pos + n <= self@[segment as int].len(),
        ensures
            v == read_le(self@[segment as int], pos as int, n as nat),
    {
        assert(self@[segment as int] == self.reader.segments@[segment as int]@);
        load_le(&self.reader.segments[segment], pos, n)
    }

    /// Loads the wire pointer at byte `pos` of segment `segment`.
    pub fn read_pointer(&self, segment: usize, pos: usize) -> (p: WirePointer)
        requires
            segment < self@.len(),
            pos + 8 <= self@[segment as int].len(),
        ensures
            p == wire_pointer_at(self@[segment as int], pos as int),
    {
        assert(self@[segment as int] == self.reader.segments@[segment as int]@);
        WirePointer::read_from(&self.reader.segments[segment], pos)
    }

    /// Stores `v` as `n` little-endian bytes at `pos` of segment `segment`,
    /// within its allocated part.
    pub fn store(&mut self, segment: usize, pos: usize, n: usize, v: u64)
        requires
            old(self).wf(),
            segment < old(self)@.len(),
            n <= 8,
            pos + n <= 8 * old(self).used@[segment as int],
        ensures
            final(self).wf(),
            final(self).used@ == old(self).used@,
            final(self).segment_words == old(self).segment_words,
            final(self)@ == old(self)@.update(
                segment as int,
                write_le(old(self)@[segment as int], pos as int, n as nat, v as nat),
            ),
    {
        let ghost old_view = self@;
        assert(segment_wf(self@[segment as int], self.used@[segment as int] as nat));
        let mut seg: Vec<u8> = Vec::new();
        self.reader.segments.set_and_swap(segment, &mut seg);
        assert(seg@ == old_view[segment as int]);
        store_le(&mut seg, pos, n, v);
        proof {
            lemma_write_le(old_view[segment as int], pos as int, n as nat, v as nat);
        }
        self.reader.segments.set(segment, seg);
        assert(self@ =~= old_view.update(
            segment as int,
            write_le(old_view[segment as int], pos as int, n as nat, v as nat),
        ));
        assert forall|i: int| 0 <= i < self@.len() implies #[trigger] segment_wf(
            self@[i],
            self.used@[i] as nat,
        ) by {
            assert(segment_wf(old_view[i], self.used@[i] as nat));
        }
    }

    /// Stores byte `b` at `pos` of segment `segment`, within its allocated part.
    pub fn store_byte(&mut self, segment: usize, pos: usize, b: u8)
        requires
            old(self).wf(),
            segment < old(self)@.len(),
            pos < 8 * old(self).used@[segment as int],
        ensures
            final(self).wf(),
            final(self).used@ == old(self).used@,
            final(self).segment_words == old(self).segment_words,
            final(self)@ == old(self)@.update(segment as int, old(self)@[segment as int].update(pos as int, b)),
    {
        let ghost old_view = self@;
        assert(segment_wf(self@[segment as int], self.used@[segment as int] as nat));
        let mut seg: Vec<u8> = Vec::new();
        self.reader.segments.set_and_swap(segment, &mut seg);
        assert(seg@ == old_view[segment as int]);
        seg.set(pos, b);
        self.reader.segments.set(segment, seg);
        assert(self@ =~= old_view.update(segment as int, old_view[segment as int].update(pos as int, b)));
        assert forall|i: int| 0 <= i < self@.len() implies #[trigger] segment_wf(
            self@[i],
            self.used@[i] as nat,
        ) by {
            assert(segment_wf(old_view[i], self.used@[i] as nat));
        }
    }

    /// Loads byte `pos` of segment `segment`.
    pub fn load_byte(&self, segment: usize, pos: usize) -> (b: u8)
        requires
            segment < self@.len(),
            pos < self@[segment as int].len(),
        ensures
            b == self@[segment as int][pos as int],
    {
        assert(self@[segment as int] == self.reader.segments@[segment as int]@);
        self.reader.segments[segment][pos]
    }

    /// Stores the wire pointer `p` at byte `pos` of segment `segment`, within
    /// its allocated part.
    pub fn write_pointer(&mut self, segment: usize, pos: usize, p: WirePointer)
        requires
            old(self).wf(),
            segment < old(self)@.len(),
            pos + 8 <= 8 * old(self).used@[segment as int],
        ensures
            final(self).wf(),
            final(self).used@ == old(self).used@,
            final(self).segment_words == old(self).segment_words,
            final(self)@ == old(self)@.update(
                segment as int,
                write_wire_pointer(old(self)@[segment as int], pos as int, p),
            ),
    {
        assert(segment_wf(self@[segment as int], self.used@[segment as int] as nat));
        let ghost old_view = self@;
        self.store(segment, pos, 4, p.offset_and_kind as u64);
        proof {
            lemma_write_le(old_view[segment as int], pos as int, 4, p.offset_and_kind as nat);
        }
        self.store(segment, pos + 4, 4, p.upper32bits as u64);
        assert(self@ =~= old_view.update(
            segment as int,
            write_wire_pointer(old_view[segment as int], pos as int, p),
        ));
    }

    /// Sets the bytes `[start, end)` of segment `segment` to zero.
    pub fn zero_bytes(&mut self, segment: usize, start: usize, end: usize)
        requires
            old(self).wf(),
            segment < old(self)@.len(),
            start <= end <= old(self)@[segment as int].len(),
        ensures
            final(self).wf(),
            final(self).used@ == old(self).used@,
            final(self).segment_words == old(self).segment_words,
            final(self)@.len() == old(self)@.len(),
            forall|i: int|
                0 <= i < old(self)@.len() && i != segment ==> #[trigger] final(self)@[i] == old(self)@[i],
            final(self)@[segment as int].len() == old(self)@[segment as int].len(),
            forall|j: int|
                0 <= j < final(self)@[segment as int].len() ==> #[trigger] final(self)@[segment as int][j] == if start <= j < end {
                    0
                } else {
                    old(self)@[segment as int][j]
                },
            arena_only_zeroed(old(self)@, final(self)@),
    {
        let ghost old_view = self@;
        assert(segment_wf(self@[segment as int], self.used@[segment as int] as nat));
        let mut seg: Vec<u8> = Vec::new();
        self.reader.segments.set_and_swap(segment, &mut seg);
        assert(seg@ == old_view[segment as int]);
        let mut k = start;
        while k < end
            invariant
                start <= k <= end <= seg@.len(),
                seg@.len() == old_view[segment as int].len(),
                forall|j: int|
                    0 <= j < seg@.len() ==> #[trigger] seg@[j] == if start <= j < k {
                        0
                    } else {
                        old_view[segment as int][j]
                    },
            decreases end - k,
        {
            seg.set(k, 0);
            k = k + 1;
        }
        self.reader.segments.set(segment, seg);
        assert forall|i: int| 0 <= i < self@.len() implies #[trigger] segment_wf(
            self@[i],
            self.used@[i] as nat,
        ) by {
            assert(segment_wf(old_view[i], self.used@[i] as nat));
            if i == segment {
                assert(self@[i] == seg@);
            }
        }
        assert forall|i: int| 0 <= i < self@.len() implies #[trigger] only_zeroed(
            old_view[i],
            self@[i],
        ) by {
            if i == segment {
                assert(self@[i] == seg@);
            }
        }
        assert forall|i: int| 0 <= i < self@.len() implies #[trigger] self@[i].len()
            == old_view[i].len() by {
            if i == segment {
                assert(self@[i] == seg@);
            }
        }
    }
}

} // verus!
