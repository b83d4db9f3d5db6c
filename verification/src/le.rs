//! Little-endian values stored in byte sequences.
//!
//! A message segment is a sequence of bytes; every multi-byte value in it
//! (the halves of a wire pointer, a data field) is stored little-endian.
use vstd::prelude::*;
use vstd::arithmetic::div_mod::{lemma_div_denominator, lemma_mod_breakdown};

verus! {

/// `256` to the power `n`: the number of values that `n` bytes can hold.
pub open spec fn pow256(n: nat) -> nat
    decreases n,
{
    if n == 0 {
        1
    } else {
        256 * pow256((n - 1) as nat)
    }
}

/// The number that the bytes of `s` denote, least significant byte first.
pub open spec fn le_value(s: Seq<u8>) -> nat
    decreases s.len(),
{
    if s.len() == 0 {
        0
    } else {
        s[0] as nat + 256 * le_value(s.drop_first())
    }
}

/// The `n` bytes that hold `v` modulo `256^n`, least significant byte first.
pub open spec fn le_bytes(v: nat, n: nat) -> Seq<u8>
    decreases n,
{
    if n == 0 {
        Seq::empty()
    } else {
        seq![(v % 256) as u8] + le_bytes(v / 256, (n - 1) as nat)
    }
}

/// The value of the `n` bytes of `s` that start at `pos`.
pub open spec fn read_le(s: Seq<u8>, pos: int, n: nat) -> nat {
    le_value(s.subrange(pos, pos + n))
}

/// `s` with the `n` bytes at `pos` replaced by the encoding of `v`.
pub open spec fn write_le(s: Seq<u8>, pos: int, n: nat, v: nat) -> Seq<u8> {
    s.subrange(0, pos) + le_bytes(v, n) + s.subrange(pos + n, s.len() as int)
}

pub proof fn lemma_pow256_values()
    ensures
        pow256(0) == 1,
        pow256(1) == 256,
        pow256(2) == 0x1_0000,
        pow256(4) == 0x1_0000_0000,
        pow256(7) == 0x100_0000_0000_0000,
        pow256(8) == 0x1_0000_0000_0000_0000,
{
    reveal_with_fuel(pow256, 9);
}

pub proof fn lemma_pow256_positive(n: nat)
    ensures
        pow256(n) > 0,
    decreases n,
{
    if n > 0 {
        lemma_pow256_positive((n - 1) as nat);
    }
}

pub proof fn lemma_pow256_monotone(a: nat, b: nat)
    requires
        a <= b,
    ensures
        pow256(a) <= pow256(b),
    decreases b,
{
    lemma_pow256_positive(b);
    if a < b {
        lemma_pow256_monotone(a, (b - 1) as nat);
    }
}

pub proof fn lemma_le_value_bound(s: Seq<u8>)
    ensures
        le_value(s) < pow256(s.len()),
    decreases s.len(),
{
    if s.len() > 0 {
        lemma_le_value_bound(s.drop_first());
    }
}

pub proof fn lemma_le_bytes_len(v: nat, n: nat)
    ensures
        le_bytes(v, n).len() == n,
    decreases n,
{
    if n > 0 {
        lemma_le_bytes_len(v / 256, (n - 1) as nat);
    }
}

/// Byte `j` of the encoding of `v` is digit `j` of `v` in base 256.
pub proof fn lemma_le_bytes_index(v: nat, n: nat, j: nat)
    requires
        j < n,
    ensures
        le_bytes(v, n)[j as int] == ((v / pow256(j)) % 256) as u8,
    decreases n,
{
    lemma_le_bytes_len(v, n);
    lemma_le_bytes_len(v / 256, (n - 1) as nat);
    if j > 0 {
        lemma_le_bytes_index(v / 256, (n - 1) as nat, (j - 1) as nat);
        lemma_pow256_positive((j - 1) as nat);
        lemma_div_denominator(v as int, 256, pow256((j - 1) as nat) as int);
        assert(le_bytes(v, n)[j as int] == le_bytes(v / 256, (n - 1) as nat)[j - 1]);
        assert(pow256(j) == 256 * pow256((j - 1) as nat));
    } else {
        assert(pow256(0) == 1);
        assert(v / 1 == v);
        assert(le_bytes(v, n)[0] == (v % 256) as u8);
    }
}

/// Decoding an encoding gives the value back, modulo `256^n`.
pub proof fn lemma_le_roundtrip(v: nat, n: nat)
    ensures
        le_value(le_bytes(v, n)) == v % pow256(n),
    decreases n,
{
    lemma_le_bytes_len(v, n);
    if n > 0 {
        lemma_le_roundtrip(v / 256, (n - 1) as nat);
        let s = le_bytes(v, n);
        assert(s.drop_first() =~= le_bytes(v / 256, (n - 1) as nat));
        lemma_pow256_positive((n - 1) as nat);
        lemma_mod_breakdown(v as int, 256, pow256((n - 1) as nat) as int);
    }
}

/// Reading back the bytes just written gives the value written, modulo `256^n`;
/// the length and every byte outside the written range stay as they were.
pub proof fn lemma_write_le(s: Seq<u8>, pos: int, n: nat, v: nat)
    requires
        0 <= pos,
        pos + n <= s.len(),
    ensures
        write_le(s, pos, n, v).len() == s.len(),
        read_le(write_le(s, pos, n, v), pos, n) == v % pow256(n),
        forall|i: int|
            0 <= i < s.len() && !(pos <= i < pos + n) ==> #[trigger] write_le(s, pos, n, v)[i]
                == s[i],
{
    lemma_le_bytes_len(v, n);
    let w = write_le(s, pos, n, v);
    assert(w.subrange(pos, pos + n) =~= le_bytes(v, n));
    lemma_le_roundtrip(v, n);
}

/// Two sequences that agree on a range have the same value there.
pub proof fn lemma_read_le_same(s: Seq<u8>, t: Seq<u8>, pos: int, n: nat)
    requires
        0 <= pos,
        pos + n <= s.len(),
        pos + n <= t.len(),
        forall|i: int| pos <= i < pos + n ==> s[i] == t[i],
    ensures
        read_le(s, pos, n) == read_le(t, pos, n),
{
    assert(s.subrange(pos, pos + n) =~= t.subrange(pos, pos + n));
}

/// The value of `n` zero bytes is zero.
pub proof fn lemma_le_value_zero(s: Seq<u8>)
    requires
        forall|i: int| 0 <= i < s.len() ==> s[i] == 0,
    ensures
        le_value(s) == 0,
    decreases s.len(),
{
    if s.len() > 0 {
        lemma_le_value_zero(s.drop_first());
    }
}

/// Bytes whose value is zero are all zero.
pub proof fn lemma_le_value_zero_bytes(s: Seq<u8>)
    requires
        le_value(s) == 0,
    ensures
        forall|i: int| 0 <= i < s.len() ==> s[i] == 0,
    decreases s.len(),
{
    if s.len() > 0 {
        lemma_le_value_zero_bytes(s.drop_first());
        assert forall|i: int| 0 <= i < s.len() implies s[i] == 0 by {
            if i > 0 {
                assert(s[i] == s.drop_first()[i - 1]);
            }
        }
    }
}

/// Loads the `n` bytes at `pos` of `s` as a little-endian number.
pub fn load_le(s: &Vec<u8>, pos: usize, n: usize) -> (v: u64)
    requires
        n <= 8,
        pos + n <= s@.len(),
    ensures
        v == read_le(s@, pos as int, n as nat),
{
    let mut acc: u64 = 0;
    let mut i: usize = n;
    proof {
        assert(s@.subrange(pos + n, pos + n) =~= Seq::<u8>::empty());
        lemma_pow256_values();
    }
    while i > 0
        invariant
            i <= n <= 8,
            pos + n <= s.len(),
            acc == le_value(s@.subrange(pos + i, pos + n)),
        decreases i,
    {
        i = i - 1;
        proof {
            let sub = s@.subrange(pos + i, pos + n);
            assert(sub.drop_first() =~= s@.subrange(pos + i + 1, pos + n));
            lemma_le_value_bound(s@.subrange(pos + i + 1, pos + n));
            lemma_pow256_monotone((n - i - 1) as nat, 7);
            lemma_pow256_values();
        }
        acc = acc * 256 + s[pos + i] as u64;
    }
    acc
}

/// Stores `v` modulo `256^n` as `n` little-endian bytes at `pos` of `s`.
pub fn store_le(s: &mut Vec<u8>, pos: usize, n: usize, v: u64)
    requires
        n <= 8,
        pos + n <= old(s)@.len(),
    ensures
        final(s)@ == write_le(old(s)@, pos as int, n as nat, v as nat),
        final(s)@.len() == old(s)@.len(),
{
    let ghost enc = le_bytes(v as nat, n as nat);
    proof {
        lemma_le_bytes_len(v as nat, n as nat);
        assert(pow256(0) == 1);
        assert(v as nat / 1 == v as nat);
    }
    let mut x: u64 = v;
    let mut i: usize = 0;
    while i < n
        invariant
            i <= n <= 8,
            pos + n <= s.len(),
            s@.len() == old(s)@.len(),
            enc == le_bytes(v as nat, n as nat),
            enc.len() == n,
            x == v as nat / pow256(i as nat),
            forall|j: int| 0 <= j < pos ==> s@[j] == old(s)@[j],
            forall|j: int| pos + n <= j < s@.len() ==> s@[j] == old(s)@[j],
            forall|j: int| 0 <= j < i ==> s@[pos + j] == enc[j],
        decreases n - i,
    {
        proof {
            lemma_le_bytes_index(v as nat, n as nat, i as nat);
            lemma_pow256_positive(i as nat);
            lemma_div_denominator(v as int, pow256(i as nat) as int, 256);
            assert(pow256(i as nat) * 256 == pow256((i + 1) as nat));
        }
        s.set(pos + i, (x % 256) as u8);
        x = x / 256;
        i = i + 1;
    }
    assert(s@ =~= write_le(old(s)@, pos as int, n as nat, v as nat));
}

} // verus!
