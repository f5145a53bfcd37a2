//! Byte strings: little-endian numbers and writes into part of a buffer.

use vstd::prelude::*;

verus! {

/// `s` with the bytes from `pos` on replaced by `piece`.
pub open spec fn splice(s: Seq<u8>, pos: int, piece: Seq<u8>) -> Seq<u8> {
    s.take(pos) + piece + s.skip(pos + piece.len())
}

/// 256 to the power `n`.
pub open spec fn pow256(n: nat) -> nat
    decreases n,
{
    if n == 0 {
        1
    } else {
        256 * pow256((n - 1) as nat)
    }
}

/// The `n` low bytes of `v`, least significant first.
pub open spec fn le_bytes(v: nat, n: nat) -> Seq<u8>
    decreases n,
{
    if n == 0 {
        Seq::empty()
    } else {
        seq![(v % 256) as u8] + le_bytes(v / 256, (n - 1) as nat)
    }
}

/// The number that `s` holds, least significant byte first.
pub open spec fn le_value(s: Seq<u8>) -> nat
    decreases s.len(),
{
    if s.len() == 0 {
        0
    } else {
        s[0] as nat + 256 * le_value(s.skip(1))
    }
}

pub proof fn lemma_le_bytes_len(v: nat, n: nat)
    ensures
        le_bytes(v, n).len() == n,
    decreases n,
{
    if n > 0 {
        lemma_le_bytes_len(v / 256, (n - 1) as nat);
    }
}

/// Reading back what was written gives the number, where it fits in `n` bytes.
pub proof fn lemma_le_value_of_bytes(v: nat, n: nat)
    requires
        v < pow256(n),
    ensures
        le_bytes(v, n).len() == n,
        le_value(le_bytes(v, n)) == v,
    decreases n,
{
    if n > 0 {
        lemma_le_value_of_bytes(v / 256, (n - 1) as nat);
        assert(le_bytes(v, n).skip(1) =~= le_bytes(v / 256, (n - 1) as nat));
    }
}

/// Writing back what was read gives the bytes.
pub proof fn lemma_le_bytes_of_value(s: Seq<u8>)
    ensures
        le_value(s) < pow256(s.len()),
        le_bytes(le_value(s), s.len()) == s,
    decreases s.len(),
{
    if s.len() > 0 {
        lemma_le_bytes_of_value(s.skip(1));
        let v = le_value(s);
        assert(v % 256 == s[0] as nat && v / 256 == le_value(s.skip(1)));
        assert(seq![s[0]] + s.skip(1) =~= s);
    }
}

pub proof fn lemma_pow256_values()
    ensures
        pow256(0) == 1,
        pow256(1) == 0x100,
        pow256(2) == 0x1_0000,
        pow256(3) == 0x100_0000,
        pow256(4) == 0x1_0000_0000,
        pow256(5) == 0x100_0000_0000,
        pow256(6) == 0x1_0000_0000_0000,
        pow256(7) == 0x100_0000_0000_0000,
        pow256(8) == 0x1_0000_0000_0000_0000,
{
    reveal_with_fuel(pow256, 9);
}

pub proof fn lemma_pow256_monotone(a: nat, b: nat)
    requires
        a <= b,
    ensures
        pow256(a) <= pow256(b),
    decreases b,
{
    if a < b {
        lemma_pow256_monotone(a, (b - 1) as nat);
    }
}

/// The open-ended buffer that starts at `at`.
pub fn tail_mut(buf: &mut [u8], at: usize) -> (r: &mut [u8])
    requires
        at <= old(buf)@.len(),
    ensures
        r@ == old(buf)@.skip(at as int),
        final(buf)@ == old(buf)@.take(at as int) + final(r)@,
{
    let (_, r) = buf.split_at_mut(at);
    r
}

/// The buffer of `len` bytes that starts at `at`.
pub fn part_mut(buf: &mut [u8], at: usize, len: usize) -> (r: &mut [u8])
    requires
        at + len <= old(buf)@.len(),
    ensures
        r@ == old(buf)@.subrange(at as int, at + len),
        final(buf)@ == old(buf)@.take(at as int) + final(r)@ + old(buf)@.skip(at + len),
{
    let (_, rest) = buf.split_at_mut(at);
    let (r, after) = rest.split_at_mut(len);
    proof {
        assert(after@ =~= old(buf)@.skip(at + len));
        assert(r@ =~= old(buf)@.subrange(at as int, at + len));
        assert(old(buf)@.take(at as int) + (final(r)@ + after@) =~= old(buf)@.take(at as int)
            + final(r)@ + after@);
    }
    r
}

/// Copies `src` to the front of `dst`.
pub fn copy_prefix(dst: &mut [u8], src: &[u8])
    requires
        src@.len() <= old(dst)@.len(),
    ensures
        final(dst)@ == splice(old(dst)@, 0, src@),
{
    let mut i: usize = 0;
    while i < src.len()
        invariant
            i <= src.len(),
            src@.len() <= dst@.len(),
            dst@.len() == old(dst)@.len(),
            forall|j: int| 0 <= j < i ==> dst@[j] == src@[j],
            forall|j: int| i <= j < dst@.len() ==> dst@[j] == old(dst)@[j],
        decreases src.len() - i,
    {
        dst[i] = src[i];
        i = i + 1;
    }
    assert(dst@ =~= splice(old(dst)@, 0, src@));
}

/// Fills `dst` with the low bytes of `v`, least significant first.
pub fn write_le(v: u64, dst: &mut [u8])
    ensures
        final(dst)@ == le_bytes(v as nat, old(dst)@.len()),
{
    let mut rest: u64 = v;
    let mut i: usize = 0;
    let n = dst.len();
    while i < n
        invariant
            i <= n,
            n == dst@.len(),
            n == old(dst)@.len(),
            dst@.take(i as int) + le_bytes(rest as nat, (n - i) as nat) == le_bytes(
                v as nat,
                n as nat,
            ),
        decreases n - i,
    {
        let ghost before = dst@;
        dst[i] = (rest % 256) as u8;
        proof {
            assert(le_bytes(rest as nat, (n - i) as nat) == seq![(rest as nat % 256) as u8]
                + le_bytes(rest as nat / 256, (n - i - 1) as nat));
            assert(dst@.take(i + 1) =~= before.take(i as int) + seq![(rest % 256) as u8]);
            assert(before.take(i as int) + (seq![(rest as nat % 256) as u8] + le_bytes(
                rest as nat / 256,
                (n - i - 1) as nat,
            )) =~= dst@.take(i + 1) + le_bytes((rest / 256) as nat, (n - i - 1) as nat));
        }
        rest = rest / 256;
        i = i + 1;
    }
    proof {
        assert(dst@.take(n as int) + le_bytes(rest as nat, 0) =~= dst@);
    }
}

/// The number that `src` holds, least significant byte first.
pub fn read_le(src: &[u8]) -> (r: u64)
    requires
        src@.len() <= 8,
    ensures
        r == le_value(src@),
{
    let mut i: usize = src.len();
    let mut acc: u64 = 0;
    proof {
        assert(src@.skip(i as int) =~= Seq::<u8>::empty());
        lemma_pow256_values();
    }
    while i > 0
        invariant
            i <= src@.len() <= 8,
            acc == le_value(src@.skip(i as int)),
        decreases i,
    {
        proof {
            lemma_le_bytes_of_value(src@.skip(i as int));
            lemma_pow256_values();
            lemma_pow256_monotone((src@.len() - i) as nat, 7);
            assert(src@.skip(i - 1).skip(1) =~= src@.skip(i as int));
            assert(src@.skip(i - 1)[0] == src@[i - 1]);
        }
        i = i - 1;
        acc = src[i] as u64 + 256 * acc;
    }
    proof {
        assert(src@.skip(0) =~= src@);
    }
    acc
}

/// The eight bytes of `v`, least significant first.
pub fn u64_to_le(v: u64) -> (r: Vec<u8>)
    ensures
        r@ == le_bytes(v as nat, 8),
{
    let mut r: Vec<u8> = vec![0u8; 8];
    write_le(v, r.as_mut_slice());
    r
}

/// A vector that holds the bytes of `s`.
pub fn to_vec(s: &[u8]) -> (r: Vec<u8>)
    ensures
        r@ == s@,
{
    let mut r: Vec<u8> = Vec::with_capacity(s.len());
    r.extend_from_slice(s);
    assert(r@ =~= s@);
    r
}

} // verus!
