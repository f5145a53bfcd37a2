//! Numbers as bytes.

use vstd::prelude::*;
use crate::bytes::{le_bytes, le_value, lemma_le_bytes_len, lemma_le_value_of_bytes, lemma_pow256_values, pow256};
use crate::order::{lemma_common_prefix_is, lex_lt};
use crate::varint::{lemma_varint_bytes_len, lemma_varint_roundtrip, varint_bytes, varint_decode, varint_len};

verus! {

/// One more byte at the end counts as many times 256 as there are bytes in front of it.
pub proof fn later_bytes_count_more(s: Seq<u8>, x: u8)
    ensures
        le_value(Seq::<u8>::empty()) == 0,
        le_value(s.push(x)) == le_value(s) + x * pow256(s.len()),
        pow256(0) == 1,
        pow256(s.len() + 1) == 256 * pow256(s.len()),
    decreases s.len(),
{
    if s.len() == 0 {
        assert(s.push(x).skip(1) =~= Seq::<u8>::empty());
        assert(s =~= Seq::<u8>::empty());
        assert(x * pow256(0) == x) by (nonlinear_arith)
            requires
                pow256(0) == 1,
        ;
        assert(s.push(x)[0] == x);
        assert(le_value(s.push(x).skip(1)) == 0);
    } else {
        let t = s.skip(1);
        later_bytes_count_more(t, x);
        assert(s.push(x).skip(1) =~= t.push(x));
        let p = pow256(t.len()) as int;
        assert(256 * (x * p) == x * (256 * p)) by (nonlinear_arith);
        assert(pow256(s.len()) == 256 * pow256(t.len()));
    }
}

/// Fewer bytes of a number are the first ones of more.
pub proof fn fewer_bytes_are_the_first_ones(v: nat, n: nat, m: nat)
    requires
        n <= m,
    ensures
        le_bytes(v, m).len() == m,
        le_bytes(v, m).take(n as int) == le_bytes(v, n),
    decreases n,
{
    lemma_le_bytes_len(v, m);
    lemma_le_bytes_len(v, n);
    if n > 0 {
        let a = (n - 1) as nat;
        let b = (m - 1) as nat;
        fewer_bytes_are_the_first_ones(v / 256, a, b);
        let rest = le_bytes(v / 256, b);
        assert(le_bytes(v, m) =~= seq![(v % 256) as u8] + rest);
        assert((seq![(v % 256) as u8] + rest).take(n as int) =~= seq![(v % 256) as u8] + rest.take(
            a as int,
        ));
    } else {
        assert(le_bytes(v, m).take(0) =~= le_bytes(v, 0));
    }
}

/// A length of up to 240 is one byte, itself.
pub proof fn short_lengths_are_one_byte(v: nat)
    ensures
        v <= 240 <==> varint_bytes(v).len() == 1,
        v <= 240 ==> varint_bytes(v) == seq![v as u8],
{
    lemma_varint_bytes_len(v);
}

/// Up to 67823, encodings are ordered as the numbers are.
pub proof fn encodings_are_ordered(u: nat, v: nat)
    requires
        u < v <= 67823,
    ensures
        lex_lt(varint_bytes(u), varint_bytes(v)),
{
    let a = varint_bytes(u);
    let b = varint_bytes(v);
    if a[0] != b[0] {
        lemma_common_prefix_is(a, b, 0);
    } else if a[1] != b[1] {
        lemma_common_prefix_is(a, b, 1);
    } else {
        lemma_common_prefix_is(a, b, 2);
    }
}

/// Every pair of bytes of which the first is 241 to 248 is the encoding of a number, but for
/// the one that would be 240 again.
pub proof fn every_pair_is_used(x: u8, y: u8)
    requires
        241 <= x <= 248,
        x > 241 || y > 0,
    ensures
        exists|v: nat| 240 < v <= 2287 && #[trigger] varint_bytes(v) == seq![x, y],
{
    let v = (240 + 256 * (x - 241) + y) as nat;
    assert(varint_bytes(v) =~= seq![x, y]);
}

/// Every two bytes behind 249 make the encoding of a number.
pub proof fn every_triple_is_used(x: u8, y: u8)
    ensures
        exists|v: nat| 2287 < v <= 67823 && #[trigger] varint_bytes(v) == seq![249u8, x, y],
{
    let v = (2288 + 256 * x + y) as nat;
    assert(varint_bytes(v) =~= seq![249u8, x, y]);
}

/// Beyond 67823, a first byte says how many follow: the number itself, least significant
/// byte first, in as few bytes as hold it, and in three at least.
pub proof fn long_lengths_are_counted(v: nat)
    requires
        67823 < v <= u64::MAX,
    ensures
        ({
            let b = varint_bytes(v);
            let n = b.len() - 1;
            &&& 3 <= n <= 8
            &&& b[0] == 247 + n
            &&& le_value(b.skip(1)) == v
            &&& v < pow256(n as nat)
            &&& n > 3 ==> v >= pow256((n - 1) as nat)
        }),
{
    let b = varint_bytes(v);
    lemma_varint_bytes_len(v);
    lemma_pow256_values();
    let n = (varint_len(v) - 1) as nat;
    lemma_le_value_of_bytes(v, n);
    assert(b.skip(1) =~= le_bytes(v, n));
}

/// Larger numbers take no fewer bytes.
pub proof fn larger_numbers_take_no_fewer_bytes(u: nat, v: nat)
    requires
        u <= v,
    ensures
        varint_bytes(u).len() <= varint_bytes(v).len(),
        varint_bytes(u).len() == varint_len(u),
{
    lemma_varint_bytes_len(u);
    lemma_varint_bytes_len(v);
}

/// What follows an encoding has no part in it, and an encoding cut short is none.
pub proof fn encodings_end_by_themselves(v: nat, rest: Seq<u8>, cut: int)
    requires
        v <= u64::MAX,
        0 <= cut < varint_bytes(v).len(),
    ensures
        varint_decode(varint_bytes(v) + rest) == Some((v, varint_bytes(v).len())),
        varint_decode(varint_bytes(v).take(cut)) is None,
{
    lemma_varint_bytes_len(v);
    let s = varint_bytes(v) + rest;
    assert(s.take(varint_len(v) as int) =~= varint_bytes(v));
    lemma_varint_roundtrip(v, s);
    let t = varint_bytes(v).take(cut);
    if cut > 0 {
        assert(t[0] == varint_bytes(v)[0]);
    }
}

/// A first byte of up to 249 says whether none, one or two bytes are read behind it.
pub proof fn short_encodings_are_read_whole(s: Seq<u8>)
    ensures
        s.len() == 0 ==> varint_decode(s) is None,
        s.len() > 0 && s[0] <= 240 ==> varint_decode(s) == Some((s[0] as nat, 1nat)),
        s.len() == 1 && s[0] > 240 ==> varint_decode(s) is None,
        s.len() > 1 && 240 < s[0] <= 248 ==> varint_decode(s) == Some(
            ((256 * s[0] + s[1] - 61456) as nat, 2nat),
        ),
        s.len() == 2 && s[0] == 249 ==> varint_decode(s) is None,
        s.len() > 2 && s[0] == 249 ==> varint_decode(s) == Some(
            ((256 * s[1] + s[2] + 2288) as nat, 3nat),
        ),
{
}

/// A first byte of 250 or more says how many bytes are read behind it.
pub proof fn long_encodings_are_read_whole(s: Seq<u8>)
    requires
        s.len() > 0,
        s[0] >= 250,
    ensures
        s.len() >= s[0] - 246 ==> varint_decode(s) == Some(
            (le_value(s.subrange(1, s[0] - 246)), (s[0] - 246) as nat),
        ),
        s.len() < s[0] - 246 ==> varint_decode(s) is None,
{
}

} // verus!
