//! Variable-length integers: one byte for small numbers, up to nine for large ones.
//!
//! The first byte tells how long the encoding is. Up to 240 it is the number
//! itself; 241 to 248 carry the high part of a two-byte number, 249 starts a
//! three-byte number, and 250 to 255 are followed by three to eight bytes, least
//! significant first.

use vstd::prelude::*;
use crate::bytes::{le_bytes, le_value, lemma_le_bytes_len, lemma_le_value_of_bytes, lemma_pow256_values, part_mut, read_le, splice, write_le};

verus! {

/// The number of bytes that the encoding of `v` takes.
pub open spec fn varint_len(v: nat) -> nat {
    if v <= 240 {
        1
    } else if v <= 2287 {
        2
    } else if v <= 67823 {
        3
    } else if v <= 0xFF_FFFF {
        4
    } else if v <= 0xFFFF_FFFF {
        5
    } else if v <= 0xFF_FFFF_FFFF {
        6
    } else if v <= 0xFFFF_FFFF_FFFF {
        7
    } else if v <= 0xFF_FFFF_FFFF_FFFF {
        8
    } else {
        9
    }
}

/// The encoding of `v`, which is less than two to the power 64.
pub open spec fn varint_bytes(v: nat) -> Seq<u8> {
    if v <= 240 {
        seq![v as u8]
    } else if v <= 2287 {
        seq![((v - 240) / 256 + 241) as u8, ((v - 240) % 256) as u8]
    } else if v <= 67823 {
        seq![249u8, ((v - 2288) / 256) as u8, ((v - 2288) % 256) as u8]
    } else {
        let n = (varint_len(v) - 1) as nat;
        seq![(247 + n) as u8] + le_bytes(v, n)
    }
}

/// The number at the front of `s` and the length of its encoding; nothing where
/// `s` ends too early.
pub open spec fn varint_decode(s: Seq<u8>) -> Option<(nat, nat)> {
    if s.len() == 0 {
        None
    } else if s[0] <= 240 {
        Some((s[0] as nat, 1))
    } else if s[0] <= 248 {
        if s.len() < 2 {
            None
        } else {
            Some(((240 + 256 * (s[0] - 241) + s[1]) as nat, 2))
        }
    } else if s[0] == 249 {
        if s.len() < 3 {
            None
        } else {
            Some(((2288 + 256 * s[1] + s[2]) as nat, 3))
        }
    } else {
        let n = s[0] - 247;
        if s.len() < 1 + n {
            None
        } else {
            Some((le_value(s.subrange(1, 1 + n)), (1 + n) as nat))
        }
    }
}

/// What starts with the encoding of a number decodes to that number.
pub proof fn lemma_varint_roundtrip(v: nat, s: Seq<u8>)
    requires
        v <= u64::MAX,
        varint_len(v) <= s.len(),
        s.take(varint_len(v) as int) == varint_bytes(v),
    ensures
        varint_bytes(v).len() == varint_len(v),
        varint_decode(s) == Some((v, varint_len(v))),
{
    let t = s.take(varint_len(v) as int);
    assert(t[0] == s[0]);
    if v <= 240 {
    } else if v <= 2287 {
        assert(t[1] == s[1]);
    } else if v <= 67823 {
        assert(t[1] == s[1] && t[2] == s[2]);
    } else {
        let n = varint_len(v) - 1;
        lemma_pow256_values();
        lemma_le_value_of_bytes(v, n as nat);
        assert(s.subrange(1, 1 + n) =~= le_bytes(v, n as nat)) by {
            assert(s.subrange(1, 1 + n) =~= t.skip(1));
            assert(varint_bytes(v).skip(1) =~= le_bytes(v, n as nat));
        }
    }
}

pub proof fn lemma_varint_bytes_len(v: nat)
    ensures
        varint_bytes(v).len() == varint_len(v),
        1 <= varint_len(v) <= 9,
{
    if v > 67823 {
        lemma_le_bytes_len(v, (varint_len(v) - 1) as nat);
    }
}

/// The number of bytes that the encoding of `v` takes.
pub fn size(v: u64) -> (r: u64)
    ensures
        r == varint_len(v as nat),
{
    if v <= 240 {
        1
    } else if v <= 2287 {
        2
    } else if v <= 67823 {
        3
    } else if v <= 0xFF_FFFF {
        4
    } else if v <= 0xFFFF_FFFF {
        5
    } else if v <= 0xFF_FFFF_FFFF {
        6
    } else if v <= 0xFFFF_FFFF_FFFF {
        7
    } else if v <= 0xFF_FFFF_FFFF_FFFF {
        8
    } else {
        9
    }
}

/// Writes the encoding of `v` to the front of `buf` and returns its length.
pub fn serialize_into(v: u64, buf: &mut [u8]) -> (r: usize)
    requires
        varint_len(v as nat) <= old(buf)@.len(),
    ensures
        r == varint_len(v as nat),
        final(buf)@ == splice(old(buf)@, 0, varint_bytes(v as nat)),
{
    proof {
        lemma_varint_bytes_len(v as nat);
    }
    if v <= 240 {
        buf[0] = v as u8;
        assert(buf@ =~= splice(old(buf)@, 0, varint_bytes(v as nat)));
        1
    } else if v <= 2287 {
        buf[0] = ((v - 240) / 256 + 241) as u8;
        buf[1] = ((v - 240) % 256) as u8;
        assert(buf@ =~= splice(old(buf)@, 0, varint_bytes(v as nat)));
        2
    } else if v <= 67823 {
        buf[0] = 249;
        buf[1] = ((v - 2288) / 256) as u8;
        buf[2] = ((v - 2288) % 256) as u8;
        assert(buf@ =~= splice(old(buf)@, 0, varint_bytes(v as nat)));
        3
    } else {
        let n: usize = size(v) as usize - 1;
        buf[0] = (247 + n) as u8;
        write_le(v, part_mut(buf, 1, n));
        assert(buf@ =~= splice(old(buf)@, 0, varint_bytes(v as nat)));
        n + 1
    }
}

/// The number at the front of `buf` and the length of its encoding; `None` where
/// `buf` ends too early.
pub fn deserialize(buf: &[u8]) -> (r: Option<(u64, usize)>)
    ensures
        match r {
            Some((found, n)) => varint_decode(buf@) == Some((found as nat, n as nat)),
            None => varint_decode(buf@) is None,
        },
{
    if buf.len() == 0 {
        return None;
    }
    let first = buf[0];
    if first <= 240 {
        Some((first as u64, 1))
    } else if first <= 248 {
        if buf.len() < 2 {
            None
        } else {
            Some((240 + 256 * (first as u64 - 241) + buf[1] as u64, 2))
        }
    } else if first == 249 {
        if buf.len() < 3 {
            None
        } else {
            Some((2288 + 256 * buf[1] as u64 + buf[2] as u64, 3))
        }
    } else {
        let n: usize = first as usize - 247;
        if buf.len() < 1 + n {
            None
        } else {
            Some((read_le(&buf[1..1 + n]), 1 + n))
        }
    }
}

} // verus!
