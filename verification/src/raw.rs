//! Nodes as plain bytes.

use vstd::prelude::*;
use crate::bytes::{le_bytes, le_value, lemma_le_bytes_len, lemma_le_bytes_of_value, lemma_le_value_of_bytes, lemma_pow256_values, read_le, to_vec, u64_to_le};
use crate::header::{Header, HEADER_BYTES};
use crate::node::{allocatable, Node, NodeView};
use crate::nonzero::{lemma_nonzero_equal, or_zero, NonZeroU64};

verus! {

/// The byte that stands for a flag.
pub open spec fn flag_byte(flag: bool) -> u8 {
    if flag {
        1
    } else {
        0
    }
}

/// The numbers of eight bytes in a header.
pub open spec fn wide_fields(h: Header) -> Seq<u8> {
    le_bytes(or_zero(h.next) as nat, 8) + le_bytes(or_zero(h.merging_child) as nat, 8) + le_bytes(
        h.lo_len as nat,
        8,
    ) + le_bytes(h.hi_len as nat, 8) + le_bytes(or_zero(h.fixed_key_length) as nat, 8) + le_bytes(
        or_zero(h.fixed_value_length) as nat,
        8,
    )
}

/// The rest of the fields of a header.
pub open spec fn narrow_fields(h: Header) -> Seq<u8> {
    le_bytes(h.children as nat, 2) + seq![
        h.prefix_len,
        h.probation_ops_remaining,
        h.offset_bytes,
        h.rewrite_generations,
        h.activity_sketch,
        flag_byte(h.merging),
        flag_byte(h.is_index),
    ]
}

/// The fields of a header as bytes: the widest first, each number least significant
/// byte first, and zero for a number that is absent.
pub open spec fn header_bytes(h: Header) -> Seq<u8> {
    wide_fields(h) + narrow_fields(h)
}

/// A node as bytes: its header, padded to its full length, and what stands behind it.
pub open spec fn raw(v: NodeView) -> Seq<u8> {
    header_bytes(v.header) + v.padding + v.buf
}

/// Whether `n` is the number `value`, or absent where that is zero.
pub open spec fn present_unless_zero(n: Option<NonZeroU64>, value: nat) -> bool {
    match n {
        Some(n) => n@ == value && value != 0,
        None => value == 0,
    }
}

/// Whether `h` is the header that `s` starts with.
pub open spec fn reads_as(s: Seq<u8>, h: Header) -> bool {
    &&& present_unless_zero(h.next, le_value(s.subrange(0, 8)))
    &&& present_unless_zero(h.merging_child, le_value(s.subrange(8, 16)))
    &&& h.lo_len == le_value(s.subrange(16, 24))
    &&& h.hi_len == le_value(s.subrange(24, 32))
    &&& present_unless_zero(h.fixed_key_length, le_value(s.subrange(32, 40)))
    &&& present_unless_zero(h.fixed_value_length, le_value(s.subrange(40, 48)))
    &&& h.children == le_value(s.subrange(48, 50))
    &&& h.prefix_len == s[50]
    &&& h.probation_ops_remaining == s[51]
    &&& h.offset_bytes == s[52]
    &&& h.rewrite_generations == s[53]
    &&& h.activity_sketch == s[54]
    &&& h.merging == (s[55] == 1)
    &&& h.is_index == (s[56] == 1)
}

/// Whether `s` starts with a header: it is long enough, and its flags are flags.
pub open spec fn header_readable(s: Seq<u8>) -> bool {
    HEADER_BYTES <= s.len() && s[55] <= 1 && s[56] <= 1
}

/// Whether the numbers of a header that can be absent are not zero.
pub open spec fn header_valid(h: Header) -> bool {
    &&& h.next matches Some(n) ==> n@ != 0
    &&& h.merging_child matches Some(n) ==> n@ != 0
    &&& h.fixed_key_length matches Some(n) ==> n@ != 0
    &&& h.fixed_value_length matches Some(n) ==> n@ != 0
}

/// A number is there or absent as its value says.
proof fn lemma_present_equal(a: Option<NonZeroU64>, b: Option<NonZeroU64>, value: nat)
    requires
        present_unless_zero(a, value),
        present_unless_zero(b, value),
    ensures
        a == b,
{
    if value != 0 {
        lemma_nonzero_equal(a->0, b->0);
    }
}

/// No two headers have the same bytes.
pub proof fn lemma_reads_as_unique(s: Seq<u8>, a: Header, b: Header)
    requires
        reads_as(s, a),
        reads_as(s, b),
    ensures
        a == b,
{
    lemma_present_equal(a.next, b.next, le_value(s.subrange(0, 8)));
    lemma_present_equal(a.merging_child, b.merging_child, le_value(s.subrange(8, 16)));
    lemma_present_equal(a.fixed_key_length, b.fixed_key_length, le_value(s.subrange(32, 40)));
    lemma_present_equal(a.fixed_value_length, b.fixed_value_length, le_value(s.subrange(40, 48)));
}

/// The bytes of a header have one length.
pub proof fn lemma_header_bytes_len(h: Header)
    ensures
        wide_fields(h).len() == 48,
        narrow_fields(h).len() == 9,
        header_bytes(h).len() == 57,
{
    lemma_le_bytes_len(or_zero(h.next) as nat, 8);
    lemma_le_bytes_len(or_zero(h.merging_child) as nat, 8);
    lemma_le_bytes_len(h.lo_len as nat, 8);
    lemma_le_bytes_len(h.hi_len as nat, 8);
    lemma_le_bytes_len(or_zero(h.fixed_key_length) as nat, 8);
    lemma_le_bytes_len(or_zero(h.fixed_value_length) as nat, 8);
    lemma_le_bytes_len(h.children as nat, 2);
}

/// Each header reads back as it was written.
pub proof fn lemma_header_roundtrip(h: Header, rest: Seq<u8>)
    requires
        header_valid(h),
    ensures
        reads_as(header_bytes(h) + rest, h),
{
    let s = header_bytes(h) + rest;
    let w = wide_fields(h);
    let n = narrow_fields(h);
    lemma_header_bytes_len(h);
    lemma_pow256_values();
    lemma_le_value_of_bytes(or_zero(h.next) as nat, 8);
    lemma_le_value_of_bytes(or_zero(h.merging_child) as nat, 8);
    lemma_le_value_of_bytes(h.lo_len as nat, 8);
    lemma_le_value_of_bytes(h.hi_len as nat, 8);
    lemma_le_value_of_bytes(or_zero(h.fixed_key_length) as nat, 8);
    lemma_le_value_of_bytes(or_zero(h.fixed_value_length) as nat, 8);
    lemma_le_value_of_bytes(h.children as nat, 2);
    assert(s.subrange(0, 8) =~= le_bytes(or_zero(h.next) as nat, 8));
    assert(s.subrange(8, 16) =~= le_bytes(or_zero(h.merging_child) as nat, 8));
    assert(s.subrange(16, 24) =~= le_bytes(h.lo_len as nat, 8));
    assert(s.subrange(24, 32) =~= le_bytes(h.hi_len as nat, 8));
    assert(s.subrange(32, 40) =~= le_bytes(or_zero(h.fixed_key_length) as nat, 8));
    assert(s.subrange(40, 48) =~= le_bytes(or_zero(h.fixed_value_length) as nat, 8));
    assert(s.subrange(48, 50) =~= le_bytes(h.children as nat, 2));
    assert(s[50] == n[2] && s[51] == n[3] && s[52] == n[4] && s[53] == n[5] && s[54] == n[6]
        && s[55] == n[7] && s[56] == n[8]);
}

/// The number of `len` bytes at `at`.
fn number_at(buf: &[u8], at: usize, len: usize) -> (r: u64)
    requires
        at + len <= buf@.len(),
        len <= 8,
    ensures
        r == le_value(buf@.subrange(at as int, at + len)),
{
    assert(buf.len() == buf@.len());
    read_le(&buf[at..at + len])
}

/// The number, or zero where it is absent.
fn get_or_zero(n: Option<NonZeroU64>) -> (r: u64)
    ensures
        r == or_zero(n),
        n matches Some(x) ==> x@ != 0,
{
    match n {
        Some(n) => n.get(),
        None => 0,
    }
}

/// The byte that stands for a flag.
fn byte_of(flag: bool) -> (r: u8)
    ensures
        r == flag_byte(flag),
{
    if flag {
        1
    } else {
        0
    }
}

impl Header {
    /// The fields as bytes.
    fn to_bytes(&self) -> (r: Vec<u8>)
        ensures
            r@ == header_bytes(*self),
            header_valid(*self),
    {
        let mut r: Vec<u8> = Vec::with_capacity(HEADER_BYTES);
        r.extend_from_slice(u64_to_le(get_or_zero(self.next)).as_slice());
        r.extend_from_slice(u64_to_le(get_or_zero(self.merging_child)).as_slice());
        r.extend_from_slice(u64_to_le(self.lo_len).as_slice());
        r.extend_from_slice(u64_to_le(self.hi_len).as_slice());
        r.extend_from_slice(u64_to_le(get_or_zero(self.fixed_key_length)).as_slice());
        r.extend_from_slice(u64_to_le(get_or_zero(self.fixed_value_length)).as_slice());
        assert(r@ =~= wide_fields(*self));
        let narrow = self.narrow_bytes();
        r.extend_from_slice(narrow.as_slice());
        assert(r@ =~= header_bytes(*self));
        r
    }

    /// The fields behind the numbers of eight bytes.
    fn narrow_bytes(&self) -> (r: Vec<u8>)
        ensures
            r@ == narrow_fields(*self),
    {
        let r: Vec<u8> = vec![
            (self.children % 256) as u8,
            (self.children / 256) as u8,
            self.prefix_len,
            self.probation_ops_remaining,
            self.offset_bytes,
            self.rewrite_generations,
            self.activity_sketch,
            byte_of(self.merging),
            byte_of(self.is_index),
        ];
        proof {
            let n = self.children as nat;
            assert(le_bytes(n / 256 / 256, 0) =~= Seq::<u8>::empty());
            assert(le_bytes(n / 256, 1) == seq![(n / 256 % 256) as u8] + le_bytes(
                n / 256 / 256,
                0,
            ));
            assert(le_bytes(n, 2) == seq![(n % 256) as u8] + le_bytes(n / 256, 1));
            assert(r@ =~= narrow_fields(*self));
        }
        r
    }

    /// The header that `buf` starts with.
    fn from_bytes(buf: &[u8]) -> (r: Header)
        requires
            header_readable(buf@),
        ensures
            reads_as(buf@, r),
    {
        let children = number_at(buf, 48, 2);
        proof {
            lemma_le_bytes_of_value(buf@.subrange(48, 50));
            lemma_pow256_values();
        }
        Header {
            next: NonZeroU64::new(number_at(buf, 0, 8)),
            merging_child: NonZeroU64::new(number_at(buf, 8, 8)),
            lo_len: number_at(buf, 16, 8),
            hi_len: number_at(buf, 24, 8),
            fixed_key_length: NonZeroU64::new(number_at(buf, 32, 8)),
            fixed_value_length: NonZeroU64::new(number_at(buf, 40, 8)),
            children: children as u16,
            prefix_len: buf[50],
            probation_ops_remaining: buf[51],
            offset_bytes: buf[52],
            rewrite_generations: buf[53],
            activity_sketch: buf[54],
            merging: buf[55] == 1,
            is_index: buf[56] == 1,
        }
    }
}

impl Node {
    /// The node as bytes.
    pub fn to_raw(&self) -> (r: Vec<u8>)
        ensures
            r@ == raw(self@),
            header_valid(self@.header),
            header_readable(r@),
            r@.len() == self@.byte_len(),
    {
        let mut r = self.header.to_bytes();
        r.extend_from_slice(self.padding.as_slice());
        r.extend_from_slice(self.buf.as_slice());
        assert(r@ =~= raw(self@));
        proof {
            lemma_raw_readable(self@);
        }
        r
    }

    /// The node that was written as `buf`, the padding of its header included.
    pub fn from_raw(buf: &[u8]) -> (ret: Node)
        requires
            header_readable(buf@),
            allocatable(buf@.len() as int),
        ensures
            reads_as(buf@, ret@.header),
            ret@.padding == buf@.subrange(57, 64),
            ret@.buf == buf@.skip(HEADER_BYTES as int),
    {
        let header = Header::from_bytes(buf);
        let padding: [u8; 7] = [buf[57], buf[58], buf[59], buf[60], buf[61], buf[62], buf[63]];
        assert(padding@ =~= buf@.subrange(57, 64));
        let rest = &buf[HEADER_BYTES..buf.len()];
        assert(rest@ =~= buf@.skip(HEADER_BYTES as int));
        Node { header, padding, buf: to_vec(rest) }
    }
}

/// What is written as bytes can be read back.
proof fn lemma_raw_readable(v: NodeView)
    requires
        v.padding.len() == 7,
    ensures
        header_readable(raw(v)),
        raw(v).len() == v.byte_len(),
{
    lemma_header_bytes_len(v.header);
    assert(raw(v)[55] == narrow_fields(v.header)[7]);
    assert(raw(v)[56] == narrow_fields(v.header)[8]);
}

/// What was written as bytes and is read back is the node.
pub proof fn raw_roundtrip(v: NodeView, r: NodeView)
    requires
        header_valid(v.header),
        v.padding.len() == 7,
        reads_as(raw(v), r.header),
        r.padding == raw(v).subrange(57, 64),
        r.buf == raw(v).skip(HEADER_BYTES as int),
    ensures
        r == v,
{
    lemma_header_roundtrip(v.header, v.padding + v.buf);
    lemma_header_bytes_len(v.header);
    assert(raw(v) =~= header_bytes(v.header) + (v.padding + v.buf));
    lemma_reads_as_unique(raw(v), v.header, r.header);
    assert(r.padding =~= v.padding);
    assert(r.buf =~= v.buf);
}

/// A number that was read is written as the same bytes.
proof fn lemma_number_rewritten(n: Option<NonZeroU64>, s: Seq<u8>)
    requires
        s.len() == 8,
        present_unless_zero(n, le_value(s)),
    ensures
        le_bytes(or_zero(n) as nat, 8) == s,
{
    lemma_le_bytes_of_value(s);
}

/// The fields that were read are written as the same bytes.
proof fn lemma_header_rewritten(s: Seq<u8>, h: Header)
    requires
        header_readable(s),
        reads_as(s, h),
    ensures
        header_bytes(h) == s.take(57),
{
    lemma_header_bytes_len(h);
    lemma_number_rewritten(h.next, s.subrange(0, 8));
    lemma_number_rewritten(h.merging_child, s.subrange(8, 16));
    lemma_le_bytes_of_value(s.subrange(16, 24));
    lemma_le_bytes_of_value(s.subrange(24, 32));
    lemma_number_rewritten(h.fixed_key_length, s.subrange(32, 40));
    lemma_number_rewritten(h.fixed_value_length, s.subrange(40, 48));
    lemma_le_bytes_of_value(s.subrange(48, 50));
    assert(wide_fields(h) =~= s.take(48));
    assert(narrow_fields(h) =~= s.subrange(48, 57));
    assert(header_bytes(h) =~= s.take(57));
}

/// Bytes that are read as a node and written again are the same bytes.
pub proof fn bytes_roundtrip(s: Seq<u8>, r: NodeView)
    requires
        header_readable(s),
        reads_as(s, r.header),
        r.padding == s.subrange(57, 64),
        r.buf == s.skip(HEADER_BYTES as int),
    ensures
        raw(r) == s,
{
    lemma_header_rewritten(s, r.header);
    assert(raw(r) =~= s);
}

} // verus!
