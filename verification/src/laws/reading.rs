//! What is read off a node.

use vstd::prelude::*;
use crate::bytes::{le_value, splice};
use crate::create::{bytes_or_empty, item_views};
use crate::header::Header;
use crate::node::{stored, stored_len, NodeView};
use crate::order::{lemma_lex_total, lex_le, lex_lt};
use crate::printed::{optional_view, printed_header};
use crate::raw::{header_readable, reads_as};
use crate::search::{lemma_search, lemma_search_finds, search, slice_views, sorted};
use crate::stitch::item_view;
use crate::varint::{lemma_varint_bytes_len, lemma_varint_roundtrip, varint_bytes, varint_decode, varint_len};

verus! {

/// A byte string is read back from where it stands: of a given length, or behind its
/// length, whatever follows.
pub proof fn byte_strings_are_read_back(x: Seq<u8>, rest: Seq<u8>)
    requires
        x.len() <= u64::MAX,
    ensures
        stored(x + rest, Some(x.len())) == x,
        stored(varint_bytes(x.len()) + x + rest, None) == x,
        stored_len(varint_bytes(x.len()) + x + rest) == varint_bytes(x.len()).len() + x.len(),
{
    let n = x.len();
    let s = varint_bytes(n) + x + rest;
    lemma_varint_bytes_len(n);
    assert((x + rest).take(n as int) =~= x);
    assert(s.take(varint_len(n) as int) =~= varint_bytes(n));
    lemma_varint_roundtrip(n, s);
    assert(s.subrange(varint_len(n) as int, (varint_len(n) + n) as int) =~= x);
}

/// The whole keys are the stored ones behind the first bytes of the low key.
pub proof fn keys_are_the_first_parts_of_items(v: NodeView, i: int)
    requires
        0 <= i < v.header.children,
    ensures
        v.keys().len() == v.header.children,
        v.items().len() == v.header.children,
        v.keys()[i] == v.items()[i].0,
        v.full_key(i) == v.lo().take(v.header.prefix_len as int) + v.items()[i].0,
        v.entries()[i] == (v.full_key(i), v.items()[i].1),
        v.pid(i) == le_value(v.items()[i].1),
{
}

/// The bounds of a node let through what the low key is not above, and what is below the
/// high key or meets with none.
pub proof fn bounds_part_the_keys(v: NodeView, key: Seq<u8>)
    ensures
        v.in_bounds(key) <==> lex_le(v.buf.take(v.header.lo_len as int), key) && (v.header.hi_len
            == 0 || lex_lt(
            key,
            v.buf.subrange(v.header.lo_len as int, v.header.lo_len + v.header.hi_len),
        )),
{
}

/// Keys are sorted where each comes before all that follow.
pub proof fn sorted_keys_come_in_order(keys: Seq<Seq<u8>>)
    ensures
        sorted(keys) <==> forall|i: int, j: int|
            0 <= i < j < keys.len() ==> lex_lt(#[trigger] keys[i], #[trigger] keys[j]),
{
}

/// A search among sorted keys ends at the key, or else at the place that parts the smaller
/// keys from the larger ones.
pub proof fn searches_end_at_the_key(keys: Seq<Seq<u8>>, key: Seq<u8>, i: int)
    requires
        sorted(keys),
    ensures
        search(keys, key) == Ok::<int, int>(i) <==> 0 <= i < keys.len() && keys[i] == key,
        search(keys, key) == Err::<int, int>(i) <==> {
            &&& 0 <= i <= keys.len()
            &&& forall|j: int| 0 <= j < i ==> lex_lt(#[trigger] keys[j], key)
            &&& forall|j: int| i <= j < keys.len() ==> lex_lt(key, #[trigger] keys[j])
        },
{
    lemma_search(keys, key);
    if 0 <= i < keys.len() && keys[i] == key {
        lemma_search_finds(keys, i);
    }
    if 0 <= i <= keys.len() && (forall|j: int| 0 <= j < i ==> lex_lt(#[trigger] keys[j], key)) && (
    forall|j: int| i <= j < keys.len() ==> lex_lt(key, #[trigger] keys[j])) {
        match search(keys, key) {
            Ok(at) => {
                lemma_lex_total(keys[at], key);
            },
            Err(at) => {
                if at < i {
                    lemma_lex_total(keys[at], key);
                } else if i < at {
                    lemma_lex_total(keys[i], key);
                }
            },
        }
    }
}

/// Where the offsets stand, and where they or the lengths of the items lead to.
pub proof fn offsets_lead_to_items(v: NodeView, i: int)
    ensures
        ({
            let h = v.header;
            let start = h.lo_len + h.hi_len;
            let at = start + i * h.offset_bytes;
            let data = start + h.children * h.offset_bytes;
            let offset = le_value(v.buf.subrange(at, at + h.offset_bytes));
            &&& v.offset_pos(i) == at
            &&& v.slot_offset(i) == offset
            &&& h.fixed_key_length matches Some(k) ==> {
                &&& v.key_pos(i) == data + i * k@
                &&& v.values_pos() == data + k@ * h.children
                &&& h.fixed_value_length is None ==> v.value_pos(i) == v.values_pos() + offset
            }
            &&& h.fixed_key_length is None ==> v.key_pos(i) == data + offset
            &&& h.fixed_value_length matches Some(x) ==> {
                &&& h.fixed_key_length is None ==> v.values_pos() == v.buf.len() - x@ * h.children
                &&& v.value_pos(i) == v.values_pos() + i * x@
            }
            &&& h.fixed_key_length is None && h.fixed_value_length is None ==> {
                &&& v.values_pos() == data
                &&& varint_decode(v.buf.skip(data + offset)) matches Some((len, n))
                    ==> v.value_pos(i) == data + offset + n + len
            }
        }),
{
}

/// A write into part of a buffer changes that part alone.
pub proof fn writes_stay_in_their_part(s: Seq<u8>, pos: int, piece: Seq<u8>, i: int)
    requires
        0 <= pos,
        pos + piece.len() <= s.len(),
        0 <= i < s.len(),
    ensures
        splice(s, pos, piece).len() == s.len(),
        splice(s, pos, piece)[i] == if pos <= i < pos + piece.len() {
            piece[i - pos]
        } else {
            s[i]
        },
{
}

/// Bytes start with a header where there are at least 64 of them and the two flags are
/// zero or one, and each field is read from its own place.
pub proof fn fields_are_read_in_order(s: Seq<u8>, h: Header)
    requires
        s.len() >= 64,
    ensures
        header_readable(s) <==> s[55] <= 1 && s[56] <= 1,
        reads_as(s, h) ==> {
            &&& h.next matches Some(n) ==> n@ == le_value(s.subrange(0, 8))
            &&& h.next is None <==> le_value(s.subrange(0, 8)) == 0
            &&& h.merging_child matches Some(n) ==> n@ == le_value(s.subrange(8, 16))
            &&& h.merging_child is None <==> le_value(s.subrange(8, 16)) == 0
            &&& h.lo_len == le_value(s.subrange(16, 24))
            &&& h.hi_len == le_value(s.subrange(24, 32))
            &&& h.fixed_key_length matches Some(n) ==> n@ == le_value(s.subrange(32, 40))
            &&& h.fixed_key_length is None <==> le_value(s.subrange(32, 40)) == 0
            &&& h.fixed_value_length matches Some(n) ==> n@ == le_value(s.subrange(40, 48))
            &&& h.fixed_value_length is None <==> le_value(s.subrange(40, 48)) == 0
            &&& h.children == le_value(s.subrange(48, 50))
            &&& h.prefix_len == s[50]
            &&& h.probation_ops_remaining == s[51]
            &&& h.offset_bytes == s[52]
            &&& h.rewrite_generations == s[53]
            &&& h.activity_sketch == s[54]
            &&& h.merging <==> s[55] == 1
            &&& h.is_index <==> s[56] == 1
        },
{
}

/// Each field of a header is printed as it is.
pub proof fn headers_are_printed_field_by_field(h: Header)
    ensures
        ({
            let p = printed_header(h);
            &&& h.next matches Some(n) ==> p.next == Some(n@)
            &&& h.next is None ==> p.next is None
            &&& h.merging_child matches Some(n) ==> p.merging_child == Some(n@)
            &&& h.merging_child is None ==> p.merging_child is None
            &&& p.lo_len == h.lo_len
            &&& p.hi_len == h.hi_len
            &&& h.fixed_key_length matches Some(n) ==> p.fixed_key_length == Some(n@)
            &&& h.fixed_key_length is None ==> p.fixed_key_length is None
            &&& h.fixed_value_length matches Some(n) ==> p.fixed_value_length == Some(n@)
            &&& h.fixed_value_length is None ==> p.fixed_value_length is None
            &&& p.children == h.children
            &&& p.prefix_len == h.prefix_len
            &&& p.probation_ops_remaining == h.probation_ops_remaining
            &&& p.offset_bytes == h.offset_bytes
            &&& p.rewrite_generations == h.rewrite_generations
            &&& p.activity_sketch == h.activity_sketch
            &&& p.merging == h.merging
            &&& p.is_index == h.is_index
        }),
{
}

/// Items are taken as they are given, one by one.
pub proof fn items_are_taken_as_given(
    items: Seq<(&[u8], &[u8])>,
    keys: Seq<&[u8]>,
    hi: Option<&[u8]>,
)
    ensures
        item_views(items).len() == items.len(),
        forall|i: int|
            0 <= i < items.len() ==> #[trigger] item_views(items)[i] == (items[i].0@, items[i].1@),
        slice_views(keys).len() == keys.len(),
        forall|i: int| 0 <= i < keys.len() ==> #[trigger] slice_views(keys)[i] == keys[i]@,
        hi is None ==> bytes_or_empty(hi).len() == 0 && optional_view(hi) is None,
        hi matches Some(h) ==> bytes_or_empty(hi) == h@ && optional_view(hi) == Some(h@),
        item_view(None) is None,
        forall|i: int|
            0 <= i < items.len() ==> #[trigger] item_view(Some(items[i])) == Some(
                (items[i].0@, items[i].1@),
            ),
{
}

} // verus!
