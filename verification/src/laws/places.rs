//! Where the parts of a node stand in its bytes.

use vstd::prelude::*;
use crate::bytes::{le_bytes, le_value, lemma_le_value_of_bytes, lemma_pow256_values};
use crate::layout::{cat, lemma_cat_piece, lemma_image_lengths, lemma_slot_len, slot_parts};
use crate::node::{lemma_holds_offset, lemma_holds_regions, NodeView};
use crate::nonzero::or_zero;
use crate::raw::{lemma_header_bytes_len, narrow_fields, raw};
use crate::stitch::hi_bytes;
use crate::varint::{lemma_varint_bytes_len, varint_bytes};
use crate::writing::{lemma_key_piece, lemma_value_piece};

verus! {

/// The bytes behind the header start with the low key and then the high key.
pub proof fn bounds_stand_in_front(v: NodeView)
    requires
        v.bounded(),
    ensures
        v.lo().len() == v.header.lo_len,
        hi_bytes(v).len() == v.header.hi_len,
        v.buf.take(v.header.lo_len + v.header.hi_len) == v.lo() + hi_bytes(v),
        v.hi() is None <==> v.header.hi_len == 0,
        forall|i: int| 0 <= i < v.header.lo_len ==> #[trigger] v.lo()[i] == v.buf[i],
        v.hi() matches Some(hi) ==> forall|i: int|
            0 <= i < v.header.hi_len ==> #[trigger] hi[i] == v.buf[v.header.lo_len + i],
{
    assert(v.buf.take(v.header.lo_len + v.header.hi_len) =~= v.lo() + hi_bytes(v));
}

/// What the keys of a node leave out are the first bytes of its low key.
pub proof fn prefixes_start_the_low_key(v: NodeView)
    requires
        v.bounded(),
        v.has_prefix(),
    ensures
        v.prefix().len() == v.header.prefix_len,
        forall|i: int| 0 <= i < v.header.prefix_len ==> #[trigger] v.prefix()[i] == v.lo()[i],
{
    assert(v.lo().len() == v.header.lo_len);
}

/// Keys and values that all have one length stand in two rows behind the bounds.
pub proof fn fixed_items_stand_in_two_rows(v: NodeView, i: int)
    requires
        v.wf(),
        v.header.fixed_key_length is Some,
        v.header.fixed_value_length is Some,
        0 <= i < v.header.children,
    ensures
        ({
            let k = v.header.fixed_key_length->0@ as int;
            let x = v.header.fixed_value_length->0@ as int;
            let n = v.header.children as int;
            let keys = v.header.lo_len + v.header.hi_len;
            let values = keys + n * k;
            &&& v.header.offset_bytes == 0
            &&& v.buf.len() == values + n * x
            &&& v.items()[i].0 == v.buf.subrange(keys + i * k, keys + i * k + k)
            &&& v.items()[i].1 == v.buf.subrange(values + i * x, values + i * x + x)
        }),
{
    let items = v.items();
    lemma_holds_regions(v, items);
    lemma_no_slots(v);
    lemma_key_piece(v, items, i);
    lemma_value_piece(v, items, i);
    assert(v.header.children * v.header.offset_bytes == 0) by (nonlinear_arith)
        requires
            v.header.offset_bytes == 0,
    ;
    let k = v.header.fixed_key_length->0@;
    assert(k * v.header.children == v.header.children * k) by (nonlinear_arith);
}

proof fn lemma_no_slots(v: NodeView)
    requires
        v.wf(),
        v.header.fixed_key_length is Some,
        v.header.fixed_value_length is Some,
    ensures
        v.header.offset_bytes == 0,
        cat(slot_parts(v.header.shape(), v.items())).len() == 0,
{
    lemma_image_lengths(v.header.shape(), v.items());
}

/// Where keys have one length and values have not, the keys stand in a row behind the
/// offsets, and the offsets say where values start, each behind its length.
pub proof fn fixed_keys_stand_in_a_row(v: NodeView, i: int)
    requires
        v.wf(),
        v.header.fixed_key_length is Some,
        v.header.fixed_value_length is None,
        0 <= i < v.header.children,
    ensures
        ({
            let k = v.header.fixed_key_length->0@ as int;
            let n = v.header.children as int;
            let w = v.header.offset_bytes as int;
            let start = v.header.lo_len + v.header.hi_len;
            let keys = start + n * w;
            let x = v.items()[i].1;
            let at = keys + n * k + le_value(
                v.buf.subrange(start + i * w, start + i * w + w),
            );
            let end = at + varint_bytes(x.len()).len();
            &&& v.items()[i].0 == v.buf.subrange(keys + i * k, keys + i * k + k)
            &&& end + x.len() <= v.buf.len()
            &&& v.buf.subrange(at, end) == varint_bytes(x.len())
            &&& v.buf.subrange(end, end + x.len()) == x
        }),
{
    let items = v.items();
    lemma_holds_regions(v, items);
    lemma_key_piece(v, items, i);
    lemma_value_piece(v, items, i);
    let k = v.header.fixed_key_length->0@;
    assert(k * v.header.children == v.header.children * k) by (nonlinear_arith);
    lemma_behind_its_length(v.buf, v.value_pos(i), items[i].1);
}

/// What stands behind its length.
proof fn lemma_behind_its_length(buf: Seq<u8>, at: int, x: Seq<u8>)
    requires
        0 <= at,
        at + varint_bytes(x.len()).len() + x.len() <= buf.len(),
        buf.subrange(at, (at + varint_bytes(x.len()).len() + x.len()) as int) == varint_bytes(
            x.len(),
        ) + x,
    ensures
        ({
            let end = (at + varint_bytes(x.len()).len()) as int;
            &&& buf.subrange(at, end) == varint_bytes(x.len())
            &&& buf.subrange(end, (end + x.len()) as int) == x
        }),
{
    let n = varint_bytes(x.len()).len() as int;
    let whole = buf.subrange(at, at + n + x.len());
    assert(buf.subrange(at, at + n) =~= whole.take(n));
    assert(whole.take(n) =~= varint_bytes(x.len()));
    assert(buf.subrange(at + n, at + n + x.len()) =~= whole.skip(n));
    assert(whole.skip(n) =~= x);
}

/// Where values have one length and keys have not, the values stand in a row at the end,
/// and the offsets say where keys start, each behind its length.
pub proof fn fixed_values_stand_in_a_row(v: NodeView, i: int)
    requires
        v.wf(),
        v.header.fixed_key_length is None,
        v.header.fixed_value_length is Some,
        0 <= i < v.header.children,
    ensures
        ({
            let x = v.header.fixed_value_length->0@ as int;
            let n = v.header.children as int;
            let w = v.header.offset_bytes as int;
            let start = v.header.lo_len + v.header.hi_len;
            let values = v.buf.len() - n * x;
            let k = v.items()[i].0;
            let at = start + n * w + le_value(v.buf.subrange(start + i * w, start + i * w + w));
            let end = at + varint_bytes(k.len()).len();
            &&& v.items()[i].1 == v.buf.subrange(values + i * x, values + i * x + x)
            &&& end + k.len() <= v.buf.len()
            &&& v.buf.subrange(at, end) == varint_bytes(k.len())
            &&& v.buf.subrange(end, end + k.len()) == k
        }),
{
    let items = v.items();
    lemma_holds_regions(v, items);
    lemma_key_piece(v, items, i);
    lemma_value_piece(v, items, i);
    let x = v.header.fixed_value_length->0@;
    assert(x * v.header.children == v.header.children * x) by (nonlinear_arith);
    lemma_behind_its_length(v.buf, v.key_pos(i), items[i].0);
}

/// Where neither keys nor values have one length, the offsets say where keys start, each
/// behind its length, and the values follow, each behind its own.
pub proof fn varying_items_stand_in_slots(v: NodeView, i: int)
    requires
        v.wf(),
        v.header.fixed_key_length is None,
        v.header.fixed_value_length is None,
        0 <= i < v.header.children,
    ensures
        ({
            let n = v.header.children as int;
            let w = v.header.offset_bytes as int;
            let start = v.header.lo_len + v.header.hi_len;
            let k = v.items()[i].0;
            let x = v.items()[i].1;
            let at = start + n * w + le_value(v.buf.subrange(start + i * w, start + i * w + w));
            let key = at + varint_bytes(k.len()).len();
            let next = key + k.len();
            let value = next + varint_bytes(x.len()).len();
            &&& value + x.len() <= v.buf.len()
            &&& v.buf.subrange(at, key) == varint_bytes(k.len())
            &&& v.buf.subrange(key, next) == k
            &&& v.buf.subrange(next, value) == varint_bytes(x.len())
            &&& v.buf.subrange(value, value + x.len()) == x
        }),
{
    let items = v.items();
    lemma_holds_regions(v, items);
    lemma_key_piece(v, items, i);
    lemma_value_piece(v, items, i);
    lemma_behind_its_length(v.buf, v.key_pos(i), items[i].0);
    lemma_behind_its_length(v.buf, v.value_pos(i), items[i].1);
}

/// The slots stand one right behind the other: the first offset is zero, and each further
/// one is larger by what the slot in front of it takes.
pub proof fn slots_stand_back_to_back(v: NodeView, i: int)
    requires
        v.wf(),
        v.header.fixed_key_length is None || v.header.fixed_value_length is None,
        0 <= i < v.header.children,
    ensures
        ({
            let k = v.items()[i].0;
            let x = v.items()[i].1;
            let key = if v.header.fixed_key_length is None {
                varint_bytes(k.len()).len() + k.len()
            } else {
                0
            };
            let value = if v.header.fixed_value_length is None {
                varint_bytes(x.len()).len() + x.len()
            } else {
                0
            };
            let w = v.header.offset_bytes as int;
            let at = v.header.lo_len + v.header.hi_len + i * w;
            let offset = le_value(v.buf.subrange(at, at + w));
            &&& i == 0 ==> offset == 0
            &&& i + 1 < v.header.children ==> le_value(v.buf.subrange(at + w, at + w + w))
                == offset + key + value
        }),
{
    let items = v.items();
    let sh = v.header.shape();
    lemma_holds_offset(v, items, i);
    lemma_varint_bytes_len(items[i].0.len());
    lemma_varint_bytes_len(items[i].1.len());
    lemma_slot_len(sh, items[i]);
    lemma_cat_piece(slot_parts(sh, items), i);
    if i == 0 {
        assert(slot_parts(sh, items).take(0) =~= Seq::<Seq<u8>>::empty());
    }
    if i + 1 < v.header.children {
        let w = v.header.offset_bytes as int;
        assert((i + 1) * w == i * w + w) by (nonlinear_arith);
        lemma_holds_offset(v, items, i + 1);
    }
}

/// The places of the fields in the bytes of a node.
pub proof fn fields_stand_in_order(v: NodeView)
    requires
        v.padding.len() == 7,
    ensures
        v.byte_len() == 64 + v.buf.len(),
        raw(v).len() == 64 + v.buf.len(),
        v.header.next matches Some(n) ==> le_value(raw(v).subrange(0, 8)) == n@,
        v.header.next is None ==> le_value(raw(v).subrange(0, 8)) == 0,
        v.header.merging_child matches Some(n) ==> le_value(raw(v).subrange(8, 16)) == n@,
        v.header.merging_child is None ==> le_value(raw(v).subrange(8, 16)) == 0,
        le_value(raw(v).subrange(16, 24)) == v.header.lo_len,
        le_value(raw(v).subrange(24, 32)) == v.header.hi_len,
        v.header.fixed_key_length matches Some(n) ==> le_value(raw(v).subrange(32, 40)) == n@,
        v.header.fixed_key_length is None ==> le_value(raw(v).subrange(32, 40)) == 0,
        v.header.fixed_value_length matches Some(n) ==> le_value(raw(v).subrange(40, 48)) == n@,
        v.header.fixed_value_length is None ==> le_value(raw(v).subrange(40, 48)) == 0,
        le_value(raw(v).subrange(48, 50)) == v.header.children,
        raw(v)[50] == v.header.prefix_len,
        raw(v)[51] == v.header.probation_ops_remaining,
        raw(v)[52] == v.header.offset_bytes,
        raw(v)[53] == v.header.rewrite_generations,
        raw(v)[54] == v.header.activity_sketch,
        v.header.merging ==> raw(v)[55] == 1,
        !v.header.merging ==> raw(v)[55] == 0,
        v.header.is_index ==> raw(v)[56] == 1,
        !v.header.is_index ==> raw(v)[56] == 0,
        raw(v).subrange(57, 64) == v.padding,
        raw(v).skip(64) == v.buf,
{
    let h = v.header;
    let s = raw(v);
    let n = narrow_fields(h);
    lemma_header_bytes_len(h);
    lemma_pow256_values();
    lemma_le_value_of_bytes(or_zero(h.next) as nat, 8);
    lemma_le_value_of_bytes(or_zero(h.merging_child) as nat, 8);
    lemma_le_value_of_bytes(h.lo_len as nat, 8);
    lemma_le_value_of_bytes(h.hi_len as nat, 8);
    lemma_le_value_of_bytes(or_zero(h.fixed_key_length) as nat, 8);
    lemma_le_value_of_bytes(or_zero(h.fixed_value_length) as nat, 8);
    lemma_le_value_of_bytes(h.children as nat, 2);
    assert(s.subrange(0, 8) =~= le_bytes(or_zero(h.next) as nat, 8));
    assert(s.subrange(8, 16) =~= le_bytes(or_zero(h.merging_child) as nat, 8));
    assert(s.subrange(16, 24) =~= le_bytes(h.lo_len as nat, 8));
    assert(s.subrange(24, 32) =~= le_bytes(h.hi_len as nat, 8));
    assert(s.subrange(32, 40) =~= le_bytes(or_zero(h.fixed_key_length) as nat, 8));
    assert(s.subrange(40, 48) =~= le_bytes(or_zero(h.fixed_value_length) as nat, 8));
    assert(s.subrange(48, 50) =~= le_bytes(h.children as nat, 2));
    assert(s[50] == n[2] && s[51] == n[3] && s[52] == n[4] && s[53] == n[5] && s[54] == n[6]
        && s[55] == n[7] && s[56] == n[8]);
    assert(s.subrange(57, 64) =~= v.padding);
    assert(s.skip(64) =~= v.buf);
}

/// The header, the bounds and the items of a node leave none of its bytes open.
pub proof fn nothing_else_is_stored(v: NodeView, w: NodeView)
    requires
        v.wf(),
        w.wf(),
        v.header == w.header,
        v.lo() == w.lo(),
        v.hi() == w.hi(),
        v.items() == w.items(),
    ensures
        v.buf == w.buf,
{
    let d = v.header.data_start();
    bounds_stand_in_front(v);
    bounds_stand_in_front(w);
    assert(v.buf =~= v.buf.take(d) + v.buf.skip(d));
    assert(w.buf =~= w.buf.take(d) + w.buf.skip(d));
}

} // verus!
