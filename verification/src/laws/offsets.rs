//! The offset table.

use vstd::prelude::*;
use crate::bytes::{le_bytes, lemma_le_bytes_len, lemma_le_value_of_bytes, pow256, splice};
use crate::node::NodeView;

verus! {

/// An offset that fits its entry reads back as it was set.
pub proof fn offset_reads_back(v: NodeView, r: NodeView, index: int, offset: nat)
    requires
        v.bounded(),
        0 <= index,
        v.offset_pos(index) + v.header.offset_bytes <= v.buf.len(),
        offset < pow256(v.header.offset_bytes as nat),
        r.header == v.header,
        r.buf == splice(
            v.buf,
            v.offset_pos(index),
            le_bytes(offset, v.header.offset_bytes as nat),
        ),
    ensures
        r.slot_offset(index) == offset,
{
    let w = v.header.offset_bytes;
    let at = v.offset_pos(index);
    lemma_le_value_of_bytes(offset, w as nat);
    assert(0 <= index * w) by (nonlinear_arith)
        requires
            0 <= index,
    ;
    assert(r.buf.subrange(at, at + w) =~= le_bytes(offset, w as nat));
}

/// Setting an offset leaves all others, and all bytes beside it, as they were.
pub proof fn other_offsets_stay(v: NodeView, r: NodeView, index: int, offset: nat, other: int)
    requires
        v.bounded(),
        0 <= index,
        v.offset_pos(index) + v.header.offset_bytes <= v.buf.len(),
        0 <= other,
        other != index,
        v.offset_pos(other) + v.header.offset_bytes <= v.buf.len(),
        r.header == v.header,
        r.buf == splice(
            v.buf,
            v.offset_pos(index),
            le_bytes(offset, v.header.offset_bytes as nat),
        ),
    ensures
        r.slot_offset(other) == v.slot_offset(other),
        r.buf.len() == v.buf.len(),
        forall|p: int|
            0 <= p < v.buf.len() && !(v.offset_pos(index) <= p < v.offset_pos(index)
                + v.header.offset_bytes) ==> #[trigger] r.buf[p] == v.buf[p],
{
    let w = v.header.offset_bytes as int;
    let at = v.offset_pos(index);
    let pos = v.offset_pos(other);
    lemma_le_bytes_len(offset, w as nat);
    assert(0 <= index * w) by (nonlinear_arith)
        requires
            0 <= index,
            0 <= w,
    ;
    assert(0 <= other * w) by (nonlinear_arith)
        requires
            0 <= other,
            0 <= w,
    ;
    assert(other < index ==> other * w + w <= index * w) by (nonlinear_arith)
        requires
            0 <= w,
    ;
    assert(index < other ==> index * w + w <= other * w) by (nonlinear_arith)
        requires
            0 <= w,
    ;
    assert(r.buf.subrange(pos, pos + w) =~= v.buf.subrange(pos, pos + w));
}

} // verus!
