//! Filling in the bytes of a node piece by piece.

use vstd::prelude::*;
use crate::bytes::{copy_prefix, le_bytes, lemma_le_bytes_len, splice, tail_mut};
use crate::layout::{cat, fits, image, key_parts, lemma_cat_piece, lemma_cat_uniform, lemma_image_lengths, lemma_image_pieces, lemma_slot_len, offset_parts, prefixed, slot, slot_parts, slot_start, value_parts, Shape};
use crate::node::{lemma_holds_key, lemma_holds_offset, lemma_holds_regions, lemma_holds_slot, lemma_holds_value, lemma_stored_prefixed, Node, NodeView};
use crate::varint;
use crate::varint::lemma_varint_bytes_len;

verus! {

/// Whether `a` and `b` hold the same `len` bytes from `pos` on.
#[verifier::opaque]
pub open spec fn agree(a: Seq<u8>, b: Seq<u8>, pos: int, len: int) -> bool {
    &&& 0 <= pos
    &&& pos + len <= a.len()
    &&& pos + len <= b.len()
    &&& forall|p: int| #![trigger a[p]] pos <= p < pos + len ==> a[p] == b[p]
}

/// Whether `after` agrees with `t` wherever `before` does.
pub open spec fn keeps(before: Seq<u8>, after: Seq<u8>, t: Seq<u8>) -> bool {
    forall|pos: int, len: int|
        agree(before, t, pos, len) ==> #[trigger] agree(after, t, pos, len)
}

/// How a key is written at its place.
pub open spec fn key_piece(sh: Shape, key: Seq<u8>) -> Seq<u8> {
    if sh.key_len is None {
        prefixed(key)
    } else {
        key
    }
}

/// How a value is written at its place.
pub open spec fn value_piece(sh: Shape, value: Seq<u8>) -> Seq<u8> {
    if sh.value_len is None {
        prefixed(value)
    } else {
        value
    }
}

/// Whether `buf` has entry `i` of the offset table as `t` has it.
pub open spec fn offset_done(buf: Seq<u8>, t: NodeView, i: int) -> bool {
    agree(buf, t.buf, t.offset_pos(i), t.header.offset_bytes as int)
}

/// Whether `buf` has key `i` as `t` has it.
pub open spec fn key_done(
    buf: Seq<u8>,
    t: NodeView,
    items: Seq<(Seq<u8>, Seq<u8>)>,
    i: int,
) -> bool {
    agree(buf, t.buf, t.key_pos(i), key_piece(t.header.shape(), items[i].0).len() as int)
}

/// Whether `buf` has value `i` as `t` has it.
pub open spec fn value_done(
    buf: Seq<u8>,
    t: NodeView,
    items: Seq<(Seq<u8>, Seq<u8>)>,
    i: int,
) -> bool {
    agree(buf, t.buf, t.value_pos(i), value_piece(t.header.shape(), items[i].1).len() as int)
}

/// To write what `t` has at a place keeps all agreement and adds that place.
pub proof fn lemma_write_agree(
    before: Seq<u8>,
    after: Seq<u8>,
    t: Seq<u8>,
    pos: int,
    piece: Seq<u8>,
)
    requires
        before.len() == t.len(),
        0 <= pos,
        pos + piece.len() <= t.len(),
        after == splice(before, pos, piece),
        t.subrange(pos, pos + piece.len()) == piece,
    ensures
        after.len() == t.len(),
        agree(after, t, pos, piece.len() as int),
        keeps(before, after, t),
{
    reveal(agree);
    assert forall|p: int| 0 <= p < t.len() implies #[trigger] after[p] == if pos <= p < pos
        + piece.len() {
        t[p]
    } else {
        before[p]
    } by {
        if pos <= p < pos + piece.len() {
            assert(t.subrange(pos, pos + piece.len())[p - pos] == t[p]);
        }
    }
    assert forall|p: int, l: int| agree(before, t, p, l) implies #[trigger] agree(
        after,
        t,
        p,
        l,
    ) by {
        assert forall|q: int| #![trigger after[q]] p <= q < p + l implies after[q] == t[q] by {
            assert(before[q] == t[q]);
        }
    }
}

/// The bytes that stand at the place of key `i`.
pub proof fn lemma_key_piece(v: NodeView, items: Seq<(Seq<u8>, Seq<u8>)>, i: int)
    requires
        v.holds(items),
        0 <= i < items.len(),
    ensures
        ({
            let p = key_piece(v.header.shape(), items[i].0);
            &&& v.header.data_start() <= v.key_pos(i)
            &&& v.key_pos(i) + p.len() <= v.buf.len()
            &&& v.buf.subrange(v.key_pos(i), v.key_pos(i) + p.len()) == p
        }),
{
    let sh = v.header.shape();
    lemma_holds_key(v, items, i);
    lemma_holds_regions(v, items);
    let p = key_piece(sh, items[i].0);
    if sh.key_len is Some {
        assert(v.buf.subrange(v.key_pos(i), v.key_pos(i) + p.len()) =~= v.key(i));
    } else {
        lemma_holds_slot(v, items, i);
        let sl = slot(sh, items[i]);
        let s = v.key_pos(i);
        assert(items.len() * sh.key_stride() == 0);
        assert(v.buf.subrange(s, s + p.len()) =~= v.buf.subrange(s, s + sl.len()).take(
            p.len() as int,
        ));
        assert(sl.take(p.len() as int) =~= p);
    }
}

/// The bytes that stand at the place of value `i`.
#[verifier::rlimit(40)]
pub proof fn lemma_value_piece(v: NodeView, items: Seq<(Seq<u8>, Seq<u8>)>, i: int)
    requires
        v.holds(items),
        0 <= i < items.len(),
    ensures
        ({
            let p = value_piece(v.header.shape(), items[i].1);
            &&& v.header.data_start() <= v.value_pos(i)
            &&& v.value_pos(i) + p.len() <= v.buf.len()
            &&& v.buf.subrange(v.value_pos(i), v.value_pos(i) + p.len()) == p
            &&& v.header.fixed_value_length is None ==> v.value_pos(i) == v.values_pos()
                + v.slot_offset(i) + (if v.header.fixed_key_length is None {
                prefixed(items[i].0).len() as int
            } else {
                0
            })
        }),
{
    let sh = v.header.shape();
    lemma_holds_value(v, items, i);
    lemma_holds_regions(v, items);
    let p = value_piece(sh, items[i].1);
    if sh.value_len is Some {
        assert(v.buf.subrange(v.value_pos(i), v.value_pos(i) + p.len()) =~= v.value(i));
    } else {
        lemma_holds_slot(v, items, i);
        let sl = slot(sh, items[i]);
        let s = v.values_pos() + v.slot_offset(i);
        let skip: int = if sh.key_len is None {
            let y = prefixed(items[i].0);
            let w = v.buf.skip(s);
            assert(w.take(y.len() as int) =~= v.buf.subrange(s, s + sl.len()).take(y.len() as int));
            assert(sl.take(y.len() as int) =~= y);
            lemma_stored_prefixed(w, items[i].0);
            y.len() as int
        } else {
            0
        };
        assert(v.value_pos(i) == s + skip);
        assert(sl.skip(skip) =~= p);
        assert(v.buf.subrange(s + skip, s + skip + p.len()) =~= v.buf.subrange(
            s,
            s + sl.len(),
        ).skip(skip));
    }
}

/// The bytes that stand at entry `i` of the offset table.
pub proof fn lemma_offset_piece(v: NodeView, items: Seq<(Seq<u8>, Seq<u8>)>, i: int)
    requires
        v.holds(items),
        0 <= i < items.len(),
    ensures
        ({
            let sh = v.header.shape();
            let p = le_bytes(slot_start(sh, items, i), sh.offset_bytes);
            &&& v.header.data_start() <= v.offset_pos(i)
            &&& p.len() == v.header.offset_bytes
            &&& v.offset_pos(i) + p.len() <= v.buf.len()
            &&& v.buf.subrange(v.offset_pos(i), v.offset_pos(i) + p.len()) == p
        }),
{
    let sh = v.header.shape();
    let d = v.header.data_start();
    lemma_holds_regions(v, items);
    lemma_image_pieces(sh, items, i);
    lemma_le_bytes_len(slot_start(sh, items, i), sh.offset_bytes);
    let o = i * sh.offset_bytes;
    assert(v.buf.subrange(d + o, d + o + sh.offset_bytes) =~= v.buf.skip(d).subrange(
        o,
        o + sh.offset_bytes,
    ));
}

/// Agreement in front of `m` is agreement of what stands in front of `m`.
proof fn lemma_agree_take(a: Seq<u8>, b: Seq<u8>, pos: int, len: int, m: int)
    requires
        agree(a, b, pos, len),
        0 <= len,
        pos + len <= m <= a.len(),
        m <= b.len(),
    ensures
        agree(a.take(m), b.take(m), pos, len),
{
    reveal(agree);
    assert forall|p: int| #![trigger a.take(m)[p]] pos <= p < pos + len implies a.take(m)[p]
        == b.take(m)[p] by {
        assert(a[p] == b[p]);
    }
}

/// Bytes that have each piece at its place are the pieces one after the other.
pub proof fn lemma_cat_from_pieces(s: Seq<u8>, parts: Seq<Seq<u8>>)
    requires
        s.len() == cat(parts).len(),
        forall|i: int|
            #![trigger parts[i]]
            0 <= i < parts.len() ==> agree(
                s,
                cat(parts),
                cat(parts.take(i)).len() as int,
                parts[i].len() as int,
            ),
    ensures
        s == cat(parts),
    decreases parts.len(),
{
    if parts.len() == 0 {
        assert(s =~= cat(parts));
    } else {
        let n = parts.len() - 1;
        let init = parts.drop_last();
        let m = cat(init).len() as int;
        let c = cat(parts);
        assert(parts.take(n) =~= init);
        assert(agree(s, c, m, parts[n].len() as int));
        assert(m + parts[n].len() <= s.len()) by {
            reveal(agree);
        }
        assert(c == cat(init) + parts[n]);
        assert(c.take(m) =~= cat(init));
        assert(s.take(m) == cat(init)) by {
            assert forall|i: int| #![trigger init[i]] 0 <= i < init.len() implies agree(
                s.take(m),
                cat(init),
                cat(init.take(i)).len() as int,
                init[i].len() as int,
            ) by {
                assert(parts[i] == init[i]);
                assert(init.take(i) =~= parts.take(i));
                lemma_cat_piece(init, i);
                lemma_agree_take(s, c, cat(init.take(i)).len() as int, init[i].len() as int, m);
            }
            lemma_cat_from_pieces(s.take(m), init);
        }
        assert(s.skip(m) =~= c.skip(m)) by {
            reveal(agree);
            assert forall|p: int| 0 <= p < s.len() - m implies s.skip(m)[p] == c.skip(m)[p] by {
                assert(s[p + m] == c[p + m]);
            }
        }
        assert(s =~= s.take(m) + s.skip(m));
        assert(c =~= c.take(m) + c.skip(m));
    }
}

/// Agreement within a part of the bytes.
proof fn lemma_agree_within(a: Seq<u8>, b: Seq<u8>, pos: int, len: int, from: int, to: int)
    requires
        agree(a, b, pos, len),
        0 <= from <= pos,
        pos + len <= to <= a.len(),
        to <= b.len(),
        0 <= len,
    ensures
        agree(a.subrange(from, to), b.subrange(from, to), pos - from, len),
{
    reveal(agree);
    assert forall|p: int|
        #![trigger a.subrange(from, to)[p]]
        pos - from <= p < pos - from + len implies a.subrange(from, to)[p] == b.subrange(
        from,
        to,
    )[p] by {
        assert(a[p + from] == b[p + from]);
    }
}

/// The bytes of the four regions.
#[verifier::rlimit(40)]
pub proof fn lemma_region_bytes(t: NodeView, items: Seq<(Seq<u8>, Seq<u8>)>)
    requires
        t.holds(items),
    ensures
        ({
            let sh = t.header.shape();
            let n = items.len() as int;
            let d = t.header.data_start();
            let k = d + n * sh.offset_bytes;
            let s = k + n * sh.key_stride();
            let v = s + cat(slot_parts(sh, items)).len();
            let e = v + n * sh.value_stride();
            &&& d <= k <= s <= v <= e
            &&& e == t.buf.len()
            &&& t.buf.subrange(d, k) == cat(offset_parts(sh, items))
            &&& t.buf.subrange(k, s) == cat(key_parts(sh, items))
            &&& t.buf.subrange(s, v) == cat(slot_parts(sh, items))
            &&& t.buf.subrange(v, e) == cat(value_parts(sh, items))
        }),
{
    let sh = t.header.shape();
    let n = items.len() as int;
    lemma_holds_regions(t, items);
    lemma_image_lengths(sh, items);
    let d = t.header.data_start();
    let k = d + n * sh.offset_bytes;
    let s = k + n * sh.key_stride();
    let v = s + cat(slot_parts(sh, items)).len();
    let e = v + n * sh.value_stride();
    let im = image(sh, items);
    assert(t.buf.subrange(d, k) =~= im.subrange(0, k - d));
    assert(im.subrange(0, k - d) =~= cat(offset_parts(sh, items)));
    assert(t.buf.subrange(k, s) =~= im.subrange(k - d, s - d));
    assert(im.subrange(k - d, s - d) =~= cat(key_parts(sh, items)));
    assert(t.buf.subrange(s, v) =~= im.subrange(s - d, v - d));
    assert(im.subrange(s - d, v - d) =~= cat(slot_parts(sh, items)));
    assert(t.buf.subrange(v, e) =~= im.subrange(v - d, e - d));
    assert(im.subrange(v - d, e - d) =~= cat(value_parts(sh, items)));
}

/// Bytes that have every entry of the offset table as `t` has it.
proof fn lemma_offsets_region(buf: Seq<u8>, t: NodeView, items: Seq<(Seq<u8>, Seq<u8>)>)
    requires
        t.holds(items),
        buf.len() == t.buf.len(),
        forall|i: int| 0 <= i < items.len() ==> #[trigger] offset_done(buf, t, i),
    ensures
        ({
            let d = t.header.data_start();
            let k = d + items.len() * t.header.shape().offset_bytes;
            buf.subrange(d, k) == t.buf.subrange(d, k)
        }),
{
    let sh = t.header.shape();
    let d = t.header.data_start();
    let k = d + items.len() * sh.offset_bytes;
    let offs = offset_parts(sh, items);
    lemma_region_bytes(t, items);
    assert forall|i: int| #![trigger offs[i]] 0 <= i < offs.len() implies agree(
        buf.subrange(d, k),
        cat(offs),
        cat(offs.take(i)).len() as int,
        offs[i].len() as int,
    ) by {
        lemma_part_start(sh, items, i);
        assert(offset_done(buf, t, i));
        lemma_agree_within(buf, t.buf, t.offset_pos(i), offs[i].len() as int, d, k);
    }
    lemma_cat_from_pieces(buf.subrange(d, k), offs);
}

/// Bytes that have every key as `t` has it.
proof fn lemma_keys_region(buf: Seq<u8>, t: NodeView, items: Seq<(Seq<u8>, Seq<u8>)>)
    requires
        t.holds(items),
        buf.len() == t.buf.len(),
        forall|i: int| 0 <= i < items.len() ==> #[trigger] key_done(buf, t, items, i),
    ensures
        ({
            let sh = t.header.shape();
            let k = t.header.data_start() + items.len() * sh.offset_bytes;
            let s = k + items.len() * sh.key_stride();
            buf.subrange(k, s) == t.buf.subrange(k, s)
        }),
{
    let sh = t.header.shape();
    let k = t.header.data_start() + items.len() * sh.offset_bytes;
    let s = k + items.len() * sh.key_stride();
    let kp = key_parts(sh, items);
    lemma_region_bytes(t, items);
    lemma_holds_regions(t, items);
    if sh.key_len is None {
        assert(items.len() * sh.key_stride() == 0) by (nonlinear_arith)
            requires
                sh.key_stride() == 0,
        ;
        assert(buf.subrange(k, s) =~= t.buf.subrange(k, s));
    } else {
        assert forall|i: int| #![trigger kp[i]] 0 <= i < kp.len() implies agree(
            buf.subrange(k, s),
            cat(kp),
            cat(kp.take(i)).len() as int,
            kp[i].len() as int,
        ) by {
            lemma_part_start(sh, items, i);
            assert(key_done(buf, t, items, i));
            lemma_agree_within(buf, t.buf, t.key_pos(i), kp[i].len() as int, k, s);
        }
        lemma_cat_from_pieces(buf.subrange(k, s), kp);
    }
}

/// Bytes that have every value as `t` has it.
proof fn lemma_values_region(buf: Seq<u8>, t: NodeView, items: Seq<(Seq<u8>, Seq<u8>)>)
    requires
        t.holds(items),
        buf.len() == t.buf.len(),
        forall|i: int| 0 <= i < items.len() ==> #[trigger] value_done(buf, t, items, i),
    ensures
        ({
            let sh = t.header.shape();
            let e = t.buf.len() as int;
            let v = e - items.len() * sh.value_stride();
            buf.subrange(v, e) == t.buf.subrange(v, e)
        }),
{
    let sh = t.header.shape();
    let e = t.buf.len() as int;
    let v = e - items.len() * sh.value_stride();
    let vp = value_parts(sh, items);
    lemma_region_bytes(t, items);
    lemma_holds_regions(t, items);
    if sh.value_len is None {
        assert(items.len() * sh.value_stride() == 0) by (nonlinear_arith)
            requires
                sh.value_stride() == 0,
        ;
        assert(buf.subrange(v, e) =~= t.buf.subrange(v, e));
    } else {
        assert forall|i: int| #![trigger vp[i]] 0 <= i < vp.len() implies agree(
            buf.subrange(v, e),
            cat(vp),
            cat(vp.take(i)).len() as int,
            vp[i].len() as int,
        ) by {
            lemma_part_start(sh, items, i);
            assert(value_done(buf, t, items, i));
            lemma_agree_within(buf, t.buf, t.value_pos(i), vp[i].len() as int, v, e);
        }
        lemma_cat_from_pieces(buf.subrange(v, e), vp);
    }
}

/// Bytes that have every slot as `t` has it.
proof fn lemma_slots_region(buf: Seq<u8>, t: NodeView, items: Seq<(Seq<u8>, Seq<u8>)>)
    requires
        t.holds(items),
        buf.len() == t.buf.len(),
        forall|i: int| 0 <= i < items.len() ==> #[trigger] key_done(buf, t, items, i),
        forall|i: int| 0 <= i < items.len() ==> #[trigger] value_done(buf, t, items, i),
    ensures
        ({
            let sh = t.header.shape();
            let s = t.header.data_start() + items.len() * sh.offset_bytes + items.len()
                * sh.key_stride();
            let v = s + cat(slot_parts(sh, items)).len();
            buf.subrange(s, v) == t.buf.subrange(s, v)
        }),
{
    let sh = t.header.shape();
    let s = t.header.data_start() + items.len() * sh.offset_bytes + items.len() * sh.key_stride();
    let sp = slot_parts(sh, items);
    let v = s + cat(sp).len();
    lemma_region_bytes(t, items);
    assert forall|i: int| #![trigger sp[i]] 0 <= i < sp.len() implies agree(
        buf.subrange(s, v),
        cat(sp),
        cat(sp.take(i)).len() as int,
        sp[i].len() as int,
    ) by {
        assert(key_done(buf, t, items, i));
        assert(value_done(buf, t, items, i));
        lemma_slot_done(buf, t, items, i);
        lemma_cat_piece(sp, i);
        lemma_agree_within(buf, t.buf, s + slot_start(sh, items, i), sp[i].len() as int, s, v);
    }
    lemma_cat_from_pieces(buf.subrange(s, v), sp);
}

/// Bytes that have the bounds, the offsets, the keys and the values as `t` has them
/// are those of `t`.
pub proof fn lemma_all_done(buf: Seq<u8>, t: NodeView, items: Seq<(Seq<u8>, Seq<u8>)>)
    requires
        t.holds(items),
        buf.len() == t.buf.len(),
        agree(buf, t.buf, 0, t.header.data_start()),
        forall|i: int| 0 <= i < items.len() ==> #[trigger] offset_done(buf, t, i),
        forall|i: int| 0 <= i < items.len() ==> #[trigger] key_done(buf, t, items, i),
        forall|i: int| 0 <= i < items.len() ==> #[trigger] value_done(buf, t, items, i),
    ensures
        buf == t.buf,
{
    let sh = t.header.shape();
    let n = items.len() as int;
    let d = t.header.data_start();
    lemma_region_bytes(t, items);
    lemma_offsets_region(buf, t, items);
    lemma_keys_region(buf, t, items);
    lemma_slots_region(buf, t, items);
    lemma_values_region(buf, t, items);
    let k = d + n * sh.offset_bytes;
    let s = k + n * sh.key_stride();
    let v = s + cat(slot_parts(sh, items)).len();
    let e = t.buf.len() as int;
    assert forall|p: int| 0 <= p < buf.len() implies buf[p] == t.buf[p] by {
        reveal(agree);
        if p < d {
        } else if p < k {
            assert(buf.subrange(d, k)[p - d] == t.buf.subrange(d, k)[p - d]);
        } else if p < s {
            assert(buf.subrange(k, s)[p - k] == t.buf.subrange(k, s)[p - k]);
        } else if p < v {
            assert(buf.subrange(s, v)[p - s] == t.buf.subrange(s, v)[p - s]);
        } else {
            assert(buf.subrange(v, e)[p - v] == t.buf.subrange(v, e)[p - v]);
        }
    }
    assert(buf =~= t.buf);
}

/// Where the pieces of item `i` start in the regions of pieces of one length.
pub proof fn lemma_part_start(sh: Shape, items: Seq<(Seq<u8>, Seq<u8>)>, i: int)
    requires
        fits(sh, items),
        0 <= i < items.len(),
    ensures
        ({
            let n = items.len();
            &&& cat(offset_parts(sh, items).take(i)).len() == i * sh.offset_bytes
            &&& cat(key_parts(sh, items).take(i)).len() == i * sh.key_stride()
            &&& cat(value_parts(sh, items).take(i)).len() == i * sh.value_stride()
            &&& offset_parts(sh, items)[i].len() == sh.offset_bytes
            &&& key_parts(sh, items)[i].len() == sh.key_stride()
            &&& value_parts(sh, items)[i].len() == sh.value_stride()
            &&& 0 <= i * sh.offset_bytes && i * sh.offset_bytes + sh.offset_bytes <= n
                * sh.offset_bytes
            &&& 0 <= i * sh.key_stride() && i * sh.key_stride() + sh.key_stride() <= n
                * sh.key_stride()
            &&& 0 <= i * sh.value_stride() && i * sh.value_stride() + sh.value_stride() <= n
                * sh.value_stride()
        }),
{
    lemma_image_lengths(sh, items);
    lemma_image_pieces(sh, items, i);
    let offs = offset_parts(sh, items);
    assert forall|j: int| 0 <= j < items.len() implies (#[trigger] offs[j]).len()
        == sh.offset_bytes by {
        lemma_le_bytes_len(slot_start(sh, items, j), sh.offset_bytes);
    }
    lemma_cat_uniform(offs.take(i), sh.offset_bytes);
    assert(offs[i].len() == sh.offset_bytes);
    assert(cat(offs.take(i)).len() == i * sh.offset_bytes);
    let kp = key_parts(sh, items);
    assert forall|j: int| 0 <= j < items.len() implies (#[trigger] kp[j]).len()
        == sh.key_stride() by {
        assert(items[j].0.len() >= 0);
    }
    assert(kp[i].len() == sh.key_stride());
    lemma_cat_uniform(kp.take(i), sh.key_stride());
    assert(cat(kp.take(i)).len() == i * sh.key_stride());
    let vp = value_parts(sh, items);
    assert forall|j: int| 0 <= j < items.len() implies (#[trigger] vp[j]).len()
        == sh.value_stride() by {
        assert(items[j].1.len() >= 0);
    }
    assert(vp[i].len() == sh.value_stride());
    lemma_cat_uniform(vp.take(i), sh.value_stride());
    assert(cat(vp.take(i)).len() == i * sh.value_stride());
}

/// A slot is as in `t` where its key and its value are.
proof fn lemma_slot_done(buf: Seq<u8>, t: NodeView, items: Seq<(Seq<u8>, Seq<u8>)>, i: int)
    requires
        t.holds(items),
        buf.len() == t.buf.len(),
        0 <= i < items.len(),
        key_done(buf, t, items, i),
        value_done(buf, t, items, i),
    ensures
        ({
            let sh = t.header.shape();
            let s = t.header.data_start() + items.len() * sh.offset_bytes + items.len()
                * sh.key_stride();
            agree(
                buf,
                t.buf,
                s + slot_start(sh, items, i),
                slot(sh, items[i]).len() as int,
            )
        }),
{
    let sh = t.header.shape();
    lemma_holds_regions(t, items);
    lemma_image_pieces(sh, items, i);
    lemma_slot_len(sh, items[i]);
    lemma_varint_bytes_len(items[i].0.len());
    lemma_varint_bytes_len(items[i].1.len());
    lemma_value_piece(t, items, i);
    reveal(agree);
    if t.header.offset_bytes > 0 {
        lemma_holds_offset(t, items, i);
        if sh.key_len is None {
            assert(items.len() * sh.key_stride() == 0) by (nonlinear_arith)
                requires
                    sh.key_stride() == 0,
            ;
        }
    }
}

impl Node {
    /// Writes a key, with its length in front where keys have different lengths, to
    /// the place of key `index`.
    pub(crate) fn write_key(&mut self, index: usize, key: &[u8])
        requires
            old(self)@.bounded(),
            old(self)@.header.fixed_key_length is None ==> old(self)@.offset_readable(index as int),
            0 <= old(self)@.key_pos(index as int),
            old(self)@.key_pos(index as int) + key_piece(old(self)@.header.shape(), key@).len()
                <= old(self)@.buf.len(),
        ensures
            final(self)@.header == old(self)@.header,
            final(self)@.padding == old(self)@.padding,
            final(self)@.buf == splice(
                old(self)@.buf,
                old(self)@.key_pos(index as int),
                key_piece(old(self)@.header.shape(), key@),
            ),
    {
        let ghost p = self@.key_pos(index as int);
        let ghost before = self@.buf;
        let ghost sh = self@.header.shape();
        proof {
            lemma_varint_bytes_len(key@.len());
        }
        let varying = self.header.fixed_key_length.is_none();
        let mut key_buf = self.key_buf_for_offset_mut(index);
        if varying {
            let varint_bytes = varint::serialize_into(key.len() as u64, key_buf);
            key_buf = tail_mut(key_buf, varint_bytes);
        }
        copy_prefix(key_buf, key);
        assert(self@.buf =~= splice(before, p, key_piece(sh, key@)));
    }

    /// Writes a value, with its length in front where values have different lengths,
    /// to the place of value `index`.
    pub(crate) fn write_value(&mut self, index: usize, value: &[u8])
        requires
            old(self)@.value_findable(index as int),
            0 <= old(self)@.value_pos(index as int),
            old(self)@.value_pos(index as int) + value_piece(
                old(self)@.header.shape(),
                value@,
            ).len() <= old(self)@.buf.len(),
        ensures
            final(self)@.header == old(self)@.header,
            final(self)@.padding == old(self)@.padding,
            final(self)@.buf == splice(
                old(self)@.buf,
                old(self)@.value_pos(index as int),
                value_piece(old(self)@.header.shape(), value@),
            ),
    {
        let ghost p = self@.value_pos(index as int);
        let ghost before = self@.buf;
        let ghost sh = self@.header.shape();
        proof {
            lemma_varint_bytes_len(value@.len());
        }
        let varying = self.header.fixed_value_length.is_none();
        let mut value_buf = self.value_buf_for_offset_mut(index);
        if varying {
            let varint_bytes = varint::serialize_into(value.len() as u64, value_buf);
            value_buf = tail_mut(value_buf, varint_bytes);
        }
        copy_prefix(value_buf, value);
        assert(self@.buf =~= splice(before, p, value_piece(sh, value@)));
    }
}

/// There is nothing to write of an offset table that is not there.
pub proof fn lemma_no_offset(
    buf: Seq<u8>,
    t: NodeView,
    items: Seq<(Seq<u8>, Seq<u8>)>,
    i: int,
)
    requires
        t.holds(items),
        t.header.offset_bytes == 0,
        buf.len() == t.buf.len(),
        0 <= i < items.len(),
    ensures
        offset_done(buf, t, i),
{
    lemma_offset_piece(t, items, i);
    reveal(agree);
}

/// Bytes with the same front agree there.
pub proof fn lemma_same_head(a: Seq<u8>, b: Seq<u8>, len: int)
    requires
        0 <= len <= a.len(),
        len <= b.len(),
        a.take(len) == b.take(len),
    ensures
        agree(a, b, 0, len),
{
    reveal(agree);
    assert forall|p: int| #![trigger a[p]] 0 <= p < len implies a[p] == b[p] by {
        assert(a.take(len)[p] == a[p]);
        assert(b.take(len)[p] == b[p]);
    }
}

/// Bytes that are equal agree.
pub proof fn lemma_agree_equal(a: Seq<u8>, b: Seq<u8>, pos: int, len: int)
    requires
        0 <= pos,
        0 <= len,
        pos + len <= a.len(),
        pos + len <= b.len(),
        a.subrange(pos, pos + len) == b.subrange(pos, pos + len),
    ensures
        agree(a, b, pos, len),
{
    reveal(agree);
    assert forall|p: int| #![trigger a[p]] pos <= p < pos + len implies a[p] == b[p] by {
        assert(a.subrange(pos, pos + len)[p - pos] == a[p]);
        assert(b.subrange(pos, pos + len)[p - pos] == b[p]);
    }
}

/// Agreement next to agreement.
pub proof fn lemma_agree_join(a: Seq<u8>, b: Seq<u8>, pos: int, l1: int, l2: int)
    requires
        agree(a, b, pos, l1),
        agree(a, b, pos + l1, l2),
    ensures
        agree(a, b, pos, l1 + l2),
{
    reveal(agree);
}

/// Agreement within agreement.
pub proof fn lemma_agree_part(a: Seq<u8>, b: Seq<u8>, pos: int, len: int, p: int, l: int)
    requires
        agree(a, b, pos, len),
        pos <= p,
        p + l <= pos + len,
    ensures
        agree(a, b, p, l),
{
    reveal(agree);
}

/// Where entry `i` of the offset table is as in `t`, keys are placed as in `t`.
pub proof fn lemma_key_place(v: NodeView, t: NodeView, items: Seq<(Seq<u8>, Seq<u8>)>, i: int)
    requires
        t.holds(items),
        0 <= i < items.len(),
        v.header == t.header,
        v.buf.len() == t.buf.len(),
        offset_done(v.buf, t, i),
    ensures
        v.key_pos(i) == t.key_pos(i),
        v.header.offset_bytes > 0 ==> v.offset_readable(i),
        v.header.offset_bytes > 0 ==> v.slot_offset(i) == t.slot_offset(i),
        v.values_pos() == t.values_pos(),
        v.bounded(),
{
    lemma_offset_piece(t, items, i);
    reveal(agree);
    let o = t.offset_pos(i);
    let w = t.header.offset_bytes;
    assert(v.buf.subrange(o, o + w) =~= t.buf.subrange(o, o + w));
    if w > 0 {
        lemma_holds_offset(t, items, i);
    }
}

/// Where the offset and the key of item `i` are as in `t`, so is the place of its
/// value.
pub proof fn lemma_value_place(v: NodeView, t: NodeView, items: Seq<(Seq<u8>, Seq<u8>)>, i: int)
    requires
        t.holds(items),
        0 <= i < items.len(),
        v.header == t.header,
        v.buf.len() == t.buf.len(),
        offset_done(v.buf, t, i),
        key_done(v.buf, t, items, i),
    ensures
        v.value_pos(i) == t.value_pos(i),
        v.value_findable(i),
{
    lemma_key_place(v, t, items, i);
    lemma_holds_value(t, items, i);
    lemma_value_piece(t, items, i);
    lemma_holds_regions(t, items);
    let sh = t.header.shape();
    if sh.key_len is None && sh.value_len is None {
        lemma_key_piece(t, items, i);
        let y = prefixed(items[i].0);
        let s = t.key_pos(i);
        assert(items.len() * sh.key_stride() == 0);
        assert(t.values_pos() + t.slot_offset(i) == s);
        reveal(agree);
        assert(v.buf.skip(s).take(y.len() as int) =~= t.buf.subrange(s, s + y.len()));
        lemma_stored_prefixed(v.buf.skip(s), items[i].0);
    }
}

impl Node {
    /// Sets entry `i` of the offset table as `t` has it.
    pub(crate) fn put_offset(
        &mut self,
        i: usize,
        offset: usize,
        Ghost(t): Ghost<NodeView>,
        Ghost(items): Ghost<Seq<(Seq<u8>, Seq<u8>)>>,
    )
        requires
            t.holds(items),
            i < items.len(),
            offset == slot_start(t.header.shape(), items, i as int),
            old(self)@.header == t.header,
            old(self)@.padding == t.padding,
            old(self)@.buf.len() == t.buf.len(),
        ensures
            final(self)@.header == t.header,
            final(self)@.padding == t.padding,
            final(self)@.buf.len() == t.buf.len(),
            keeps(old(self)@.buf, final(self)@.buf, t.buf),
            offset_done(final(self)@.buf, t, i as int),
    {
        let ghost before = self@.buf;
        proof {
            lemma_offset_piece(t, items, i as int);
        }
        self.set_offset(i, offset);
        proof {
            lemma_write_agree(
                before,
                self@.buf,
                t.buf,
                t.offset_pos(i as int),
                le_bytes(offset as nat, t.header.shape().offset_bytes),
            );
        }
    }

    /// Writes key `i` as `t` has it.
    pub(crate) fn put_key(
        &mut self,
        i: usize,
        key: &[u8],
        Ghost(t): Ghost<NodeView>,
        Ghost(items): Ghost<Seq<(Seq<u8>, Seq<u8>)>>,
    )
        requires
            t.holds(items),
            i < items.len(),
            key@ == items[i as int].0,
            old(self)@.header == t.header,
            old(self)@.padding == t.padding,
            old(self)@.buf.len() == t.buf.len(),
            offset_done(old(self)@.buf, t, i as int),
        ensures
            final(self)@.header == t.header,
            final(self)@.padding == t.padding,
            final(self)@.buf.len() == t.buf.len(),
            keeps(old(self)@.buf, final(self)@.buf, t.buf),
            key_done(final(self)@.buf, t, items, i as int),
    {
        let ghost before = self@.buf;
        proof {
            lemma_key_place(self@, t, items, i as int);
            lemma_key_piece(t, items, i as int);
        }
        self.write_key(i, key);
        proof {
            lemma_write_agree(
                before,
                self@.buf,
                t.buf,
                t.key_pos(i as int),
                key_piece(t.header.shape(), key@),
            );
        }
    }

    /// Writes value `i` as `t` has it.
    pub(crate) fn put_value(
        &mut self,
        i: usize,
        value: &[u8],
        Ghost(t): Ghost<NodeView>,
        Ghost(items): Ghost<Seq<(Seq<u8>, Seq<u8>)>>,
    )
        requires
            t.holds(items),
            i < items.len(),
            value@ == items[i as int].1,
            old(self)@.header == t.header,
            old(self)@.padding == t.padding,
            old(self)@.buf.len() == t.buf.len(),
            offset_done(old(self)@.buf, t, i as int),
            key_done(old(self)@.buf, t, items, i as int),
        ensures
            final(self)@.header == t.header,
            final(self)@.padding == t.padding,
            final(self)@.buf.len() == t.buf.len(),
            keeps(old(self)@.buf, final(self)@.buf, t.buf),
            value_done(final(self)@.buf, t, items, i as int),
    {
        let ghost before = self@.buf;
        proof {
            lemma_value_place(self@, t, items, i as int);
            lemma_value_piece(t, items, i as int);
        }
        self.write_value(i, value);
        proof {
            lemma_write_agree(
                before,
                self@.buf,
                t.buf,
                t.value_pos(i as int),
                value_piece(t.header.shape(), value@),
            );
        }
    }
}

} // verus!
