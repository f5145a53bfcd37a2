//! How the items of a node are laid out as bytes.
//!
//! The bytes of the items come in four regions, of which some may be empty: the
//! offset table, the keys where all have the same length, the slots, and the
//! values where all have the same length. A slot holds what has no region of its
//! own of one item, each behind its length as a varint, and the offset table says
//! where each slot starts.

use vstd::prelude::*;
use crate::bytes::{le_bytes, lemma_le_bytes_len, pow256};
use crate::varint::{lemma_varint_bytes_len, varint_bytes, varint_len};

verus! {

/// What the layout of the items depends on beside the items.
pub struct Shape {
    /// The length of every key, where the keys have a region of their own.
    pub key_len: Option<nat>,
    /// The length of every value, where the values have a region of their own.
    pub value_len: Option<nat>,
    /// The number of bytes that one entry of the offset table takes.
    pub offset_bytes: nat,
}

impl Shape {
    /// The room that one item takes in the region of the keys.
    pub open spec fn key_stride(self) -> nat {
        match self.key_len {
            Some(k) => k,
            None => 0,
        }
    }

    /// The room that one item takes in the region of the values.
    pub open spec fn value_stride(self) -> nat {
        match self.value_len {
            Some(v) => v,
            None => 0,
        }
    }
}

/// The pieces one after the other.
pub open spec fn cat(parts: Seq<Seq<u8>>) -> Seq<u8>
    decreases parts.len(),
{
    if parts.len() == 0 {
        Seq::empty()
    } else {
        cat(parts.drop_last()) + parts.last()
    }
}

/// `s` behind its length.
pub open spec fn prefixed(s: Seq<u8>) -> Seq<u8> {
    varint_bytes(s.len()) + s
}

/// The length of `s` with its length in front.
pub open spec fn prefixed_len(len: nat) -> nat {
    varint_len(len) + len
}

/// What the slot of an item holds.
pub open spec fn slot(sh: Shape, item: (Seq<u8>, Seq<u8>)) -> Seq<u8> {
    (if sh.key_len is None {
        prefixed(item.0)
    } else {
        Seq::empty()
    }) + (if sh.value_len is None {
        prefixed(item.1)
    } else {
        Seq::empty()
    })
}

pub open spec fn slot_parts(sh: Shape, items: Seq<(Seq<u8>, Seq<u8>)>) -> Seq<Seq<u8>> {
    Seq::new(items.len(), |i: int| slot(sh, items[i]))
}

/// Where the slot of item `i` starts in the region of the slots.
pub open spec fn slot_start(sh: Shape, items: Seq<(Seq<u8>, Seq<u8>)>, i: int) -> nat {
    cat(slot_parts(sh, items).take(i)).len()
}

pub open spec fn offset_parts(sh: Shape, items: Seq<(Seq<u8>, Seq<u8>)>) -> Seq<Seq<u8>> {
    Seq::new(items.len(), |i: int| le_bytes(slot_start(sh, items, i), sh.offset_bytes))
}

pub open spec fn key_parts(sh: Shape, items: Seq<(Seq<u8>, Seq<u8>)>) -> Seq<Seq<u8>> {
    Seq::new(
        items.len(),
        |i: int|
            if sh.key_len is Some {
                items[i].0
            } else {
                Seq::empty()
            },
    )
}

pub open spec fn value_parts(sh: Shape, items: Seq<(Seq<u8>, Seq<u8>)>) -> Seq<Seq<u8>> {
    Seq::new(
        items.len(),
        |i: int|
            if sh.value_len is Some {
                items[i].1
            } else {
                Seq::empty()
            },
    )
}

/// The bytes of the items: offset table, keys, slots and values.
pub open spec fn image(sh: Shape, items: Seq<(Seq<u8>, Seq<u8>)>) -> Seq<u8> {
    cat(offset_parts(sh, items)) + cat(key_parts(sh, items)) + cat(slot_parts(sh, items)) + cat(
        value_parts(sh, items),
    )
}

/// Whether items can be laid out in this shape: the lengths are as the shape says,
/// there is an offset table just where there are slots, and it can name each slot.
pub open spec fn fits(sh: Shape, items: Seq<(Seq<u8>, Seq<u8>)>) -> bool {
    &&& sh.offset_bytes <= 6
    &&& sh.offset_bytes == 0 <==> sh.key_len is Some && sh.value_len is Some
    &&& sh.key_len matches Some(k) ==> k > 0
    &&& sh.value_len matches Some(v) ==> v > 0
    &&& forall|i: int|
        #![trigger items[i]]
        0 <= i < items.len() ==> {
            &&& sh.key_len matches Some(k) ==> items[i].0.len() == k
            &&& sh.value_len matches Some(v) ==> items[i].1.len() == v
            &&& items[i].0.len() <= u64::MAX
            &&& items[i].1.len() <= u64::MAX
        }
    &&& cat(slot_parts(sh, items)).len() < pow256(sh.offset_bytes)
}

pub proof fn lemma_cat_split(parts: Seq<Seq<u8>>, i: int)
    requires
        0 <= i <= parts.len(),
    ensures
        cat(parts) == cat(parts.take(i)) + cat(parts.skip(i)),
    decreases parts.len(),
{
    if i == parts.len() {
        assert(parts.take(i) =~= parts);
        assert(parts.skip(i) =~= Seq::<Seq<u8>>::empty());
        assert(cat(parts) =~= cat(parts) + cat(parts.skip(i)));
    } else {
        lemma_cat_split(parts.drop_last(), i);
        assert(parts.drop_last().take(i) =~= parts.take(i));
        assert(parts.drop_last().skip(i) =~= parts.skip(i).drop_last());
        assert(parts.skip(i).last() == parts.last());
        assert(cat(parts) =~= cat(parts.take(i)) + cat(parts.skip(i)));
    }
}

/// Where piece `i` stands among the pieces.
pub proof fn lemma_cat_piece(parts: Seq<Seq<u8>>, i: int)
    requires
        0 <= i < parts.len(),
    ensures
        cat(parts.take(i + 1)) == cat(parts.take(i)) + parts[i],
        cat(parts.take(i)).len() + parts[i].len() <= cat(parts).len(),
        cat(parts).subrange(
            cat(parts.take(i)).len() as int,
            (cat(parts.take(i)).len() + parts[i].len()) as int,
        ) == parts[i],
{
    assert(parts.take(i + 1).drop_last() =~= parts.take(i));
    lemma_cat_split(parts, i + 1);
    let a = cat(parts.take(i)).len() as int;
    assert(cat(parts).subrange(a, a + parts[i].len()) =~= parts[i]);
}

pub proof fn lemma_cat_prefix(parts: Seq<Seq<u8>>, i: int)
    requires
        0 <= i <= parts.len(),
    ensures
        cat(parts.take(i)).len() <= cat(parts).len(),
        cat(parts).take(cat(parts.take(i)).len() as int) == cat(parts.take(i)),
        cat(parts).skip(cat(parts.take(i)).len() as int) == cat(parts.skip(i)),
{
    lemma_cat_split(parts, i);
    let a = cat(parts.take(i)).len() as int;
    assert(cat(parts).take(a) =~= cat(parts.take(i)));
    assert(cat(parts).skip(a) =~= cat(parts.skip(i)));
}

pub proof fn lemma_cat_uniform(parts: Seq<Seq<u8>>, k: nat)
    requires
        forall|i: int| 0 <= i < parts.len() ==> (#[trigger] parts[i]).len() == k,
    ensures
        cat(parts).len() == parts.len() * k,
    decreases parts.len(),
{
    if parts.len() > 0 {
        lemma_cat_uniform(parts.drop_last(), k);
        assert(parts.len() * k == (parts.len() - 1) * k + k) by (nonlinear_arith)
            requires
                parts.len() > 0,
        ;
    } else {
        assert(0 * k == 0) by (nonlinear_arith);
    }
}

pub proof fn lemma_cat_uniform_piece(parts: Seq<Seq<u8>>, k: nat, i: int)
    requires
        forall|i: int| 0 <= i < parts.len() ==> (#[trigger] parts[i]).len() == k,
        0 <= i < parts.len(),
    ensures
        cat(parts).len() == parts.len() * k,
        0 <= i * k,
        i * k + k <= parts.len() * k,
        cat(parts).subrange(i * k, i * k + k) == parts[i],
{
    lemma_cat_uniform(parts, k);
    lemma_cat_uniform(parts.take(i), k);
    lemma_cat_piece(parts, i);
    assert(0 <= i * k && i * k + k <= parts.len() * k) by (nonlinear_arith)
        requires
            0 <= i < parts.len(),
            0 <= k,
    ;
}

pub proof fn lemma_slot_len(sh: Shape, item: (Seq<u8>, Seq<u8>))
    ensures
        slot(sh, item).len() == (if sh.key_len is None {
            prefixed_len(item.0.len())
        } else {
            0
        }) + (if sh.value_len is None {
            prefixed_len(item.1.len())
        } else {
            0
        }),
{
    lemma_varint_bytes_len(item.0.len());
    lemma_varint_bytes_len(item.1.len());
}

/// The lengths of the four regions.
pub proof fn lemma_image_lengths(sh: Shape, items: Seq<(Seq<u8>, Seq<u8>)>)
    requires
        fits(sh, items),
    ensures
        cat(offset_parts(sh, items)).len() == items.len() * sh.offset_bytes,
        cat(key_parts(sh, items)).len() == items.len() * sh.key_stride(),
        cat(value_parts(sh, items)).len() == items.len() * sh.value_stride(),
        image(sh, items).len() == items.len() * sh.offset_bytes + items.len() * sh.key_stride()
            + cat(slot_parts(sh, items)).len() + items.len() * sh.value_stride(),
        sh.key_len is Some && sh.value_len is Some ==> cat(slot_parts(sh, items)).len() == 0,
{
    assert forall|i: int| 0 <= i < items.len() implies (#[trigger] offset_parts(
        sh,
        items,
    )[i]).len() == sh.offset_bytes by {
        lemma_le_bytes_len(slot_start(sh, items, i), sh.offset_bytes);
    }
    lemma_cat_uniform(offset_parts(sh, items), sh.offset_bytes);
    assert forall|i: int| 0 <= i < items.len() implies (#[trigger] key_parts(sh, items)[i]).len()
        == sh.key_stride() by {
        assert(items[i].0.len() >= 0);
    }
    lemma_cat_uniform(key_parts(sh, items), sh.key_stride());
    assert forall|i: int| 0 <= i < items.len() implies (#[trigger] value_parts(sh, items)[i]).len()
        == sh.value_stride() by {
        assert(items[i].1.len() >= 0);
    }
    lemma_cat_uniform(value_parts(sh, items), sh.value_stride());
    if sh.key_len is Some && sh.value_len is Some {
        lemma_cat_uniform(slot_parts(sh, items), 0);
    }
}

/// Where the four pieces of item `i` stand in the bytes of the items.
pub proof fn lemma_image_pieces(sh: Shape, items: Seq<(Seq<u8>, Seq<u8>)>, i: int)
    requires
        fits(sh, items),
        0 <= i < items.len(),
    ensures
        ({
            let n = items.len();
            let t = image(sh, items);
            let keys = n * sh.offset_bytes;
            let slots = keys + n * sh.key_stride();
            let values = slots + cat(slot_parts(sh, items)).len();
            let o = i * sh.offset_bytes;
            let k = keys + i * sh.key_stride();
            let s = slots + slot_start(sh, items, i);
            let v = values + i * sh.value_stride();
            &&& 0 <= o && o + sh.offset_bytes <= keys
            &&& keys <= k && k + sh.key_stride() <= slots
            &&& slots <= s && s + slot(sh, items[i]).len() <= values
            &&& values <= v && v + sh.value_stride() <= t.len()
            &&& slot_start(sh, items, i) < pow256(sh.offset_bytes)
            &&& t.subrange(o, o + sh.offset_bytes) == le_bytes(
                slot_start(sh, items, i),
                sh.offset_bytes,
            )
            &&& sh.key_len is Some ==> t.subrange(k, k + sh.key_stride()) == items[i].0
            &&& t.subrange(s as int, (s + slot(sh, items[i]).len()) as int) == slot(sh, items[i])
            &&& sh.value_len is Some ==> t.subrange(v, v + sh.value_stride()) == items[i].1
        }),
{
    lemma_image_lengths(sh, items);
    let n = items.len();
    let t = image(sh, items);
    let offs = offset_parts(sh, items);
    let kp = key_parts(sh, items);
    let sp = slot_parts(sh, items);
    let vp = value_parts(sh, items);
    let keys = n * sh.offset_bytes;
    let slots = keys + n * sh.key_stride();
    let values = slots + cat(sp).len();
    assert forall|j: int| 0 <= j < n implies (#[trigger] offs[j]).len() == sh.offset_bytes by {
        lemma_le_bytes_len(slot_start(sh, items, j), sh.offset_bytes);
    }
    lemma_cat_uniform_piece(offs, sh.offset_bytes, i);
    assert forall|j: int| 0 <= j < n implies (#[trigger] kp[j]).len() == sh.key_stride() by {
        assert(items[j].0.len() >= 0);
    }
    lemma_cat_uniform_piece(kp, sh.key_stride(), i);
    assert forall|j: int| 0 <= j < n implies (#[trigger] vp[j]).len() == sh.value_stride() by {
        assert(items[j].1.len() >= 0);
    }
    lemma_cat_uniform_piece(vp, sh.value_stride(), i);
    lemma_cat_piece(sp, i);
    let o = i * sh.offset_bytes;
    let k = keys + i * sh.key_stride();
    let s = slots + slot_start(sh, items, i);
    let v = values + i * sh.value_stride();
    assert(t.subrange(o, o + sh.offset_bytes) =~= cat(offs).subrange(o, o + sh.offset_bytes));
    assert(t.subrange(k, k + sh.key_stride()) =~= cat(kp).subrange(
        i * sh.key_stride(),
        i * sh.key_stride() + sh.key_stride(),
    ));
    assert(t.subrange(s as int, (s + sp[i].len()) as int) =~= cat(sp).subrange(
        slot_start(sh, items, i) as int,
        (slot_start(sh, items, i) + sp[i].len()) as int,
    ));
    assert(t.subrange(v, v + sh.value_stride()) =~= cat(vp).subrange(
        i * sh.value_stride(),
        i * sh.value_stride() + sh.value_stride(),
    ));
}

} // verus!
