//! Nodes with one item inserted, replaced or removed.

use vstd::prelude::*;
use crate::buffers::times;
use crate::bytes::{copy_prefix, lemma_pow256_monotone, part_mut, pow256, splice};
use crate::create::{buildable, built, bytes_per_offset, item_views, lemma_built, lemma_offset_width, offset_width};
use crate::header::{Header, HEADER_BYTES};
use crate::layout::{cat, fits, image, key_parts, lemma_cat_piece, lemma_cat_prefix, lemma_cat_split, lemma_cat_uniform, lemma_image_lengths, lemma_slot_len, prefixed_len, slot, slot_parts, slot_start, value_parts, Shape};
use crate::node::{allocatable, lemma_holds, lemma_holds_offset, lemma_holds_regions, no_padding, Node, NodeView};
use crate::varint;
use crate::writing::{agree, keeps, key_done, lemma_agree_join, lemma_agree_part, lemma_all_done, lemma_no_offset, lemma_offset_piece, lemma_part_start, lemma_region_bytes, lemma_same_head, lemma_write_agree, offset_done, value_done};

verus! {

/// `s` with `new` in front of place `index`, and without what stood there where it is
/// replaced.
pub open spec fn stitched<T>(s: Seq<T>, index: int, new: Option<T>, replace: bool) -> Seq<T> {
    s.take(index) + (match new {
        Some(x) => seq![x],
        None => Seq::empty(),
    }) + s.skip(index + if replace {
        1int
    } else {
        0
    })
}

/// The bytes of an optional item.
pub open spec fn item_view(item: Option<(&[u8], &[u8])>) -> Option<(Seq<u8>, Seq<u8>)> {
    match item {
        Some((k, v)) => Some((k@, v@)),
        None => None,
    }
}

/// The most that a node can take after it got one more item.
pub open spec fn grown_len(v: NodeView, item: (Seq<u8>, Seq<u8>)) -> int {
    v.byte_len() + prefixed_len(item.0.len()) + prefixed_len(item.1.len()) + 6
}

/// Whether the layout of the node cannot take the item: its offsets are too narrow,
/// or the item has not the length of the others.
pub open spec fn outgrows(v: NodeView, item: (Seq<u8>, Seq<u8>)) -> bool {
    let sh = v.header.shape();
    ||| offset_width(grown_len(v, item) as nat) > sh.offset_bytes
    ||| sh.key_len matches Some(k) && k != item.0.len()
    ||| sh.value_len matches Some(x) && x != item.1.len()
}

/// Whether the node has to be laid out anew.
pub open spec fn takes_slow_path(v: NodeView, new_item: Option<(Seq<u8>, Seq<u8>)>) -> bool {
    new_item matches Some(item) && outgrows(v, item)
}

/// Whether an item can be inserted, replaced or removed.
pub open spec fn stitchable(
    v: NodeView,
    index: int,
    new_item: Option<(Seq<u8>, Seq<u8>)>,
    replace: bool,
) -> bool {
    let items = stitched(v.items(), index, new_item, replace);
    &&& 0 <= index
    &&& if replace {
        index < v.header.children
    } else {
        index <= v.header.children && new_item is Some
    }
    // two equal keys in a row cannot be told apart after a removal
    &&& new_item is None && index + 1 < v.header.children ==> v.key(index) != v.key(index + 1)
    &&& items.len() <= u16::MAX
    &&& new_item matches Some(item) ==> grown_len(v, item) < 0x1_0000_0000_0000 && allocatable(
        grown_len(v, item),
    )
    &&& takes_slow_path(v, new_item) ==> buildable(
        v.header.lo_len as nat,
        v.header.hi_len as nat,
        v.header.is_index,
        items,
    )
}

/// The eighth of the node that an insertion at `index` falls into.
pub open spec fn sketch_bit(index: int, children: int) -> int {
    if index == children {
        7
    } else {
        (index * 8) / children
    }
}

/// The activity sketch of a node that was laid out anew.
pub open spec fn new_sketch(v: NodeView, index: int, children: nat) -> u8 {
    if children > 1 {
        (1u8 << (sketch_bit(index, v.header.children as int) as u8)) | v.header.activity_sketch
    } else {
        0
    }
}

/// The bytes of the high key; none where there is no high key.
pub open spec fn hi_bytes(v: NodeView) -> Seq<u8> {
    match v.hi() {
        Some(h) => h,
        None => Seq::empty(),
    }
}

/// Whether `r` is `v` with an item inserted, replaced or removed.
pub open spec fn is_stitched(
    v: NodeView,
    r: NodeView,
    index: int,
    new_item: Option<(Seq<u8>, Seq<u8>)>,
    replace: bool,
) -> bool {
    let items = stitched(v.items(), index, new_item, replace);
    if takes_slow_path(v, new_item) {
        &&& built(
            NodeView { header: Header { activity_sketch: 0, ..r.header }, ..r },
            v.lo(),
            hi_bytes(v),
            v.header.prefix_len,
            v.header.is_index,
            v.header.next,
            items,
        )
        &&& r.header.activity_sketch == new_sketch(v, index, items.len())
    } else {
        let probation = v.header.probation_ops_remaining;
        &&& r.header == (Header {
            children: items.len() as u16,
            probation_ops_remaining: if probation > 0 {
                (probation - 1) as u8
            } else {
                0
            },
            ..v.header
        })
        &&& r.padding == no_padding()
        &&& r.buf == v.lo() + hi_bytes(v) + image(v.header.shape(), items)
    }
}

pub proof fn lemma_cat_add(a: Seq<Seq<u8>>, b: Seq<Seq<u8>>)
    ensures
        cat(a + b) == cat(a) + cat(b),
{
    lemma_cat_split(a + b, a.len() as int);
    assert((a + b).take(a.len() as int) =~= a);
    assert((a + b).skip(a.len() as int) =~= b);
}

/// The places of pieces of which one was inserted, replaced or removed.
pub proof fn lemma_cat_stitched(
    parts: Seq<Seq<u8>>,
    index: int,
    new: Option<Seq<u8>>,
    replace: bool,
    i: int,
)
    requires
        0 <= index <= parts.len(),
        replace ==> index < parts.len(),
        0 <= i <= stitched(parts, index, new, replace).len(),
    ensures
        ({
            let p = stitched(parts, index, new, replace);
            let e: int = if new is Some {
                1
            } else {
                0
            };
            let r: int = if replace {
                1
            } else {
                0
            };
            &&& i <= index ==> p.take(i) == parts.take(i)
            &&& index + e <= i ==> p.skip(i) == parts.skip(i - e + r)
            &&& index + e <= i ==> cat(p.take(i)).len() == cat(parts.take(i - e + r)).len() + (
            match new {
                Some(x) => x.len() as int,
                None => 0,
            }) - (if replace {
                parts[index].len() as int
            } else {
                0
            })
            &&& replace && index + r <= i - e + r ==> cat(parts.take(index)).len()
                + parts[index].len() <= cat(parts.take(i - e + r)).len()
            &&& index + e <= i ==> cat(parts.take(index)).len() <= cat(parts.take(i - e + r)).len()
        }),
{
    let p = stitched(parts, index, new, replace);
    let e: int = if new is Some {
        1
    } else {
        0
    };
    let r: int = if replace {
        1
    } else {
        0
    };
    if i <= index {
        assert(p.take(i) =~= parts.take(i));
    }
    if index + e <= i {
        let old = i - e + r;
        assert(p.skip(i) =~= parts.skip(old));
        let mid = match new {
            Some(x) => seq![x],
            None => Seq::empty(),
        };
        let gone = parts.subrange(index, index + r);
        let rest = parts.subrange(index + r, old);
        assert(p.take(i) =~= parts.take(index) + mid + rest);
        lemma_cat_add(parts.take(index) + mid, rest);
        lemma_cat_add(parts.take(index), mid);
        assert(parts.take(old) =~= parts.take(index) + gone + rest);
        lemma_cat_add(parts.take(index) + gone, rest);
        lemma_cat_add(parts.take(index), gone);
        reveal_with_fuel(cat, 2);
        if new is Some {
            assert(mid.drop_last() =~= Seq::<Seq<u8>>::empty());
        }
        if replace {
            assert(gone.drop_last() =~= Seq::<Seq<u8>>::empty());
            assert(gone.last() == parts[index]);
        }
    }
}

/// The pieces of the items, of which one was inserted, replaced or removed.
pub proof fn lemma_parts_stitched(
    sh: Shape,
    items: Seq<(Seq<u8>, Seq<u8>)>,
    index: int,
    new_item: Option<(Seq<u8>, Seq<u8>)>,
    replace: bool,
)
    requires
        0 <= index <= items.len(),
        replace ==> index < items.len(),
    ensures
        ({
            let its = stitched(items, index, new_item, replace);
            &&& slot_parts(sh, its) == stitched(
                slot_parts(sh, items),
                index,
                match new_item {
                    Some(x) => Some(slot(sh, x)),
                    None => None,
                },
                replace,
            )
            &&& sh.key_len is Some ==> key_parts(sh, its) == stitched(
                key_parts(sh, items),
                index,
                match new_item {
                    Some(x) => Some(x.0),
                    None => None,
                },
                replace,
            )
            &&& sh.value_len is Some ==> value_parts(sh, its) == stitched(
                value_parts(sh, items),
                index,
                match new_item {
                    Some(x) => Some(x.1),
                    None => None,
                },
                replace,
            )
        }),
{
    let its = stitched(items, index, new_item, replace);
    assert(slot_parts(sh, its) =~= stitched(
        slot_parts(sh, items),
        index,
        match new_item {
            Some(x) => Some(slot(sh, x)),
            None => None,
        },
        replace,
    ));
    if sh.key_len is Some {
        assert(key_parts(sh, its) =~= stitched(
            key_parts(sh, items),
            index,
            match new_item {
                Some(x) => Some(x.0),
                None => None,
            },
            replace,
        ));
    }
    if sh.value_len is Some {
        assert(value_parts(sh, its) =~= stitched(
            value_parts(sh, items),
            index,
            match new_item {
                Some(x) => Some(x.1),
                None => None,
            },
            replace,
        ));
    }
}

/// The room that an item takes in all.
pub open spec fn item_room(sh: Shape, item: (Seq<u8>, Seq<u8>)) -> int {
    (sh.offset_bytes + sh.key_stride() + slot(sh, item).len() + sh.value_stride()) as int
}

/// What the fast path makes of a node.
pub open spec fn fast_target(
    v: NodeView,
    index: int,
    new_item: Option<(Seq<u8>, Seq<u8>)>,
    replace: bool,
) -> NodeView {
    let items = stitched(v.items(), index, new_item, replace);
    let probation = v.header.probation_ops_remaining;
    NodeView {
        header: Header {
            children: items.len() as u16,
            probation_ops_remaining: if probation > 0 {
                (probation - 1) as u8
            } else {
                0
            },
            ..v.header
        },
        padding: no_padding(),
        buf: v.buf.take(v.header.data_start()) + image(v.header.shape(), items),
    }
}

/// Items of which one was inserted, replaced or removed still fit the layout.
#[verifier::rlimit(40)]
proof fn lemma_stitched_fits(
    sh: Shape,
    old: Seq<(Seq<u8>, Seq<u8>)>,
    index: int,
    new_item: Option<(Seq<u8>, Seq<u8>)>,
    replace: bool,
)
    requires
        fits(sh, old),
        0 <= index <= old.len(),
        replace ==> index < old.len(),
        new_item matches Some(x) ==> {
            &&& sh.key_len matches Some(k) ==> x.0.len() == k
            &&& sh.value_len matches Some(y) ==> x.1.len() == y
            &&& x.0.len() <= u64::MAX
            &&& x.1.len() <= u64::MAX
            &&& cat(slot_parts(sh, old)).len() + slot(sh, x).len() < pow256(sh.offset_bytes)
        },
    ensures
        fits(sh, stitched(old, index, new_item, replace)),
        cat(slot_parts(sh, stitched(old, index, new_item, replace))).len() == cat(
            slot_parts(sh, old),
        ).len() + (match new_item {
            Some(x) => slot(sh, x).len() as int,
            None => 0,
        }) - (if replace {
            slot(sh, old[index]).len() as int
        } else {
            0
        }),
{
    let items = stitched(old, index, new_item, replace);
    let parts = slot_parts(sh, old);
    let n = old.len() as int;
    let m = items.len() as int;
    let e: int = if new_item is Some {
        1
    } else {
        0
    };
    let r: int = if replace {
        1
    } else {
        0
    };
    let new_slot = match new_item {
        Some(x) => Some(slot(sh, x)),
        None => None,
    };
    lemma_parts_stitched(sh, old, index, new_item, replace);
    lemma_cat_stitched(parts, index, new_slot, replace, m);
    assert(slot_parts(sh, items).take(m) =~= slot_parts(sh, items));
    assert(parts.take(n) =~= parts);
    assert forall|i: int| #![trigger items[i]] 0 <= i < items.len() implies {
        &&& sh.key_len matches Some(k) ==> items[i].0.len() == k
        &&& sh.value_len matches Some(x) ==> items[i].1.len() == x
        &&& items[i].0.len() <= u64::MAX
        &&& items[i].1.len() <= u64::MAX
    } by {
        if i < index {
            assert(items[i] == old[i]);
        } else if i < index + e {
            assert(items[i] == new_item->0);
        } else {
            assert(items[i] == old[i - e + r]);
        }
    }
}

/// An item that does not outgrow the layout leaves its slot within reach of the
/// offsets.
proof fn lemma_within_reach(v: NodeView, x: (Seq<u8>, Seq<u8>))
    requires
        v.wf(),
        grown_len(v, x) < 0x1_0000_0000_0000,
        !outgrows(v, x),
    ensures
        cat(slot_parts(v.header.shape(), v.items())).len() + slot(v.header.shape(), x).len()
            < pow256(v.header.shape().offset_bytes),
{
    let sh = v.header.shape();
    lemma_holds_regions(v, v.items());
    lemma_slot_len(sh, x);
    lemma_offset_width(grown_len(v, x) as nat);
    lemma_pow256_monotone(offset_width(grown_len(v, x) as nat), sh.offset_bytes);
}

proof fn lemma_count_times(n: int, e: int, r: int, k: int)
    ensures
        (n + e - r) * k == n * k + e * k - r * k,
        0 * k == 0,
        1 * k == k,
{
    assert((n + e - r) * k == n * k + e * k - r * k) by (nonlinear_arith);
}

/// The layout takes the items where it is not outgrown.
pub proof fn lemma_fast_target(
    v: NodeView,
    index: int,
    new_item: Option<(Seq<u8>, Seq<u8>)>,
    replace: bool,
)
    requires
        v.wf(),
        stitchable(v, index, new_item, replace),
        !takes_slow_path(v, new_item),
    ensures
        ({
            let t = fast_target(v, index, new_item, replace);
            let sh = v.header.shape();
            let items = stitched(v.items(), index, new_item, replace);
            &&& t.header.shape() == sh
            &&& t.header.data_start() == v.header.data_start()
            &&& t.holds(items)
            &&& t.buf.len() == v.buf.len() + (match new_item {
                Some(x) => item_room(sh, x),
                None => 0,
            }) - (if replace {
                item_room(sh, v.items()[index])
            } else {
                0
            })
            &&& t.lo() == v.lo()
            &&& t.hi() == v.hi()
        }),
{
    let sh = v.header.shape();
    let old = v.items();
    let items = stitched(old, index, new_item, replace);
    let t = fast_target(v, index, new_item, replace);
    if let Some(x) = new_item {
        lemma_within_reach(v, x);
        lemma_slot_len(sh, x);
    }
    lemma_stitched_fits(sh, old, index, new_item, replace);
    lemma_stitched_len(sh, old, index, new_item, replace);
    lemma_head_kept(v, t, image(sh, items));
}

/// Bytes behind the same low and high key.
pub proof fn lemma_head_kept(v: NodeView, t: NodeView, im: Seq<u8>)
    requires
        v.bounded(),
        t.header.lo_len == v.header.lo_len,
        t.header.hi_len == v.header.hi_len,
        t.buf == v.buf.take(v.header.data_start()) + im,
    ensures
        t.bounded(),
        t.lo() == v.lo(),
        t.hi() == v.hi(),
        t.buf.skip(t.header.data_start()) == im,
        t.buf.take(t.header.data_start()) == v.lo() + hi_bytes(v),
        t.buf == v.lo() + hi_bytes(v) + im,
{
    let d = v.header.data_start();
    let l = v.header.lo_len as int;
    assert(t.buf.skip(d) =~= im);
    assert(t.buf.take(l) =~= v.buf.take(l));
    assert(t.buf.subrange(l, d) =~= v.buf.subrange(l, d));
    assert(t.buf.take(d) =~= v.lo() + hi_bytes(v));
    assert(t.buf =~= v.lo() + hi_bytes(v) + im);
}

/// The room of items of which one was inserted, replaced or removed.
proof fn lemma_stitched_len(
    sh: Shape,
    old: Seq<(Seq<u8>, Seq<u8>)>,
    index: int,
    new_item: Option<(Seq<u8>, Seq<u8>)>,
    replace: bool,
)
    requires
        fits(sh, old),
        fits(sh, stitched(old, index, new_item, replace)),
        0 <= index <= old.len(),
        replace ==> index < old.len(),
        cat(slot_parts(sh, stitched(old, index, new_item, replace))).len() == cat(
            slot_parts(sh, old),
        ).len() + (match new_item {
            Some(x) => slot(sh, x).len() as int,
            None => 0,
        }) - (if replace {
            slot(sh, old[index]).len() as int
        } else {
            0
        }),
    ensures
        image(sh, stitched(old, index, new_item, replace)).len() == image(sh, old).len() + (
        match new_item {
            Some(x) => item_room(sh, x),
            None => 0,
        }) - (if replace {
            item_room(sh, old[index])
        } else {
            0
        }),
{
    let n = old.len() as int;
    let e: int = if new_item is Some {
        1
    } else {
        0
    };
    let r: int = if replace {
        1
    } else {
        0
    };
    assert(stitched(old, index, new_item, replace).len() == n + e - r);
    lemma_image_lengths(sh, old);
    lemma_image_lengths(sh, stitched(old, index, new_item, replace));
    lemma_count_times(n, e, r, sh.offset_bytes as int);
    lemma_count_times(n, e, r, sh.key_stride() as int);
    lemma_count_times(n, e, r, sh.value_stride() as int);
}

/// The bytes of a run of pieces of one length, in front of which as many pieces stand.
proof fn lemma_same_front(parts: Seq<Seq<u8>>, other: Seq<Seq<u8>>, i: int, k: nat)
    requires
        0 <= i <= parts.len(),
        i <= other.len(),
        parts.take(i) == other.take(i),
        forall|j: int| 0 <= j < i ==> (#[trigger] parts[j]).len() == k,
    ensures
        0 <= i * k,
        i * k <= cat(parts).len(),
        i * k <= cat(other).len(),
        cat(parts).take(i * k) == cat(other).take(i * k),
{
    lemma_cat_prefix(parts, i);
    lemma_cat_prefix(other, i);
    assert forall|j: int| 0 <= j < parts.take(i).len() implies (#[trigger] parts.take(i)[j]).len()
        == k by {
        assert(parts[j].len() == k);
    }
    lemma_cat_uniform(parts.take(i), k);
    assert(0 <= i * k) by (nonlinear_arith)
        requires
            0 <= i,
            0 <= k,
    ;
}

/// The bytes of a run of pieces behind pieces of one length.
proof fn lemma_same_back(parts: Seq<Seq<u8>>, i: int, other: Seq<Seq<u8>>, j: int, k: nat)
    requires
        0 <= i <= parts.len(),
        0 <= j <= other.len(),
        parts.skip(i) == other.skip(j),
        forall|l: int| 0 <= l < parts.len() ==> (#[trigger] parts[l]).len() == k,
        forall|l: int| 0 <= l < other.len() ==> (#[trigger] other[l]).len() == k,
    ensures
        0 <= i * k <= cat(parts).len(),
        0 <= j * k <= cat(other).len(),
        cat(parts).skip(i * k) == cat(other).skip(j * k),
        cat(parts).len() == parts.len() * k,
        cat(other).len() == other.len() * k,
{
    lemma_cat_prefix(parts, i);
    lemma_cat_prefix(other, j);
    lemma_cat_uniform(parts.take(i), k);
    lemma_cat_uniform(other.take(j), k);
    lemma_cat_uniform(parts, k);
    lemma_cat_uniform(other, k);
    assert(0 <= i * k) by (nonlinear_arith)
        requires
            0 <= i,
            0 <= k,
    ;
    assert(0 <= j * k) by (nonlinear_arith)
        requires
            0 <= j,
            0 <= k,
    ;
}

/// Where the slots start in a node with an item inserted, replaced or removed.
pub proof fn lemma_slot_start_stitched(
    sh: Shape,
    items: Seq<(Seq<u8>, Seq<u8>)>,
    index: int,
    new_item: Option<(Seq<u8>, Seq<u8>)>,
    replace: bool,
    i: int,
)
    requires
        0 <= index <= items.len(),
        replace ==> index < items.len(),
        0 <= i <= stitched(items, index, new_item, replace).len(),
    ensures
        ({
            let its = stitched(items, index, new_item, replace);
            let old = i - (if new_item is Some {
                1int
            } else {
                0
            }) + (if replace {
                1int
            } else {
                0
            });
            let gone = if replace {
                slot(sh, items[index]).len() as int
            } else {
                0
            };
            &&& i <= index ==> slot_start(sh, its, i) == slot_start(sh, items, i)
            &&& index + (if new_item is Some {
                1int
            } else {
                0
            }) <= i ==> {
                &&& slot_start(sh, its, i) == slot_start(sh, items, old) + (match new_item {
                    Some(x) => slot(sh, x).len() as int,
                    None => 0,
                }) - gone
                &&& gone <= slot_start(sh, items, old)
            }
        }),
{
    let new_slot = match new_item {
        Some(x) => Some(slot(sh, x)),
        None => None,
    };
    lemma_parts_stitched(sh, items, index, new_item, replace);
    lemma_cat_stitched(slot_parts(sh, items), index, new_slot, replace, i);
}

impl Node {
    /// Writes `src` to the bytes behind the header, from `pos` on.
    fn put_bytes(&mut self, pos: usize, src: &[u8])
        requires
            pos + src@.len() <= old(self)@.buf.len(),
        ensures
            final(self)@.header == old(self)@.header,
            final(self)@.padding == old(self)@.padding,
            final(self)@.buf == splice(old(self)@.buf, pos as int, src@),
    {
        let ghost before = self@.buf;
        copy_prefix(part_mut(self.buf.as_mut_slice(), pos, src.len()), src);
        assert(self@.buf =~= splice(before, pos as int, src@));
    }

    /// The room that an item takes in the slots.
    fn slot_size(&self, key: &[u8], value: &[u8]) -> (r: usize)
        requires
            slot(self@.header.shape(), (key@, value@)).len() <= usize::MAX,
        ensures
            r == slot(self@.header.shape(), (key@, value@)).len(),
    {
        proof {
            lemma_slot_len(self@.header.shape(), (key@, value@));
        }
        let mut size: usize = 0;
        if self.header.fixed_key_length.is_none() {
            size = size + (varint::size(key.len() as u64) as usize + key.len());
        }
        if self.header.fixed_value_length.is_none() {
            size = size + (varint::size(value.len() as u64) as usize + value.len());
        }
        size
    }

    /// Where the slot of item `i` starts.
    fn slot_start_at(&self, i: usize) -> (r: usize)
        requires
            self@.wf(),
            i < self@.header.children,
            self@.header.offset_bytes > 0,
        ensures
            r == slot_start(self@.header.shape(), self@.items(), i as int),
    {
        proof {
            lemma_holds_offset(self@, self@.items(), i as int);
        }
        self.offset(i)
    }

    /// The room that item `i` takes in the slots.
    fn slot_size_at(&self, i: usize) -> (r: usize)
        requires
            self@.wf(),
            i < self@.header.children,
        ensures
            r == slot(self@.header.shape(), self@.items()[i as int]).len(),
            slot_start(self@.header.shape(), self@.items(), i as int) + r == slot_start(
                self@.header.shape(),
                self@.items(),
                i + 1,
            ),
            slot_start(self@.header.shape(), self@.items(), i + 1) <= usize::MAX,
    {
        assert(self.buf.len() == self@.buf.len());
        proof {
            lemma_cat_piece(slot_parts(self@.header.shape(), self@.items()), i as int);
            lemma_holds_regions(self@, self@.items());
        }
        self.slot_size(self.index_key(i), self.index_value(i))
    }

    /// Where the slot of item `i` starts; `i` may be the number of items.
    fn slot_end_before(&self, i: usize) -> (r: usize)
        requires
            self@.wf(),
            i <= self@.header.children,
            self@.header.offset_bytes > 0,
        ensures
            r == slot_start(self@.header.shape(), self@.items(), i as int),
    {
        if i > 0 {
            let size = self.slot_size_at(i - 1);
            self.slot_start_at(i - 1) + size
        } else {
            assert(slot_parts(self@.header.shape(), self@.items()).take(0) =~= Seq::<
                Seq<u8>,
            >::empty());
            0
        }
    }

    /// Copies the entries of the offset table in front of `index`.
    fn copy_offsets(
        &mut self,
        from: &Node,
        index: usize,
        Ghost(new_item): Ghost<Option<(Seq<u8>, Seq<u8>)>>,
        Ghost(replace): Ghost<bool>,
        Ghost(t): Ghost<NodeView>,
    )
        requires
            from@.wf(),
            stitchable(from@, index as int, new_item, replace),
            !takes_slow_path(from@, new_item),
            t == fast_target(from@, index as int, new_item, replace),
            old(self)@.header == t.header,
            old(self)@.padding == t.padding,
            old(self)@.buf.len() == t.buf.len(),
        ensures
            final(self)@.header == t.header,
            final(self)@.padding == t.padding,
            final(self)@.buf.len() == t.buf.len(),
            keeps(old(self)@.buf, final(self)@.buf, t.buf),
            forall|i: int| 0 <= i < index ==> #[trigger] offset_done(final(self)@.buf, t, i),
    {
        let ghost before = self@.buf;
        let ghost d = from@.header.data_start();
        let width = from.header.offset_bytes as usize;
        proof {
            lemma_offsets_before(from@, index as int, new_item, replace);
        }
        assert(from.buf.len() == from@.buf.len());
        let start = from.data_start();
        let end = start + index * width;
        self.put_bytes(start, &from.buf.as_slice()[start..end]);
        proof {
            lemma_write_agree(
                before,
                self@.buf,
                t.buf,
                d,
                from@.buf.subrange(d, d + index * width),
            );
            assert forall|i: int| 0 <= i < index implies #[trigger] offset_done(
                self@.buf,
                t,
                i,
            ) by {
                assert(0 <= i * width && i * width + width <= index * width) by (nonlinear_arith)
                    requires
                        0 <= i < index,
                        0 <= width,
                ;
                lemma_agree_part(self@.buf, t.buf, d, index * width, d + i * width, width as int);
            }
        }
    }

    /// Writes the offset table: the entries in front of `index` are copied, the others
    /// are shifted.
    #[verifier::rlimit(40)]
    fn stitch_offsets(
        &self,
        ret: &mut Node,
        index: usize,
        new_item: Option<(&[u8], &[u8])>,
        replace: bool,
        Ghost(t): Ghost<NodeView>,
    )
        requires
            self@.wf(),
            stitchable(self@, index as int, item_view(new_item), replace),
            !takes_slow_path(self@, item_view(new_item)),
            self@.header.offset_bytes > 0,
            t == fast_target(self@, index as int, item_view(new_item), replace),
            old(ret)@.header == t.header,
            old(ret)@.padding == t.padding,
            old(ret)@.buf.len() == t.buf.len(),
        ensures
            final(ret)@.header == t.header,
            final(ret)@.padding == t.padding,
            final(ret)@.buf.len() == t.buf.len(),
            keeps(old(ret)@.buf, final(ret)@.buf, t.buf),
            forall|i: int|
                0 <= i < t.header.children ==> #[trigger] offset_done(final(ret)@.buf, t, i),
    {
        let ghost new = item_view(new_item);
        let ghost its = self@.items();
        let ghost items = stitched(its, index as int, new, replace);
        let ghost sh = self@.header.shape();
        let ghost before = ret@.buf;
        let children = ret.len();
        proof {
            lemma_fast_target(self@, index as int, new, replace);
        }
        let new_slot: usize = match new_item {
            Some((k, v)) => {
                proof {
                    lemma_slot_len(sh, (k@, v@));
                }
                self.slot_size(k, v)
            },
            None => 0,
        };
        let old_slot: usize = if replace {
            self.slot_size_at(index)
        } else {
            0
        };

        // just copy the offsets before the index
        ret.copy_offsets(self, index, Ghost(new), Ghost(replace), Ghost(t));

        // set offset at index to previous index + previous size
        let mut i: usize = index;
        if index < children {
            let here = self.slot_end_before(index);
            let ghost prior = ret@.buf;
            proof {
                lemma_slot_start_stitched(sh, its, index as int, new, replace, index as int);
            }
            ret.put_offset(index, here, Ghost(t), Ghost(items));
            proof {
                assert forall|j: int| 0 <= j < index + 1 implies #[trigger] offset_done(
                    ret@.buf,
                    t,
                    j,
                ) by {
                    if j < index {
                        assert(offset_done(prior, t, j));
                    }
                }
            }
            i = index + 1;
        }

        // shift the old offsets behind it
        while i < children
            invariant
                index <= i,
                index < children ==> index + 1 <= i,
                children == items.len(),
                children == t.header.children,
                index <= its.len(),
                its.len() == self@.header.children,
                items.len() == its.len() + (if new is Some {
                    1int
                } else {
                    0
                }) - (if replace {
                    1int
                } else {
                    0
                }),
                replace ==> index < its.len(),
                sh.offset_bytes > 0,
                self@.wf(),
                self@.header.offset_bytes > 0,
                its == self@.items(),
                new == item_view(new_item),
                items == stitched(its, index as int, new, replace),
                sh == self@.header.shape(),
                sh == t.header.shape(),
                t.holds(items),
                new_item is None ==> replace,
                ret@.header == t.header,
                ret@.padding == t.padding,
                ret@.buf.len() == t.buf.len(),
                new_slot == (match new {
                    Some(x) => slot(sh, x).len() as int,
                    None => 0,
                }),
                old_slot == (if replace {
                    slot(sh, its[index as int]).len() as int
                } else {
                    0
                }),
                keeps(before, ret@.buf, t.buf),
                forall|j: int|
                    0 <= j < i && j < children ==> #[trigger] offset_done(ret@.buf, t, j),
            decreases children - i,
        {
            let ghost prior = ret@.buf;
            let old_index: usize = if replace {
                if new_item.is_some() {
                    i
                } else {
                    i + 1
                }
            } else {
                i - 1
            };
            let old_offset = self.slot_start_at(old_index);
            assert(ret.buf.len() == t.buf.len());
            proof {
                lemma_slot_start_stitched(sh, its, index as int, new, replace, i as int);
                lemma_holds_offset(t, items, i as int);
            }
            ret.put_offset(i, old_offset - old_slot + new_slot, Ghost(t), Ghost(items));
            proof {
                assert forall|j: int|
                    0 <= j < i + 1 && j < children implies #[trigger] offset_done(
                    ret@.buf,
                    t,
                    j,
                ) by {
                    if j < i {
                        assert(offset_done(prior, t, j));
                    }
                }
            }
            i = i + 1;
        }
    }
}

/// Pieces of one length of which one was inserted, replaced or removed: what stands in
/// front of it and behind it is as before.
proof fn lemma_strided(
    parts: Seq<Seq<u8>>,
    index: int,
    new: Option<Seq<u8>>,
    replace: bool,
    k: nat,
)
    requires
        0 <= index <= parts.len(),
        replace ==> index < parts.len(),
        forall|l: int| 0 <= l < parts.len() ==> (#[trigger] parts[l]).len() == k,
        new matches Some(x) ==> x.len() == k,
    ensures
        ({
            let p = stitched(parts, index, new, replace);
            let e: int = if new is Some {
                1
            } else {
                0
            };
            let r: int = if replace {
                1
            } else {
                0
            };
            let n = parts.len();
            let m = p.len();
            &&& m == n + e - r
            &&& cat(p).len() == m * k
            &&& cat(parts).len() == n * k
            &&& 0 <= index * k <= (index + e) * k <= m * k
            &&& 0 <= index * k <= (index + r) * k <= n * k
            &&& (index + e) * k == index * k + e * k
            &&& (index + r) * k == index * k + r * k
            &&& m * k - (index + e) * k == n * k - (index + r) * k
            &&& cat(p).subrange(0, index * k) == cat(parts).subrange(0, index * k)
            &&& new matches Some(x) ==> cat(p).subrange(index * k, (index + e) * k) == x
            &&& cat(p).subrange((index + e) * k, (m * k) as int) == cat(parts).subrange(
                (index + r) * k,
                (n * k) as int,
            )
        }),
{
    let p = stitched(parts, index, new, replace);
    let e: int = if new is Some {
        1
    } else {
        0
    };
    let r: int = if replace {
        1
    } else {
        0
    };
    let n = parts.len() as int;
    let m = p.len() as int;
    assert forall|l: int| 0 <= l < p.len() implies (#[trigger] p[l]).len() == k by {
        if l < index {
            assert(p[l] == parts[l]);
        } else if l < index + e {
            assert(p[l] == new->0);
        } else {
            assert(p[l] == parts[l - e + r]);
        }
    }
    lemma_cat_stitched(parts, index, new, replace, index);
    lemma_cat_stitched(parts, index, new, replace, index + e);
    lemma_same_front(parts, p, index, k);
    lemma_same_back(p, index + e, parts, index + r, k);
    assert((index + e) * k == index * k + e * k) by (nonlinear_arith);
    assert((index + r) * k == index * k + r * k) by (nonlinear_arith);
    lemma_count_times(n, e, r, k as int);
    assert(0 <= e * k && 0 <= r * k) by (nonlinear_arith)
        requires
            0 <= e,
            0 <= r,
            0 <= k,
    ;
    if let Some(x) = new {
        assert(1 * k == k);
        lemma_cat_piece(p, index);
        lemma_cat_uniform(p.take(index), k);
        assert(p[index] == x);
    }
    assert(cat(p).subrange(0, index * k) =~= cat(p).take(index * k));
    assert(cat(parts).subrange(0, index * k) =~= cat(parts).take(index * k));
    assert(cat(p).subrange((index + e) * k, m * k) =~= cat(p).skip((index + e) * k));
    assert(cat(parts).subrange((index + r) * k, n * k) =~= cat(parts).skip((index + r) * k));
}

impl Node {
    /// Copies a region of pieces of one length, of which one is inserted, replaced or
    /// removed.
    #[verifier::rlimit(40)]
    fn copy_strided(
        &mut self,
        dst: usize,
        from: &Node,
        src: usize,
        stride: usize,
        index: usize,
        new: Option<&[u8]>,
        replace: bool,
        Ghost(t): Ghost<NodeView>,
        Ghost(parts): Ghost<Seq<Seq<u8>>>,
    )
        requires
            old(self)@.header == t.header,
            old(self)@.padding == t.padding,
            old(self)@.buf.len() == t.buf.len(),
            parts.len() == from@.header.children,
            0 <= index <= parts.len(),
            replace ==> index < parts.len(),
            forall|l: int| 0 <= l < parts.len() ==> (#[trigger] parts[l]).len() == stride,
            new matches Some(x) ==> x@.len() == stride,
            src + cat(parts).len() <= from@.buf.len(),
            from@.buf.subrange(src as int, src + cat(parts).len()) == cat(parts),
            ({
                let p = stitched(
                    parts,
                    index as int,
                    match new {
                        Some(x) => Some(x@),
                        None => None,
                    },
                    replace,
                );
                &&& dst + cat(p).len() <= t.buf.len()
                &&& t.buf.subrange(dst as int, dst + cat(p).len()) == cat(p)
            }),
        ensures
            final(self)@.header == t.header,
            final(self)@.padding == t.padding,
            final(self)@.buf.len() == t.buf.len(),
            keeps(old(self)@.buf, final(self)@.buf, t.buf),
            ({
                let p = stitched(
                    parts,
                    index as int,
                    match new {
                        Some(x) => Some(x@),
                        None => None,
                    },
                    replace,
                );
                agree(final(self)@.buf, t.buf, dst as int, cat(p).len() as int)
            }),
    {
        let ghost nv = match new {
            Some(x) => Some(x@),
            None => None,
        };
        let ghost p = stitched(parts, index as int, nv, replace);
        let ghost b0 = self@.buf;
        proof {
            lemma_strided(parts, index as int, nv, replace, stride as nat);
        }
        assert(from.buf.len() == from@.buf.len());
        assert(self.buf.len() == t.buf.len());
        let children = from.len();
        let prelude = times(index, stride as u64);
        let item_end: usize = if new.is_some() {
            prelude + stride
        } else {
            prelude
        };
        let prologue: usize = if replace {
            prelude + stride
        } else {
            prelude
        };
        let end = times(children, stride as u64);

        let front = &from.buf.as_slice()[src..src + prelude];
        proof {
            assert(front@ =~= cat(parts).subrange(0, prelude as int));
            assert(t.buf.subrange(dst as int, dst + prelude) =~= cat(p).subrange(
                0,
                prelude as int,
            ));
        }
        self.put_bytes(dst, front);
        proof {
            lemma_write_agree(b0, self@.buf, t.buf, dst as int, front@);
        }
        let ghost b1 = self@.buf;
        if let Some(x) = new {
            proof {
                assert(t.buf.subrange(dst + prelude, dst + prelude + stride) =~= cat(p).subrange(
                    prelude as int,
                    prelude + stride,
                ));
            }
            self.put_bytes(dst + prelude, x);
            proof {
                lemma_write_agree(b1, self@.buf, t.buf, dst + prelude, x@);
                lemma_agree_join(self@.buf, t.buf, dst as int, prelude as int, stride as int);
            }
        }
        assert(agree(self@.buf, t.buf, dst as int, item_end as int));
        let ghost b2 = self@.buf;
        let back = &from.buf.as_slice()[src + prologue..src + end];
        proof {
            assert(back@ =~= cat(parts).subrange(prologue as int, end as int));
            assert(t.buf.subrange(dst + item_end, dst + cat(p).len()) =~= cat(p).subrange(
                item_end as int,
                cat(p).len() as int,
            ));
        }
        self.put_bytes(dst + item_end, back);
        proof {
            lemma_write_agree(b2, self@.buf, t.buf, dst + item_end, back@);
            lemma_agree_join(self@.buf, t.buf, dst as int, item_end as int, back@.len() as int);
        }
    }
}

/// An entry of the offset table in front of `index` stays as it is.
proof fn lemma_offset_before(
    v: NodeView,
    index: int,
    new_item: Option<(Seq<u8>, Seq<u8>)>,
    replace: bool,
    i: int,
)
    requires
        v.wf(),
        stitchable(v, index, new_item, replace),
        !takes_slow_path(v, new_item),
        0 <= i < index,
    ensures
        ({
            let t = fast_target(v, index, new_item, replace);
            let o = v.header.data_start() + i * v.header.offset_bytes;
            let end = o + v.header.offset_bytes;
            &&& 0 <= o
            &&& end <= v.buf.len()
            &&& end <= t.buf.len()
            &&& v.buf.subrange(o, end) == t.buf.subrange(o, end)
        }),
{
    let t = fast_target(v, index, new_item, replace);
    let its = v.items();
    let items = stitched(its, index, new_item, replace);
    lemma_fast_target(v, index, new_item, replace);
    lemma_offset_piece(v, its, i);
    lemma_offset_piece(t, items, i);
    lemma_slot_start_stitched(v.header.shape(), its, index, new_item, replace, i);
}

/// The offset table in front of `index` stays as it is.
#[verifier::rlimit(40)]
proof fn lemma_offsets_before(
    v: NodeView,
    index: int,
    new_item: Option<(Seq<u8>, Seq<u8>)>,
    replace: bool,
)
    requires
        v.wf(),
        stitchable(v, index, new_item, replace),
        !takes_slow_path(v, new_item),
    ensures
        ({
            let t = fast_target(v, index, new_item, replace);
            let d = v.header.data_start();
            let w = v.header.offset_bytes;
            &&& 0 <= index * w
            &&& d + index * w <= v.buf.len()
            &&& d + index * w <= t.buf.len()
            &&& t.buf.subrange(d, d + index * w) == v.buf.subrange(d, d + index * w)
        }),
{
    let t = fast_target(v, index, new_item, replace);
    let its = v.items();
    let items = stitched(its, index, new_item, replace);
    let d = v.header.data_start();
    let w = v.header.offset_bytes;
    lemma_fast_target(v, index, new_item, replace);
    lemma_holds_regions(v, its);
    lemma_holds_regions(t, items);
    assert(0 <= index * w) by (nonlinear_arith)
        requires
            0 <= index,
    ;
    assert(index * w <= its.len() * w) by (nonlinear_arith)
        requires
            index <= its.len(),
            0 <= w,
    ;
    assert(index * w <= items.len() * w) by (nonlinear_arith)
        requires
            index <= items.len(),
            0 <= w,
    ;
    let a = v.buf.subrange(d, d + index * w);
    let b = t.buf.subrange(d, d + index * w);
    assert forall|p: int| 0 <= p < index * w implies a[p] == b[p] by {
        let i = p / (w as int);
        let q = p % (w as int);
        assert(0 <= i < index && 0 <= q < w && p == i * w + q) by (nonlinear_arith)
            requires
                0 <= p < index * w,
                0 < w,
                i == p / (w as int),
                q == p % (w as int),
        ;
        lemma_offset_before(v, index, new_item, replace, i);
        let o = d + i * w;
        assert(v.buf.subrange(o, o + w)[q] == t.buf.subrange(o, o + w)[q]);
    }
    assert(a =~= b);
}

impl Node {
    /// Item `i` of the node with an item inserted, replaced or removed.
    fn stitched_item<'a>(
        &'a self,
        i: usize,
        index: usize,
        new_item: Option<(&'a [u8], &'a [u8])>,
        replace: bool,
    ) -> (r: (&'a [u8], &'a [u8]))
        requires
            self@.wf(),
            index <= self@.header.children,
            replace ==> index < self@.header.children,
            i < stitched(self@.items(), index as int, item_view(new_item), replace).len(),
        ensures
            (r.0@, r.1@) == stitched(
                self@.items(),
                index as int,
                item_view(new_item),
                replace,
            )[i as int],
    {
        if i < index {
            (self.index_key(i), self.index_value(i))
        } else {
            match new_item {
                Some(item) => if i == index {
                    item
                } else {
                    let old: usize = if replace {
                        i
                    } else {
                        i - 1
                    };
                    (self.index_key(old), self.index_value(old))
                },
                None => {
                    let old: usize = if replace {
                        i + 1
                    } else {
                        i
                    };
                    (self.index_key(old), self.index_value(old))
                },
            }
        }
    }

    /// Writes the keys.
    fn stitch_keys(
        &self,
        ret: &mut Node,
        index: usize,
        new_item: Option<(&[u8], &[u8])>,
        replace: bool,
        Ghost(t): Ghost<NodeView>,
    )
        requires
            self@.wf(),
            stitchable(self@, index as int, item_view(new_item), replace),
            !takes_slow_path(self@, item_view(new_item)),
            t == fast_target(self@, index as int, item_view(new_item), replace),
            old(ret)@.header == t.header,
            old(ret)@.padding == t.padding,
            old(ret)@.buf.len() == t.buf.len(),
            forall|i: int|
                0 <= i < t.header.children ==> #[trigger] offset_done(old(ret)@.buf, t, i),
        ensures
            final(ret)@.header == t.header,
            final(ret)@.padding == t.padding,
            final(ret)@.buf.len() == t.buf.len(),
            keeps(old(ret)@.buf, final(ret)@.buf, t.buf),
            forall|i: int|
                0 <= i < t.header.children ==> #[trigger] key_done(
                    final(ret)@.buf,
                    t,
                    stitched(self@.items(), index as int, item_view(new_item), replace),
                    i,
                ),
    {
        let ghost new = item_view(new_item);
        let ghost its = self@.items();
        let ghost items = stitched(its, index as int, new, replace);
        let ghost sh = self@.header.shape();
        let ghost before = ret@.buf;
        proof {
            lemma_fast_target(self@, index as int, new, replace);
        }
        let children = ret.len();
        match self.header.fixed_key_length {
            Some(fixed) => {
                proof {
                    lemma_fixed_keys(self@, index as int, new, replace);
                }
                assert(self.buf.len() == self@.buf.len());
                assert(ret.buf.len() == t.buf.len());
                let width = self.header.offset_bytes as u64;
                let src = self.data_start() + times(self.len(), width);
                let dst = self.data_start() + times(children, width);
                let new_key: Option<&[u8]> = match new_item {
                    Some((k, _)) => Some(k),
                    None => None,
                };
                ret.copy_strided(
                    dst,
                    self,
                    src,
                    fixed.get() as usize,
                    index,
                    new_key,
                    replace,
                    Ghost(t),
                    Ghost(key_parts(sh, its)),
                );
                proof {
                    lemma_fixed_keys_done(ret@.buf, t, items);
                }
            },
            None => {
                let mut i: usize = 0;
                while i < children
                    invariant
                        i <= children,
                        children == items.len(),
                        children == t.header.children,
                        self@.wf(),
                        its == self@.items(),
                        index <= self@.header.children,
                        replace ==> index < self@.header.children,
                        new == item_view(new_item),
                        items == stitched(its, index as int, new, replace),
                        t.holds(items),
                        ret@.header == t.header,
                        ret@.padding == t.padding,
                        ret@.buf.len() == t.buf.len(),
                        keeps(before, ret@.buf, t.buf),
                        forall|j: int|
                            0 <= j < t.header.children ==> #[trigger] offset_done(before, t, j),
                        forall|j: int| 0 <= j < i ==> #[trigger] key_done(ret@.buf, t, items, j),
                    decreases children - i,
                {
                    let ghost prior = ret@.buf;
                    let (k, _) = self.stitched_item(i, index, new_item, replace);
                    assert(offset_done(before, t, i as int));
                    ret.put_key(i, k, Ghost(t), Ghost(items));
                    proof {
                        assert forall|j: int| 0 <= j < i + 1 implies #[trigger] key_done(
                            ret@.buf,
                            t,
                            items,
                            j,
                        ) by {
                            if j < i {
                                assert(key_done(prior, t, items, j));
                            }
                        }
                    }
                    i = i + 1;
                }
            },
        }
    }

    /// Writes the values.
    fn stitch_values(
        &self,
        ret: &mut Node,
        index: usize,
        new_item: Option<(&[u8], &[u8])>,
        replace: bool,
        Ghost(t): Ghost<NodeView>,
    )
        requires
            self@.wf(),
            stitchable(self@, index as int, item_view(new_item), replace),
            !takes_slow_path(self@, item_view(new_item)),
            t == fast_target(self@, index as int, item_view(new_item), replace),
            old(ret)@.header == t.header,
            old(ret)@.padding == t.padding,
            old(ret)@.buf.len() == t.buf.len(),
            forall|i: int|
                0 <= i < t.header.children ==> #[trigger] offset_done(old(ret)@.buf, t, i),
            forall|i: int|
                0 <= i < t.header.children ==> #[trigger] key_done(
                    old(ret)@.buf,
                    t,
                    stitched(self@.items(), index as int, item_view(new_item), replace),
                    i,
                ),
        ensures
            final(ret)@.header == t.header,
            final(ret)@.padding == t.padding,
            final(ret)@.buf.len() == t.buf.len(),
            keeps(old(ret)@.buf, final(ret)@.buf, t.buf),
            forall|i: int|
                0 <= i < t.header.children ==> #[trigger] value_done(
                    final(ret)@.buf,
                    t,
                    stitched(self@.items(), index as int, item_view(new_item), replace),
                    i,
                ),
    {
        let ghost new = item_view(new_item);
        let ghost its = self@.items();
        let ghost items = stitched(its, index as int, new, replace);
        let ghost sh = self@.header.shape();
        let ghost before = ret@.buf;
        proof {
            lemma_fast_target(self@, index as int, new, replace);
        }
        let children = ret.len();
        match self.header.fixed_value_length {
            Some(fixed) => {
                proof {
                    lemma_fixed_values(self@, index as int, new, replace);
                }
                let src = self.buf.len() - times(self.len(), fixed.get());
                let dst = ret.buf.len() - times(children, fixed.get());
                let new_value: Option<&[u8]> = match new_item {
                    Some((_, v)) => Some(v),
                    None => None,
                };
                ret.copy_strided(
                    dst,
                    self,
                    src,
                    fixed.get() as usize,
                    index,
                    new_value,
                    replace,
                    Ghost(t),
                    Ghost(value_parts(sh, its)),
                );
                proof {
                    lemma_fixed_values_done(ret@.buf, t, items);
                }
            },
            None => {
                let mut i: usize = 0;
                while i < children
                    invariant
                        i <= children,
                        children == items.len(),
                        children == t.header.children,
                        self@.wf(),
                        its == self@.items(),
                        index <= self@.header.children,
                        replace ==> index < self@.header.children,
                        new == item_view(new_item),
                        items == stitched(its, index as int, new, replace),
                        t.holds(items),
                        ret@.header == t.header,
                        ret@.padding == t.padding,
                        ret@.buf.len() == t.buf.len(),
                        keeps(before, ret@.buf, t.buf),
                        forall|j: int|
                            0 <= j < t.header.children ==> #[trigger] offset_done(before, t, j),
                        forall|j: int|
                            0 <= j < t.header.children ==> #[trigger] key_done(before, t, items, j),
                        forall|j: int| 0 <= j < i ==> #[trigger] value_done(ret@.buf, t, items, j),
                    decreases children - i,
                {
                    let ghost prior = ret@.buf;
                    let (_, v) = self.stitched_item(i, index, new_item, replace);
                    assert(offset_done(before, t, i as int));
                    assert(key_done(before, t, items, i as int));
                    ret.put_value(i, v, Ghost(t), Ghost(items));
                    proof {
                        assert forall|j: int| 0 <= j < i + 1 implies #[trigger] value_done(
                            ret@.buf,
                            t,
                            items,
                            j,
                        ) by {
                            if j < i {
                                assert(value_done(prior, t, items, j));
                            }
                        }
                    }
                    i = i + 1;
                }
            },
        }
    }
}

/// The regions of keys of one length before and after.
proof fn lemma_fixed_keys(
    v: NodeView,
    index: int,
    new_item: Option<(Seq<u8>, Seq<u8>)>,
    replace: bool,
)
    requires
        v.wf(),
        stitchable(v, index, new_item, replace),
        !takes_slow_path(v, new_item),
        v.header.fixed_key_length is Some,
    ensures
        ({
            let sh = v.header.shape();
            let k = sh.key_stride();
            let t = fast_target(v, index, new_item, replace);
            let items = stitched(v.items(), index, new_item, replace);
            let parts = key_parts(sh, v.items());
            let p = key_parts(sh, items);
            let src = v.header.data_start() + v.header.children * v.header.offset_bytes;
            let dst = v.header.data_start() + t.header.children * v.header.offset_bytes;
            &&& 0 <= v.header.children * v.header.offset_bytes
            &&& 0 <= t.header.children * v.header.offset_bytes
            &&& k <= usize::MAX
            &&& p == stitched(
                parts,
                index,
                match new_item {
                    Some(x) => Some(x.0),
                    None => None,
                },
                replace,
            )
            &&& parts.len() == v.header.children
            &&& forall|l: int| 0 <= l < parts.len() ==> (#[trigger] parts[l]).len() == k
            &&& new_item matches Some(x) ==> x.0.len() == k
            &&& src + cat(parts).len() <= v.buf.len()
            &&& v.buf.subrange(src, src + cat(parts).len()) == cat(parts)
            &&& dst + cat(p).len() <= t.buf.len()
            &&& t.buf.subrange(dst, dst + cat(p).len()) == cat(p)
        }),
{
    let sh = v.header.shape();
    let t = fast_target(v, index, new_item, replace);
    let its = v.items();
    let items = stitched(its, index, new_item, replace);
    let parts = key_parts(sh, its);
    lemma_fast_target(v, index, new_item, replace);
    lemma_region_bytes(v, its);
    lemma_region_bytes(t, items);
    lemma_image_lengths(sh, its);
    lemma_image_lengths(sh, items);
    lemma_parts_stitched(sh, its, index, new_item, replace);
    assert forall|l: int| 0 <= l < parts.len() implies (#[trigger] parts[l]).len()
        == sh.key_stride() by {
        assert(its[l].0.len() == sh.key_stride());
    }
    if new_item is None {
        lemma_cat_piece(parts, index);
        assert(parts[index].len() == sh.key_stride());
    }
}

/// The regions of values of one length before and after.
proof fn lemma_fixed_values(
    v: NodeView,
    index: int,
    new_item: Option<(Seq<u8>, Seq<u8>)>,
    replace: bool,
)
    requires
        v.wf(),
        stitchable(v, index, new_item, replace),
        !takes_slow_path(v, new_item),
        v.header.fixed_value_length is Some,
    ensures
        ({
            let sh = v.header.shape();
            let k = sh.value_stride();
            let t = fast_target(v, index, new_item, replace);
            let items = stitched(v.items(), index, new_item, replace);
            let parts = value_parts(sh, v.items());
            let p = value_parts(sh, items);
            let src = v.buf.len() - v.header.children * k;
            let dst = t.buf.len() - t.header.children * k;
            &&& 0 <= v.header.children * k <= v.buf.len()
            &&& 0 <= t.header.children * k <= t.buf.len()
            &&& k <= usize::MAX
            &&& p == stitched(
                parts,
                index,
                match new_item {
                    Some(x) => Some(x.1),
                    None => None,
                },
                replace,
            )
            &&& parts.len() == v.header.children
            &&& forall|l: int| 0 <= l < parts.len() ==> (#[trigger] parts[l]).len() == k
            &&& new_item matches Some(x) ==> x.1.len() == k
            &&& src + cat(parts).len() <= v.buf.len()
            &&& v.buf.subrange(src, src + cat(parts).len()) == cat(parts)
            &&& dst + cat(p).len() <= t.buf.len()
            &&& t.buf.subrange(dst, dst + cat(p).len()) == cat(p)
        }),
{
    let sh = v.header.shape();
    let t = fast_target(v, index, new_item, replace);
    let its = v.items();
    let items = stitched(its, index, new_item, replace);
    let parts = value_parts(sh, its);
    lemma_fast_target(v, index, new_item, replace);
    lemma_region_bytes(v, its);
    lemma_region_bytes(t, items);
    lemma_image_lengths(sh, its);
    lemma_image_lengths(sh, items);
    lemma_holds_regions(v, its);
    lemma_holds_regions(t, items);
    lemma_parts_stitched(sh, its, index, new_item, replace);
    assert forall|l: int| 0 <= l < parts.len() implies (#[trigger] parts[l]).len()
        == sh.value_stride() by {
        assert(its[l].1.len() == sh.value_stride());
    }
    if new_item is None {
        lemma_cat_piece(parts, index);
        assert(parts[index].len() == sh.value_stride());
    }
}

/// Bytes that have the region of the keys as `t` has it have each key.
proof fn lemma_fixed_keys_done(buf: Seq<u8>, t: NodeView, items: Seq<(Seq<u8>, Seq<u8>)>)
    requires
        t.holds(items),
        t.header.fixed_key_length is Some,
        agree(
            buf,
            t.buf,
            t.header.data_start() + t.header.children * t.header.offset_bytes,
            cat(key_parts(t.header.shape(), items)).len() as int,
        ),
    ensures
        forall|i: int| 0 <= i < t.header.children ==> #[trigger] key_done(buf, t, items, i),
{
    let sh = t.header.shape();
    lemma_image_lengths(sh, items);
    let dst = t.header.data_start() + t.header.children * t.header.offset_bytes;
    let len = cat(key_parts(sh, items)).len() as int;
    assert forall|i: int| 0 <= i < t.header.children implies #[trigger] key_done(
        buf,
        t,
        items,
        i,
    ) by {
        lemma_part_start(sh, items, i);
        assert(items[i].0.len() == sh.key_stride());
        lemma_agree_part(buf, t.buf, dst, len, t.key_pos(i), sh.key_stride() as int);
    }
}

/// Bytes that have the region of the values as `t` has it have each value.
proof fn lemma_fixed_values_done(buf: Seq<u8>, t: NodeView, items: Seq<(Seq<u8>, Seq<u8>)>)
    requires
        t.holds(items),
        t.header.fixed_value_length is Some,
        agree(
            buf,
            t.buf,
            t.buf.len() - t.header.children * t.header.shape().value_stride(),
            cat(value_parts(t.header.shape(), items)).len() as int,
        ),
    ensures
        forall|i: int| 0 <= i < t.header.children ==> #[trigger] value_done(buf, t, items, i),
{
    let sh = t.header.shape();
    lemma_image_lengths(sh, items);
    lemma_holds_regions(t, items);
    let dst = t.buf.len() - t.header.children * sh.value_stride();
    let len = cat(value_parts(sh, items)).len() as int;
    assert forall|i: int| 0 <= i < t.header.children implies #[trigger] value_done(
        buf,
        t,
        items,
        i,
    ) by {
        lemma_part_start(sh, items, i);
        assert(items[i].1.len() == sh.value_stride());
        lemma_agree_part(buf, t.buf, dst, len, t.value_pos(i), sh.value_stride() as int);
    }
}

/// What a node with an item inserted, replaced or removed holds.
pub proof fn lemma_is_stitched(
    v: NodeView,
    r: NodeView,
    index: int,
    new_item: Option<(Seq<u8>, Seq<u8>)>,
    replace: bool,
)
    requires
        v.wf(),
        stitchable(v, index, new_item, replace),
        is_stitched(v, r, index, new_item, replace),
    ensures
        r.wf(),
        r.items() == stitched(v.items(), index, new_item, replace),
        r.lo() == v.lo(),
        r.hi() == v.hi(),
        r.header.children == stitched(v.items(), index, new_item, replace).len(),
        r.header.prefix_len == v.header.prefix_len,
        r.header.is_index == v.header.is_index,
        r.header.next == v.header.next,
{
    let items = stitched(v.items(), index, new_item, replace);
    if takes_slow_path(v, new_item) {
        let f = NodeView { header: Header { activity_sketch: 0, ..r.header }, ..r };
        lemma_built(
            f,
            v.lo(),
            hi_bytes(v),
            v.header.prefix_len,
            v.header.is_index,
            v.header.next,
            items,
        );
        assert(r.header.shape() == f.header.shape());
        assert(r.holds(items));
        lemma_holds(r, items);
        assert(r.lo() == f.lo());
        assert(r.hi() == f.hi());
    } else {
        let t = fast_target(v, index, new_item, replace);
        lemma_fast_target(v, index, new_item, replace);
        lemma_head_kept(v, t, image(v.header.shape(), items));
        assert(r == t);
        lemma_holds(r, items);
    }
}

impl Node {
    /// The node with an item inserted at `index`, or with the item at `index` replaced
    /// or removed.
    pub fn stitch(
        &self,
        index: usize,
        new_item: Option<(&[u8], &[u8])>,
        replace: bool,
    ) -> (ret: Node)
        requires
            self@.wf(),
            stitchable(self@, index as int, item_view(new_item), replace),
        ensures
            is_stitched(self@, ret@, index as int, item_view(new_item), replace),
            ret@.wf(),
            ret@.items() == stitched(self@.items(), index as int, item_view(new_item), replace),
            ret@.lo() == self@.lo(),
            ret@.hi() == self@.hi(),
    {
        let ghost new = item_view(new_item);
        let slow = match new_item {
            Some((k, v)) => self.outgrown_by(k, v),
            None => false,
        };
        let ret = if slow {
            self.stitch_anew(index, new_item, replace)
        } else {
            self.stitch_in_shape(index, new_item, replace)
        };
        proof {
            lemma_is_stitched(self@, ret@, index as int, new, replace);
        }
        ret
    }

    /// Whether the layout of the node cannot take the item.
    fn outgrown_by(&self, k: &[u8], v: &[u8]) -> (r: bool)
        requires
            self@.wf(),
            grown_len(self@, (k@, v@)) < 0x1_0000_0000_0000,
            allocatable(grown_len(self@, (k@, v@))),
        ensures
            r == outgrows(self@, (k@, v@)),
    {
        let new_max_sz: usize = HEADER_BYTES + self.buf.len() + varint::size(k.len() as u64) as usize
            + k.len() + varint::size(v.len() as u64) as usize + v.len() + 6;
        let requires_offset_expansion = bytes_per_offset(new_max_sz as u64)
            > self.header.offset_bytes;
        let violates_fixed_key_length = match self.header.fixed_key_length {
            Some(fkl) => fkl.get() != k.len() as u64,
            None => false,
        };
        let violates_fixed_value_length = match self.header.fixed_value_length {
            Some(fvl) => fvl.get() != v.len() as u64,
            None => false,
        };
        requires_offset_expansion || violates_fixed_key_length || violates_fixed_value_length
    }

    /// The slow path: all items are laid out anew.
    fn stitch_anew(
        &self,
        index: usize,
        new_item: Option<(&[u8], &[u8])>,
        replace: bool,
    ) -> (ret: Node)
        requires
            self@.wf(),
            stitchable(self@, index as int, item_view(new_item), replace),
            takes_slow_path(self@, item_view(new_item)),
        ensures
            is_stitched(self@, ret@, index as int, item_view(new_item), replace),
    {
        let ghost new = item_view(new_item);
        let ghost its = self@.items();
        let ghost want = stitched(its, index as int, new, replace);
        let children: usize = if replace {
            self.len()
        } else {
            self.len() + 1
        };
        let mut items: Vec<(&[u8], &[u8])> = Vec::with_capacity(children);
        let mut i: usize = 0;
        while i < children
            invariant
                i <= children,
                children == want.len(),
                self@.wf(),
                index <= self@.header.children,
                replace ==> index < self@.header.children,
                new == item_view(new_item),
                want == stitched(self@.items(), index as int, new, replace),
                items@.len() == i,
                forall|j: int| 0 <= j < i ==> #[trigger] item_views(items@)[j] == want[j],
            decreases children - i,
        {
            let ghost before = items@;
            items.push(self.stitched_item(i, index, new_item, replace));
            proof {
                assert forall|j: int| 0 <= j < i + 1 implies #[trigger] item_views(items@)[j]
                    == want[j] by {
                    if j < i {
                        assert(item_views(before)[j] == want[j]);
                    }
                }
            }
            i = i + 1;
        }
        assert(item_views(items@) =~= want);
        assert(self@.lo().len() == self@.header.lo_len);
        assert(hi_bytes(self@).len() == self@.header.hi_len);
        let mut ret = Node::new(
            self.lo(),
            self.hi(),
            self.header.prefix_len,
            self.header.is_index,
            self.header.next,
            &items,
        );
        if ret.header.children > 1 {
            // if we have 1 existing child and our insert index is 1,
            // we want to set the max activity bit. if the index is 0
            // we want to set the min activity bit. as we get more
            // items, we generally want to set the bit that is
            // proportionally placed
            let bit: usize = if index == self.len() {
                7
            } else {
                assert((index * 8) / self@.header.children as int <= 7) by (nonlinear_arith)
                    requires
                        0 <= index < self@.header.children,
                ;
                (index * 8) / self.len()
            };
            let activity_byte: u8 = 1u8 << (bit as u8);
            ret.header.activity_sketch = activity_byte | self.header.activity_sketch;
        }
        ret
    }

    /// The fast path: the layout of the node is kept.
    #[verifier::rlimit(40)]
    fn stitch_in_shape(
        &self,
        index: usize,
        new_item: Option<(&[u8], &[u8])>,
        replace: bool,
    ) -> (ret: Node)
        requires
            self@.wf(),
            stitchable(self@, index as int, item_view(new_item), replace),
            !takes_slow_path(self@, item_view(new_item)),
        ensures
            is_stitched(self@, ret@, index as int, item_view(new_item), replace),
    {
        let ghost new = item_view(new_item);
        let ghost its = self@.items();
        let ghost items = stitched(its, index as int, new, replace);
        let ghost sh = self@.header.shape();
        let ghost t = fast_target(self@, index as int, new, replace);
        proof {
            lemma_fast_target(self@, index as int, new, replace);
            lemma_head_kept(self@, t, image(sh, items));
        }
        let children: u16 = if new_item.is_none() {
            self.header.children - 1
        } else if replace {
            self.header.children
        } else {
            self.header.children + 1
        };
        let existing_item_size: usize = if replace {
            proof {
                lemma_item_room(sh, its, index as int);
            }
            self.item_size(self.index_key(index), self.index_value(index))
        } else {
            0
        };
        let new_item_size: usize = match new_item {
            Some((k, v)) => {
                proof {
                    lemma_slot_len(sh, (k@, v@));
                }
                self.item_size(k, v)
            },
            None => 0,
        };
        let total = self.buf.len() + new_item_size - existing_item_size;
        let header = Header {
            children,
            probation_ops_remaining: self.header.probation_ops_remaining.saturating_sub(1),
            ..self.header
        };
        assert(header == t.header);
        let mut ret = Node::blank(header, self.lo(), self.hi(), total);
        proof {
            lemma_same_head(ret@.buf, t.buf, t.header.data_start());
        }
        let ghost b0 = ret@.buf;
        if self.header.offset_bytes > 0 {
            self.stitch_offsets(&mut ret, index, new_item, replace, Ghost(t));
        } else {
            proof {
                assert forall|i: int| 0 <= i < t.header.children implies #[trigger] offset_done(
                    ret@.buf,
                    t,
                    i,
                ) by {
                    lemma_no_offset(ret@.buf, t, items, i);
                }
            }
        }
        let ghost b1 = ret@.buf;
        self.stitch_keys(&mut ret, index, new_item, replace, Ghost(t));
        let ghost b2 = ret@.buf;
        proof {
            assert forall|i: int| 0 <= i < t.header.children implies #[trigger] offset_done(
                b2,
                t,
                i,
            ) by {
                assert(offset_done(b1, t, i));
            }
        }
        self.stitch_values(&mut ret, index, new_item, replace, Ghost(t));
        proof {
            let b3 = ret@.buf;
            assert forall|i: int| 0 <= i < t.header.children implies #[trigger] offset_done(
                b3,
                t,
                i,
            ) by {
                assert(offset_done(b2, t, i));
            }
            assert forall|i: int| 0 <= i < t.header.children implies #[trigger] key_done(
                b3,
                t,
                items,
                i,
            ) by {
                assert(key_done(b2, t, items, i));
            }
            assert(agree(b0, t.buf, 0, t.header.data_start()));
            assert(agree(b1, t.buf, 0, t.header.data_start()));
            assert(agree(b2, t.buf, 0, t.header.data_start()));
            assert(agree(b3, t.buf, 0, t.header.data_start()));
            lemma_all_done(b3, t, items);
        }
        ret
    }

    /// The room that an item takes in all.
    fn item_size(&self, key: &[u8], value: &[u8]) -> (r: usize)
        requires
            item_room(self@.header.shape(), (key@, value@)) <= usize::MAX,
            self@.header.fixed_key_length matches Some(k) ==> k@ == key@.len(),
            self@.header.fixed_value_length matches Some(v) ==> v@ == value@.len(),
        ensures
            r == item_room(self@.header.shape(), (key@, value@)),
    {
        let mut size: usize = self.header.offset_bytes as usize + self.slot_size(key, value);
        if self.header.fixed_key_length.is_some() {
            size = size + key.len();
        }
        if self.header.fixed_value_length.is_some() {
            size = size + value.len();
        }
        size
    }
}

/// An item takes no more room than all items do.
proof fn lemma_item_room(sh: Shape, items: Seq<(Seq<u8>, Seq<u8>)>, i: int)
    requires
        fits(sh, items),
        0 <= i < items.len(),
    ensures
        item_room(sh, items[i]) <= image(sh, items).len(),
        sh.key_len matches Some(k) ==> items[i].0.len() == k,
        sh.value_len matches Some(v) ==> items[i].1.len() == v,
{
    lemma_image_lengths(sh, items);
    lemma_part_start(sh, items, i);
    lemma_cat_piece(slot_parts(sh, items), i);
}

} // verus!
