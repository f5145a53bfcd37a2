//! Nodes within the reach of allocation and offsets, of which every operation can be
//! asked.

use vstd::prelude::*;
use crate::create::{buildable, common_len, fresh_shape, key_lens, lemma_offset_width, lemma_slots_room, prefixed_room, room, value_lens, widest_room};
use crate::header::HEADER_BYTES;
use crate::laws::halves::{lemma_extras_fit, lemma_half_prefixes, merge_undoes_split, prefix_is_shared, right_keys_agree, shared_prefixes_agree, split_parts_the_entries};
use crate::node::{allocatable, lemma_holds_regions, NodeView};
use crate::search::lemma_search;
use crate::split::{is_left_half, is_merged, is_right_half, left_extra, left_items, lemma_halves, lemma_split_point, merged_items, merged_prefix_len, mergeable, rekeyed, right_extra, right_items, split_key, split_point, splittable, trimmed};
use crate::stitch::{hi_bytes, stitchable, stitched};
use crate::update::{insertable, insertion_index, replaceable, settled};

verus! {

/// The bytes of all keys and values.
pub open spec fn payload(items: Seq<(Seq<u8>, Seq<u8>)>) -> nat
    decreases items.len(),
{
    if items.len() == 0 {
        0
    } else {
        payload(items.drop_last()) + items.last().0.len() + items.last().1.len()
    }
}

/// Whether so many bytes, and for each item as much as its offset and its two lengths
/// can take, can be allocated and counted by offsets of six bytes.
pub open spec fn in_reach(bytes: int, items: int) -> bool {
    bytes + 24 * items < 0x1_0000_0000_0000 && allocatable(bytes + 24 * items)
}

/// Whether the first value of an index node is a page, where there is one.
pub open spec fn starts_with_page(is_index: bool, items: Seq<(Seq<u8>, Seq<u8>)>) -> bool {
    is_index && items.len() > 0 ==> items[0].1.len() == 8
}

spec fn sum(lens: Seq<nat>) -> nat
    decreases lens.len(),
{
    if lens.len() == 0 {
        0
    } else {
        sum(lens.drop_last()) + lens.last()
    }
}

proof fn lemma_sum_uniform(lens: Seq<nat>, k: nat)
    requires
        forall|i: int| 0 <= i < lens.len() ==> #[trigger] lens[i] == k,
    ensures
        sum(lens) == lens.len() * k,
    decreases lens.len(),
{
    if lens.len() > 0 {
        let init = lens.drop_last();
        assert forall|i: int| 0 <= i < init.len() implies #[trigger] init[i] == k by {
            assert(init[i] == lens[i]);
        }
        lemma_sum_uniform(init, k);
        assert(init.len() * k + k == lens.len() * k) by (nonlinear_arith)
            requires
                init.len() + 1 == lens.len(),
        ;
    } else {
        assert(lens.len() * k == 0) by (nonlinear_arith)
            requires
                lens.len() == 0,
        ;
    }
}

proof fn lemma_prefixed_sum(lens: Seq<nat>)
    ensures
        sum(lens) <= prefixed_room(lens) <= sum(lens) + 9 * lens.len(),
    decreases lens.len(),
{
    if lens.len() > 0 {
        lemma_prefixed_sum(lens.drop_last());
    }
}

proof fn lemma_room_sum(lens: Seq<nat>)
    ensures
        sum(lens) <= room(lens) <= sum(lens) + 9 * lens.len(),
{
    match common_len(lens) {
        Some(k) => {
            lemma_sum_uniform(lens, k);
        },
        None => {
            lemma_prefixed_sum(lens);
        },
    }
}

proof fn lemma_payload_sums(items: Seq<(Seq<u8>, Seq<u8>)>)
    ensures
        payload(items) == sum(key_lens(items)) + sum(value_lens(items)),
    decreases items.len(),
{
    if items.len() > 0 {
        lemma_payload_sums(items.drop_last());
        assert(key_lens(items).drop_last() =~= key_lens(items.drop_last()));
        assert(value_lens(items).drop_last() =~= value_lens(items.drop_last()));
    }
}

/// A node can be made of items within reach.
pub proof fn items_in_reach_are_buildable(
    lo_len: nat,
    hi_len: nat,
    is_index: bool,
    items: Seq<(Seq<u8>, Seq<u8>)>,
)
    requires
        in_reach((HEADER_BYTES + lo_len + hi_len + payload(items)) as int, items.len() as int),
        items.len() <= u16::MAX,
        starts_with_page(is_index, items),
    ensures
        buildable(lo_len, hi_len, is_index, items),
{
    lemma_payload_sums(items);
    lemma_room_sum(key_lens(items));
    lemma_room_sum(value_lens(items));
    let w = fresh_shape(items).offset_bytes;
    lemma_offset_width(widest_room(items));
    assert(items.len() * w <= items.len() * 6) by (nonlinear_arith)
        requires
            w <= 6,
    ;
}

/// The payload of a node is part of its bytes.
proof fn lemma_payload_within(v: NodeView)
    requires
        v.wf(),
    ensures
        v.header.lo_len + v.header.hi_len + payload(v.items()) <= v.buf.len(),
        v.lo().len() == v.header.lo_len,
        hi_bytes(v).len() == v.header.hi_len,
{
    let items = v.items();
    let sh = v.header.shape();
    lemma_payload_sums(items);
    lemma_holds_regions(v, items);
    lemma_slots_room(sh, items);
    lemma_prefixed_sum(key_lens(items));
    lemma_prefixed_sum(value_lens(items));
    if let Some(k) = sh.key_len {
        assert forall|i: int| 0 <= i < items.len() implies #[trigger] key_lens(items)[i] == k by {
            assert(items[i].0.len() == k);
        }
        lemma_sum_uniform(key_lens(items), k);
    }
    if let Some(k) = sh.value_len {
        assert forall|i: int| 0 <= i < items.len() implies #[trigger] value_lens(items)[i]
            == k by {
            assert(items[i].1.len() == k);
        }
        lemma_sum_uniform(value_lens(items), k);
    }
}

proof fn lemma_payload_add(a: Seq<(Seq<u8>, Seq<u8>)>, b: Seq<(Seq<u8>, Seq<u8>)>)
    ensures
        payload(a + b) == payload(a) + payload(b),
    decreases b.len(),
{
    if b.len() == 0 {
        assert(a + b =~= a);
    } else {
        lemma_payload_add(a, b.drop_last());
        assert((a + b).drop_last() =~= a + b.drop_last());
    }
}

/// Each item is part of the payload.
proof fn lemma_payload_item(items: Seq<(Seq<u8>, Seq<u8>)>, i: int)
    requires
        0 <= i < items.len(),
    ensures
        payload(items.take(i)) + items[i].0.len() + items[i].1.len() + payload(items.skip(i + 1))
            == payload(items),
        payload(items.take(i)) + payload(items.skip(i)) == payload(items),
{
    lemma_payload_add(items.take(i), items.skip(i));
    assert(items.take(i) + items.skip(i) =~= items);
    lemma_payload_add(seq![items[i]], items.skip(i + 1));
    assert(seq![items[i]] + items.skip(i + 1) =~= items.skip(i));
    lemma_payload_one(items[i]);
}

/// The payload of one item.
pub proof fn lemma_payload_one(item: (Seq<u8>, Seq<u8>))
    ensures
        payload(seq![item]) == item.0.len() + item.1.len(),
{
    assert(seq![item].drop_last() =~= Seq::<(Seq<u8>, Seq<u8>)>::empty());
    assert(payload(seq![item].drop_last()) == 0);
}

/// Items with longer keys, by no more than `grow` bytes each.
proof fn lemma_payload_grown(
    items: Seq<(Seq<u8>, Seq<u8>)>,
    other: Seq<(Seq<u8>, Seq<u8>)>,
    grow: nat,
)
    requires
        items.len() == other.len(),
        forall|i: int|
            #![trigger other[i]]
            0 <= i < other.len() ==> other[i].0.len() <= items[i].0.len() + grow
                && other[i].1.len() == items[i].1.len(),
    ensures
        payload(other) <= payload(items) + grow * items.len(),
    decreases items.len(),
{
    if items.len() > 0 {
        let a = items.drop_last();
        let b = other.drop_last();
        assert forall|i: int| #![trigger b[i]] 0 <= i < b.len() implies b[i].0.len()
            <= a[i].0.len() + grow && b[i].1.len() == a[i].1.len() by {
            assert(b[i] == other[i]);
        }
        lemma_payload_grown(a, b, grow);
        assert(grow * a.len() + grow == grow * items.len()) by (nonlinear_arith)
            requires
                a.len() + 1 == items.len(),
        ;
        assert(other.last() == other[other.len() - 1]);
    }
}

/// The halves take no more room for keys and values than the whole does.
proof fn lemma_halves_payload(v: NodeView)
    requires
        v.wf(),
        v.header.children >= 2,
        0 <= left_extra(v),
        0 <= right_extra(v),
        forall|i: int|
            0 <= i < split_point(v) ==> left_extra(v) <= (#[trigger] v.items()[i]).0.len(),
        forall|i: int|
            split_point(v) <= i < v.header.children ==> right_extra(v) <= (
            #[trigger] v.items()[i]).0.len(),
    ensures
        HEADER_BYTES + v.lo().len() + hi_bytes(v).len() + payload(left_items(v)) + payload(
            right_items(v),
        ) <= v.byte_len(),
        left_items(v).len() == split_point(v),
        right_items(v).len() == v.header.children - split_point(v),
        left_items(v)[0].1 == v.items()[0].1,
        right_items(v)[0].1 == v.items()[split_point(v)].1,
{
    lemma_split_point(v);
    let at = split_point(v);
    let items = v.items();
    lemma_payload_within(v);
    lemma_payload_item(items, at);
    lemma_payload_grown(items.take(at), left_items(v), 0);
    lemma_payload_grown(items.skip(at), right_items(v), 0);
}

/// A node with at least two items can be split where it and one more key are within
/// reach, its keys are in order and its bounds share its prefix.
pub proof fn nodes_in_reach_can_be_split(v: NodeView)
    requires
        v.orderly(),
        prefix_is_shared(v),
        settled(v),
        v.header.children >= 2,
        in_reach(v.byte_len() + split_key(v).len(), v.header.children as int),
        v.header.is_index ==> v.items()[0].1.len() == 8 && v.items()[split_point(v)].1.len() == 8,
    ensures
        splittable(v),
{
    lemma_extras_fit(v);
    lemma_split_point(v);
    lemma_halves_payload(v);
    items_in_reach_are_buildable(
        v.lo().len(),
        split_key(v).len(),
        v.header.is_index,
        left_items(v),
    );
    items_in_reach_are_buildable(
        split_key(v).len(),
        hi_bytes(v).len(),
        v.header.is_index,
        right_items(v),
    );
}

/// One more item adds no more than its own bytes.
proof fn lemma_stitched_payload(
    items: Seq<(Seq<u8>, Seq<u8>)>,
    index: int,
    item: (Seq<u8>, Seq<u8>),
    replace: bool,
)
    requires
        0 <= index <= items.len(),
        replace ==> index < items.len(),
    ensures
        payload(stitched(items, index, Some(item), replace)) <= payload(items) + item.0.len()
            + item.1.len(),
{
    let after = items.skip(index + if replace {
        1int
    } else {
        0
    });
    lemma_payload_add(items.take(index), seq![item]);
    lemma_payload_add(items.take(index) + seq![item], after);
    lemma_payload_one(item);
    if replace {
        lemma_payload_item(items, index);
    } else {
        lemma_payload_add(items.take(index), items.skip(index));
        assert(items.take(index) + items.skip(index) =~= items);
    }
    assert(stitched(items, index, Some(item), replace) =~= items.take(index) + seq![item] + after);
}

/// An item can be inserted into, or put in place of another of, a node that stays
/// within reach.
#[verifier::rlimit(40)]
proof fn lemma_stitchable_in_reach(
    v: NodeView,
    index: int,
    item: (Seq<u8>, Seq<u8>),
    replace: bool,
)
    requires
        v.wf(),
        0 <= index <= v.header.children,
        replace ==> index < v.header.children,
        !replace ==> v.header.children < u16::MAX,
        in_reach(
            (v.byte_len() + item.0.len() + item.1.len()) as int,
            stitched(v.items(), index, Some(item), replace).len() as int,
        ),
        starts_with_page(v.header.is_index, stitched(v.items(), index, Some(item), replace)),
    ensures
        stitchable(v, index, Some(item), replace),
{
    let new = stitched(v.items(), index, Some(item), replace);
    lemma_payload_within(v);
    lemma_stitched_payload(v.items(), index, item, replace);
    items_in_reach_are_buildable(
        v.header.lo_len as nat,
        v.header.hi_len as nat,
        v.header.is_index,
        new,
    );
}

/// A key that is not there can be inserted into a node that takes no part in a merge
/// and stays within reach.
pub proof fn nodes_in_reach_take_insertions(v: NodeView, key: Seq<u8>, value: Seq<u8>)
    requires
        v.wf(),
        settled(v),
        v.header.children < u16::MAX,
        in_reach((v.byte_len() + key.len() + value.len()) as int, v.header.children + 1),
        starts_with_page(
            v.header.is_index,
            v.items().insert(insertion_index(v, key), (key, value)),
        ),
        v.lookup(key) is None,
    ensures
        insertable(v, key, value),
{
    let at = insertion_index(v, key);
    lemma_search(v.keys(), key);
    assert(stitched(v.items(), at, Some((key, value)), false) =~= v.items().insert(
        at,
        (key, value),
    ));
    lemma_stitchable_in_reach(v, at, (key, value), false);
}

/// A value can be replaced in a node that takes no part in a merge: always by one of the
/// same length, and by any other where the node stays within reach.
pub proof fn nodes_in_reach_take_replacements(v: NodeView, index: int, value: Seq<u8>)
    requires
        v.wf(),
        settled(v),
        0 <= index < v.header.children,
        v.items()[index].1.len() != value.len() ==> {
            &&& in_reach(
                (v.byte_len() + v.items()[index].0.len() + value.len()) as int,
                v.header.children as int,
            )
            &&& starts_with_page(
                v.header.is_index,
                v.items().update(index, (v.items()[index].0, value)),
            )
        },
    ensures
        replaceable(v, index, value),
{
    let item = (v.items()[index].0, value);
    if v.items()[index].1.len() != value.len() {
        assert(stitched(v.items(), index, Some(item), true) =~= v.items().update(index, item));
        lemma_stitchable_in_reach(v, index, item, true);
    }
}

/// The items of a node with more of their whole keys stored.
proof fn lemma_rekeyed_payload(v: NodeView, p: u8)
    requires
        v.wf(),
        v.has_prefix(),
        p <= v.header.prefix_len,
    ensures
        rekeyed(v, p).len() == v.header.children,
        payload(rekeyed(v, p)) <= payload(v.items()) + 255 * v.header.children,
        forall|i: int|
            0 <= i < v.header.children ==> {
                &&& (#[trigger] rekeyed(v, p)[i]).1 == v.items()[i].1
                &&& rekeyed(v, p)[i].0.len() == v.items()[i].0.len() + v.header.prefix_len - p
            },
{
    assert(v.lo().len() == v.header.lo_len);
    assert(v.prefix().len() == v.header.prefix_len);
    lemma_payload_grown(v.items(), rekeyed(v, p), 255);
}

/// Neighbours within reach can be joined.
pub proof fn nodes_in_reach_can_be_merged(l: NodeView, r: NodeView)
    requires
        l.wf(),
        r.wf(),
        l.has_prefix(),
        r.has_prefix(),
        settled(l),
        l.hi() == Some(r.lo()),
        l.header.is_index == r.header.is_index,
        l.header.children + r.header.children <= u16::MAX,
        in_reach(
            l.byte_len() + r.byte_len() + 255 * (l.header.children + r.header.children),
            l.header.children + r.header.children,
        ),
        starts_with_page(l.header.is_index, l.items() + r.items()),
    ensures
        mergeable(l, r),
{
    let p = merged_prefix_len(l, r);
    let all = merged_items(l, r);
    lemma_payload_within(l);
    lemma_payload_within(r);
    lemma_rekeyed_payload(l, p);
    lemma_rekeyed_payload(r, p);
    lemma_payload_add(rekeyed(l, p), rekeyed(r, p));
    if all.len() > 0 {
        if l.header.children > 0 {
            assert(all[0] == rekeyed(l, p)[0]);
            assert((l.items() + r.items())[0] == l.items()[0]);
        } else {
            assert(all[0] == rekeyed(r, p)[0]);
            assert((l.items() + r.items())[0] == r.items()[0]);
        }
    }
    items_in_reach_are_buildable(l.lo().len(), hi_bytes(r).len(), l.header.is_index, all);
}

/// The keys of a half are no longer than those of the whole once they are stored for the
/// joined node.
proof fn lemma_half_rekeyed(
    v: NodeView,
    h: NodeView,
    items: Seq<(Seq<u8>, Seq<u8>)>,
    extra: int,
    p: u8,
)
    requires
        h.wf(),
        h.has_prefix(),
        0 <= extra,
        h.header.prefix_len == v.header.prefix_len + extra,
        h.header.children == items.len(),
        forall|i: int| 0 <= i < items.len() ==> extra <= (#[trigger] items[i]).0.len(),
        h.items() == trimmed(items, extra),
        v.header.prefix_len <= p <= h.header.prefix_len,
    ensures
        rekeyed(h, p).len() == items.len(),
        payload(rekeyed(h, p)) <= payload(items),
{
    lemma_rekeyed_payload(h, p);
    let other = rekeyed(h, p);
    assert forall|i: int| #![trigger other[i]] 0 <= i < other.len() implies other[i].0.len()
        <= items[i].0.len() + 0 && other[i].1.len() == items[i].1.len() by {
        assert(h.items()[i].0 == items[i].0.skip(extra));
        assert(h.items()[i].1 == items[i].1);
        assert(other[i] == rekeyed(h, p)[i]);
    }
    lemma_payload_grown(items, other, 0);
}

/// The halves of a node within reach can be joined again.
#[verifier::rlimit(40)]
pub proof fn halves_in_reach_can_be_merged(v: NodeView, l: NodeView, r: NodeView)
    requires
        v.orderly(),
        splittable(v),
        right_keys_agree(v),
        in_reach(v.byte_len(), v.header.children as int),
        is_left_half(v, l),
        is_right_half(v, r),
    ensures
        mergeable(l, r),
{
    let at = split_point(v);
    let items = v.items();
    let p = merged_prefix_len(l, r);
    let all = merged_items(l, r);
    split_parts_the_entries(v, l, r);
    lemma_halves(v, l, r);
    lemma_half_prefixes(v, l, r);
    lemma_split_point(v);
    lemma_payload_within(v);
    lemma_payload_item(items, at);
    lemma_half_rekeyed(v, l, items.take(at), left_extra(v), p);
    lemma_half_rekeyed(v, r, items.skip(at), right_extra(v), p);
    lemma_payload_add(rekeyed(l, p), rekeyed(r, p));
    lemma_rekeyed_payload(l, p);
    assert(all[0] == rekeyed(l, p)[0]);
    assert(l.items()[0] == left_items(v)[0]);
    items_in_reach_are_buildable(l.lo().len(), hi_bytes(r).len(), l.header.is_index, all);
}

/// What a split gives, a merge joins again, within reach: both halves can be made and
/// joined, and this gives back the entries of the node, its bounds, its neighbour and
/// its count of rewrites. It leaves no less out of its keys than it did.
pub proof fn split_and_merge_give_back_the_node(
    v: NodeView,
    l: NodeView,
    r: NodeView,
    m: NodeView,
)
    requires
        v.orderly(),
        prefix_is_shared(v),
        splittable(v),
        in_reach(v.byte_len(), v.header.children as int),
        is_left_half(v, l),
        is_right_half(v, r),
        is_merged(l, r, m),
    ensures
        mergeable(l, r),
        m.orderly(),
        v.consistent() ==> m.consistent(),
        m.entries() == v.entries(),
        m.lo() == v.lo(),
        m.hi() == v.hi(),
        m.header.next == v.header.next,
        m.header.is_index == v.header.is_index,
        m.header.rewrite_generations == v.header.rewrite_generations,
        v.header.prefix_len <= m.header.prefix_len,
{
    shared_prefixes_agree(v);
    halves_in_reach_can_be_merged(v, l, r);
    merge_undoes_split(v, l, r, m);
}

} // verus!
