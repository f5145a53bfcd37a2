//! What the headers of new nodes say.

use vstd::prelude::*;
use crate::bytes::{lemma_pow256_values, pow256};
use crate::create::{buildable, built, common_len, fresh_len, fresh_shape, key_lens, lemma_built, offset_width, value_lens, widest_room};
use crate::header::Header;
use crate::laws::activity::{bit, insertions_are_sketched};
use crate::layout::image;
use crate::node::NodeView;
use crate::nonzero::NonZeroU64;
use crate::stitch::{grown_len, hi_bytes, is_stitched, lemma_is_stitched, new_sketch, outgrows, stitchable, stitched, takes_slow_path};
use crate::update::{is_replaced, lemma_replaced_in_place, replaceable};
use crate::varint::varint_len;

verus! {

/// Whether a header takes no note of rewrites, merges, probation or activity.
pub open spec fn untouched(v: NodeView) -> bool {
    &&& v.header.merging_child is None
    &&& !v.header.merging
    &&& v.header.probation_ops_remaining == 0
    &&& v.header.rewrite_generations == 0
    &&& v.padding.len() == 7
    &&& forall|i: int| 0 <= i < 7 ==> #[trigger] v.padding[i] == 0
}

/// Whether keys and values have regions of their own exactly where all have one length
/// that is not zero.
pub open spec fn regions_where_lengths_agree(v: NodeView, items: Seq<(Seq<u8>, Seq<u8>)>) -> bool {
    &&& v.header.fixed_key_length is Some <==> {
        &&& items.len() > 0
        &&& items[0].0.len() > 0
        &&& forall|i: int| 0 <= i < items.len() ==> (#[trigger] items[i]).0.len() == items[0].0.len()
    }
    &&& v.header.fixed_key_length matches Some(k) ==> k@ == items[0].0.len()
    &&& v.header.fixed_value_length is Some <==> {
        &&& items.len() > 0
        &&& items[0].1.len() > 0
        &&& forall|i: int| 0 <= i < items.len() ==> (#[trigger] items[i]).1.len() == items[0].1.len()
    }
    &&& v.header.fixed_value_length matches Some(x) ==> x@ == items[0].1.len()
}

/// Whether the offsets are as narrow as can be, with six bytes counted for each of them,
/// and absent where keys and values have regions of their own.
pub open spec fn offsets_are_narrow(v: NodeView) -> bool {
    let w = v.header.offset_bytes;
    let n = v.header.children;
    let widest = v.buf.len() - v.header.lo_len - v.header.hi_len - n * w + 6 * n;
    if v.header.fixed_key_length is Some && v.header.fixed_value_length is Some {
        w == 0
    } else {
        &&& 1 <= w <= 6
        &&& widest < pow256(w as nat)
        &&& w > 1 ==> widest >= pow256((w - 1) as nat)
    }
}

proof fn lemma_common_len(lens: Seq<nat>)
    ensures
        common_len(lens) is Some <==> lens.len() > 0 && lens[0] > 0 && forall|i: int|
            0 <= i < lens.len() ==> #[trigger] lens[i] == lens[0],
        common_len(lens) matches Some(k) ==> k == lens[0],
{
}

proof fn lemma_regions(v: NodeView, items: Seq<(Seq<u8>, Seq<u8>)>)
    requires
        v.header.shape() == fresh_shape(items),
    ensures
        regions_where_lengths_agree(v, items),
{
    let ks = key_lens(items);
    let xs = value_lens(items);
    lemma_common_len(ks);
    lemma_common_len(xs);
    assert(forall|i: int| 0 <= i < items.len() ==> #[trigger] ks[i] == items[i].0.len());
    assert(forall|i: int| 0 <= i < items.len() ==> #[trigger] xs[i] == items[i].1.len());
    if items.len() > 0 {
        assert(ks[0] == items[0].0.len());
        assert(xs[0] == items[0].1.len());
        assert((forall|i: int| 0 <= i < ks.len() ==> #[trigger] ks[i] == ks[0]) <==> (forall|i: int|
            0 <= i < items.len() ==> (#[trigger] items[i]).0.len() == items[0].0.len())) by {
            if forall|i: int| 0 <= i < ks.len() ==> #[trigger] ks[i] == ks[0] {
                assert forall|i: int| 0 <= i < items.len() implies (#[trigger] items[i]).0.len()
                    == items[0].0.len() by {
                    assert(ks[i] == ks[0]);
                }
            }
        }
        assert((forall|i: int| 0 <= i < xs.len() ==> #[trigger] xs[i] == xs[0]) <==> (forall|i: int|
            0 <= i < items.len() ==> (#[trigger] items[i]).1.len() == items[0].1.len())) by {
            if forall|i: int| 0 <= i < xs.len() ==> #[trigger] xs[i] == xs[0] {
                assert forall|i: int| 0 <= i < items.len() implies (#[trigger] items[i]).1.len()
                    == items[0].1.len() by {
                    assert(xs[i] == xs[0]);
                }
            }
        }
    }
    assert(v.header.shape().key_len is Some <==> v.header.fixed_key_length is Some);
    assert(v.header.shape().value_len is Some <==> v.header.fixed_value_length is Some);
}

/// An offset width is the least that counts up to its total.
pub proof fn offset_widths_are_least(total: nat)
    requires
        total < 0x1_0000_0000_0000,
    ensures
        1 <= offset_width(total) <= 6,
        total < pow256(offset_width(total)),
        offset_width(total) > 1 ==> total >= pow256((offset_width(total) - 1) as nat),
{
    lemma_pow256_values();
}

proof fn lemma_narrow(
    v: NodeView,
    lo_len: nat,
    hi_len: nat,
    is_index: bool,
    items: Seq<(Seq<u8>, Seq<u8>)>,
)
    requires
        buildable(lo_len, hi_len, is_index, items),
        v.header.shape() == fresh_shape(items),
        v.header.lo_len == lo_len,
        v.header.hi_len == hi_len,
        v.header.children == items.len(),
        v.buf.len() == lo_len + hi_len + fresh_len(items),
    ensures
        offsets_are_narrow(v),
{
    let sh = fresh_shape(items);
    assert(v.header.shape().key_len is Some <==> v.header.fixed_key_length is Some);
    assert(v.header.shape().value_len is Some <==> v.header.fixed_value_length is Some);
    if sh.key_len is None || sh.value_len is None {
        offset_widths_are_least(widest_room(items));
        let n = v.header.children as int;
        let w = v.header.offset_bytes as int;
        assert(n * w == items.len() * sh.offset_bytes);
    }
}

/// The header of a new node says what it was made of, takes no note of anything else, and
/// lays the items out as compactly as they allow.
pub proof fn new_headers(
    v: NodeView,
    lo: Seq<u8>,
    hi: Seq<u8>,
    prefix_len: u8,
    is_index: bool,
    next: Option<NonZeroU64>,
    items: Seq<(Seq<u8>, Seq<u8>)>,
)
    requires
        buildable(lo.len(), hi.len(), is_index, items),
        built(v, lo, hi, prefix_len, is_index, next, items),
    ensures
        untouched(v),
        v.header.activity_sketch == 0,
        v.header.lo_len == lo.len(),
        v.header.hi_len == hi.len(),
        v.header.children == items.len(),
        v.header.prefix_len == prefix_len,
        v.header.is_index == is_index,
        v.header.next == next,
        v.items() == items,
        v.lo() == lo,
        regions_where_lengths_agree(v, items),
        offsets_are_narrow(v),
{
    lemma_built(v, lo, hi, prefix_len, is_index, next, items);
    lemma_regions(v, items);
    lemma_narrow(v, lo.len(), hi.len(), is_index, items);
}

/// Whether an item would not fit into the layout of a node: its size, estimated with six
/// bytes for its offset, is beyond what the offsets count, or it has not the length of the
/// others.
pub open spec fn breaks_the_layout(v: NodeView, item: (Seq<u8>, Seq<u8>)) -> bool {
    ||| 64 + v.buf.len() + varint_len(item.0.len()) + item.0.len() + varint_len(item.1.len())
        + item.1.len() + 6 >= pow256(v.header.offset_bytes as nat)
    ||| v.header.fixed_key_length matches Some(k) && k@ != item.0.len()
    ||| v.header.fixed_value_length matches Some(x) && x@ != item.1.len()
}

proof fn lemma_breaks(v: NodeView, item: (Seq<u8>, Seq<u8>))
    requires
        v.wf(),
        grown_len(v, item) < 0x1_0000_0000_0000,
    ensures
        outgrows(v, item) <==> breaks_the_layout(v, item),
{
    lemma_pow256_values();
    offset_widths_are_least(grown_len(v, item) as nat);
    let w = v.header.offset_bytes;
    assert(w <= 6);
    assert(w == 0 || w == 1 || w == 2 || w == 3 || w == 4 || w == 5 || w == 6);
    assert(v.header.shape().key_len is Some <==> v.header.fixed_key_length is Some);
    assert(v.header.shape().value_len is Some <==> v.header.fixed_value_length is Some);
}

/// An update that fits the layout of a node, as each removal does, changes the number of
/// items and counts down the probation, changes nothing else of the header, and leaves its
/// padding zero.
#[verifier::rlimit(40)]
pub proof fn updates_in_shape_keep_the_header(
    v: NodeView,
    r: NodeView,
    index: int,
    new_item: Option<(Seq<u8>, Seq<u8>)>,
    replace: bool,
)
    requires
        v.wf(),
        stitchable(v, index, new_item, replace),
        is_stitched(v, r, index, new_item, replace),
        new_item matches Some(item) ==> !breaks_the_layout(v, item),
    ensures
        r.header.next == v.header.next,
        r.header.merging_child == v.header.merging_child,
        r.header.lo_len == v.header.lo_len,
        r.header.hi_len == v.header.hi_len,
        r.header.fixed_key_length == v.header.fixed_key_length,
        r.header.fixed_value_length == v.header.fixed_value_length,
        r.header.offset_bytes == v.header.offset_bytes,
        r.header.prefix_len == v.header.prefix_len,
        r.header.rewrite_generations == v.header.rewrite_generations,
        r.header.activity_sketch == v.header.activity_sketch,
        r.header.merging == v.header.merging,
        r.header.is_index == v.header.is_index,
        v.header.probation_ops_remaining > 0 ==> r.header.probation_ops_remaining + 1
            == v.header.probation_ops_remaining,
        v.header.probation_ops_remaining == 0 ==> r.header.probation_ops_remaining == 0,
        replace && new_item is Some ==> r.header.children == v.header.children,
        replace && new_item is None ==> r.header.children == v.header.children - 1,
        !replace ==> r.header.children == v.header.children + 1,
        r.padding.len() == 7,
        forall|i: int| 0 <= i < 7 ==> #[trigger] r.padding[i] == 0,
{
    if let Some(item) = new_item {
        lemma_breaks(v, item);
    }
    lemma_is_stitched(v, r, index, new_item, replace);
}

/// An update that does not fit the layout of a node lays it out anew: its header takes no
/// note of rewrites, merges or probation any more, and the items are laid out as compactly
/// as they allow.
pub proof fn updates_out_of_shape_start_afresh(
    v: NodeView,
    r: NodeView,
    index: int,
    item: (Seq<u8>, Seq<u8>),
    replace: bool,
)
    requires
        v.wf(),
        stitchable(v, index, Some(item), replace),
        is_stitched(v, r, index, Some(item), replace),
        breaks_the_layout(v, item),
    ensures
        untouched(r),
        r.header.next == v.header.next,
        r.header.prefix_len == v.header.prefix_len,
        r.header.is_index == v.header.is_index,
        r.header.lo_len == v.header.lo_len,
        r.header.hi_len == v.header.hi_len,
        replace ==> r.header.children == v.header.children,
        !replace ==> r.header.children == v.header.children + 1,
        regions_where_lengths_agree(r, r.items()),
        offsets_are_narrow(r),
{
    lemma_breaks(v, item);
    lemma_anew_fields(v, r, index, item, replace);
    lemma_anew_regions(v, r, index, item, replace);
    lemma_anew_narrow(v, r, index, item, replace);
}

proof fn lemma_anew_fields(
    v: NodeView,
    r: NodeView,
    index: int,
    item: (Seq<u8>, Seq<u8>),
    replace: bool,
)
    requires
        0 <= index <= v.header.children,
        replace ==> index < v.header.children,
        stitched(v.items(), index, Some(item), replace).len() <= u16::MAX,
        is_stitched(v, r, index, Some(item), replace),
        takes_slow_path(v, Some(item)),
    ensures
        untouched(r),
        r.header.next == v.header.next,
        r.header.prefix_len == v.header.prefix_len,
        r.header.is_index == v.header.is_index,
        replace ==> r.header.children == v.header.children,
        !replace ==> r.header.children == v.header.children + 1,
{
    assert(stitched(v.items(), index, Some(item), replace).len() == if replace {
        v.header.children as int
    } else {
        v.header.children + 1
    });
}

proof fn lemma_anew_regions(
    v: NodeView,
    r: NodeView,
    index: int,
    item: (Seq<u8>, Seq<u8>),
    replace: bool,
)
    requires
        v.wf(),
        stitchable(v, index, Some(item), replace),
        is_stitched(v, r, index, Some(item), replace),
        takes_slow_path(v, Some(item)),
    ensures
        regions_where_lengths_agree(r, r.items()),
{
    lemma_is_stitched(v, r, index, Some(item), replace);
    lemma_regions(r, stitched(v.items(), index, Some(item), replace));
}

/// An update that lays a node out anew marks the eighth of the node that it falls into, the
/// last one where it is at the end, and keeps all other marks. A single item bears none.
pub proof fn updates_out_of_shape_are_sketched(
    v: NodeView,
    r: NodeView,
    index: int,
    item: (Seq<u8>, Seq<u8>),
    replace: bool,
    b: int,
)
    requires
        v.wf(),
        stitchable(v, index, Some(item), replace),
        is_stitched(v, r, index, Some(item), replace),
        breaks_the_layout(v, item),
        0 <= b < 8,
    ensures
        ({
            let n = v.header.children as int;
            let here = if index == n {
                b == 7
            } else {
                b * n <= 8 * index < (b + 1) * n
            };
            bit(r.header.activity_sketch, b) == if r.header.children <= 1 {
                0
            } else if here {
                1
            } else {
                bit(v.header.activity_sketch, b)
            }
        }),
{
    lemma_anew_sketch(v, r, index, item, replace);
    if r.header.children > 1 {
        insertions_are_sketched(v, index, r.header.children as nat, b);
    }
}

proof fn lemma_anew_sketch(
    v: NodeView,
    r: NodeView,
    index: int,
    item: (Seq<u8>, Seq<u8>),
    replace: bool,
)
    requires
        v.wf(),
        stitchable(v, index, Some(item), replace),
        is_stitched(v, r, index, Some(item), replace),
        breaks_the_layout(v, item),
    ensures
        0 <= index <= v.header.children,
        r.header.activity_sketch == new_sketch(v, index, r.header.children as nat),
        r.header.children > 1 ==> v.header.children > 0,
{
    lemma_breaks(v, item);
}

proof fn lemma_anew_narrow(
    v: NodeView,
    r: NodeView,
    index: int,
    item: (Seq<u8>, Seq<u8>),
    replace: bool,
)
    requires
        v.wf(),
        stitchable(v, index, Some(item), replace),
        is_stitched(v, r, index, Some(item), replace),
        takes_slow_path(v, Some(item)),
    ensures
        offsets_are_narrow(r),
        r.header.lo_len == v.header.lo_len,
        r.header.hi_len == v.header.hi_len,
{
    let items = stitched(v.items(), index, Some(item), replace);
    let f = NodeView {
        header: Header { activity_sketch: 0, ..r.header },
        ..r
    };
    assert(v.lo().len() == v.header.lo_len);
    assert(hi_bytes(v).len() == v.header.hi_len);
    lemma_built(
        f,
        v.lo(),
        hi_bytes(v),
        v.header.prefix_len,
        v.header.is_index,
        v.header.next,
        items,
    );
    lemma_narrow(f, v.lo().len(), hi_bytes(v).len(), v.header.is_index, items);
}

/// A value replaced by one of the same length leaves the header, the padding and the size
/// of the node as they were.
pub proof fn replacements_in_place_keep_the_header(
    v: NodeView,
    r: NodeView,
    index: int,
    value: Seq<u8>,
)
    requires
        v.wf(),
        replaceable(v, index, value),
        is_replaced(v, r, index, value),
        v.items()[index].1.len() == value.len(),
    ensures
        r.header == v.header,
        r.padding == v.padding,
        r.buf.len() == v.buf.len(),
{
    lemma_replaced_in_place(v, r_target(v, index, value), index, value);
}

spec fn r_target(v: NodeView, index: int, value: Seq<u8>) -> NodeView {
    NodeView {
        header: v.header,
        padding: v.padding,
        buf: v.buf.take(v.header.data_start()) + image(
            v.header.shape(),
            v.items().update(index, (v.items()[index].0, value)),
        ),
    }
}

} // verus!
