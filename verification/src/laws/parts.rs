//! The halves of a node and the join of two, as they are stored.

use vstd::prelude::*;
use crate::node::NodeView;
use crate::laws::headers::{new_headers, offsets_are_narrow, regions_where_lengths_agree};
use crate::order::lemma_common_prefix;
use crate::split::{further_prefix, is_left_half, is_merged, is_right_half, left_extra, left_items, lemma_further_prefix, lemma_halves, lemma_merged, lemma_split_point, merged_items, merged_prefix_len, mergeable, rekeyed, right_extra, right_items, split_key, split_point, splittable, with_counts};
use crate::stitch::hi_bytes;

verus! {

/// How much two byte strings share behind the first `from` bytes, up to 255 bytes in all:
/// as far as they agree, and no further.
pub proof fn further_prefixes_end_where_they_must(a: Seq<u8>, b: Seq<u8>, from: u8)
    requires
        from <= a.len(),
        from <= b.len(),
    ensures
        ({
            let end = from + further_prefix(a, b, from);
            &&& from <= end <= 255
            &&& end <= a.len()
            &&& end <= b.len()
            &&& forall|i: int| from <= i < end ==> #[trigger] a[i] == b[i]
            &&& end == 255 || end == a.len() || end == b.len() || a[end] != b[end]
        }),
{
    let x = a.skip(from as int);
    let y = b.skip(from as int);
    lemma_further_prefix(a, b, from);
    lemma_common_prefix(x, y);
    let end = from + further_prefix(a, b, from);
    assert forall|i: int| from <= i < end implies #[trigger] a[i] == b[i] by {
        assert(x[i - from] == y[i - from]);
    }
    if end < 255 && end < a.len() && end < b.len() {
        assert(x[end - from] == a[end]);
        assert(y[end - from] == b[end]);
    }
}

/// The headers of the halves: both keep the kind of the node, its neighbour and its count
/// of rewrites, and take no part in a merge. The right one is on probation for half as many
/// updates as the node had items, up to 255.
pub proof fn headers_of_halves(v: NodeView, l: NodeView, r: NodeView)
    requires
        splittable(v),
        is_left_half(v, l),
        is_right_half(v, r),
    ensures
        l.header.is_index == v.header.is_index,
        r.header.is_index == v.header.is_index,
        l.header.next == v.header.next,
        r.header.next == v.header.next,
        l.header.rewrite_generations == v.header.rewrite_generations,
        r.header.rewrite_generations == v.header.rewrite_generations,
        l.header.merging_child is None,
        r.header.merging_child is None,
        !l.header.merging,
        !r.header.merging,
        l.header.activity_sketch == 0,
        r.header.activity_sketch == 0,
        l.header.probation_ops_remaining == 0,
        v.header.children < 512 ==> 2 * r.header.probation_ops_remaining <= v.header.children < 2
            * r.header.probation_ops_remaining + 2,
        v.header.children >= 510 ==> r.header.probation_ops_remaining == 255,
{
}

/// The halves store the items in front of the split point and those from it on, each key
/// without what the half leaves out beyond the node: as far as the bounds of the half agree
/// behind the prefix of the node.
#[verifier::rlimit(40)]
pub proof fn items_of_halves(v: NodeView, l: NodeView, r: NodeView)
    requires
        v.wf(),
        splittable(v),
        is_left_half(v, l),
        is_right_half(v, r),
    ensures
        ({
            let at = split_point(v);
            let more_left = l.header.prefix_len - v.header.prefix_len;
            let more_right = r.header.prefix_len - v.header.prefix_len;
            &&& 1 <= at < v.header.children
            &&& l.header.children == at
            &&& r.header.children == v.header.children - at
            &&& l.lo() == v.lo()
            &&& r.lo() == v.lo().take(v.header.prefix_len as int) + v.items()[at].0
            &&& r.hi() == v.hi()
            &&& more_left == further_prefix(v.lo(), r.lo(), v.header.prefix_len)
            &&& v.hi() matches Some(hi) ==> more_right == further_prefix(
                r.lo(),
                hi,
                v.header.prefix_len,
            )
            &&& v.hi() is None ==> more_right == 0
            &&& forall|i: int|
                0 <= i < at ==> #[trigger] l.items()[i] == (
                    v.items()[i].0.skip(more_left),
                    v.items()[i].1,
                )
            &&& forall|i: int|
                0 <= i < v.header.children - at ==> #[trigger] r.items()[i] == (
                    v.items()[at + i].0.skip(more_right),
                    v.items()[at + i].1,
                )
        }),
{
    let p = v.header.prefix_len;
    let at = split_point(v);
    lemma_split_point(v);
    lemma_halves(v, l, r);
    assert(v.lo().len() == v.header.lo_len);
    assert(v.keys()[at] == v.items()[at].0);
    lemma_further_prefix(v.lo(), split_key(v), p);
    if let Some(hi) = v.hi() {
        lemma_further_prefix(split_key(v), hi, p);
    }
}

/// The halves are laid out as compactly as their items allow.
pub proof fn halves_are_compact(v: NodeView, l: NodeView, r: NodeView)
    requires
        v.wf(),
        splittable(v),
        is_left_half(v, l),
        is_right_half(v, r),
    ensures
        regions_where_lengths_agree(l, l.items()),
        offsets_are_narrow(l),
        regions_where_lengths_agree(r, r.items()),
        offsets_are_narrow(r),
{
    lemma_halves(v, l, r);
    new_headers(
        with_counts(l, 0, 0),
        v.lo(),
        split_key(v),
        (v.header.prefix_len + left_extra(v)) as u8,
        v.header.is_index,
        v.header.next,
        left_items(v),
    );
    new_headers(
        with_counts(r, 0, 0),
        split_key(v),
        hi_bytes(v),
        (v.header.prefix_len + right_extra(v)) as u8,
        v.header.is_index,
        v.header.next,
        right_items(v),
    );
}

/// The header of a joined node: it has the neighbour of the right one, the shorter of the
/// prefixes and the lesser of the counts of rewrites, and takes no note of anything else.
pub proof fn headers_of_joined_nodes(l: NodeView, r: NodeView, m: NodeView)
    requires
        l.wf(),
        r.wf(),
        mergeable(l, r),
        is_merged(l, r, m),
    ensures
        m.header.next == r.header.next,
        m.header.is_index == l.header.is_index,
        m.header.merging_child is None,
        !m.header.merging,
        m.header.activity_sketch == 0,
        m.header.probation_ops_remaining == 0,
        m.header.rewrite_generations <= l.header.rewrite_generations,
        m.header.rewrite_generations <= r.header.rewrite_generations,
        m.header.rewrite_generations == l.header.rewrite_generations
            || m.header.rewrite_generations == r.header.rewrite_generations,
        m.header.prefix_len <= l.header.prefix_len,
        m.header.prefix_len <= r.header.prefix_len,
        m.header.prefix_len == l.header.prefix_len || m.header.prefix_len == r.header.prefix_len,
        m.header.children == l.header.children + r.header.children,
        m.lo() == l.lo(),
        m.hi() == r.hi(),
        regions_where_lengths_agree(m, m.items()),
        offsets_are_narrow(m),
{
    lemma_merged(l, r, m);
    new_headers(
        with_counts(m, 0, 0),
        l.lo(),
        hi_bytes(r),
        merged_prefix_len(l, r),
        l.header.is_index,
        r.header.next,
        merged_items(l, r),
    );
}

/// A key of `v` with all but the first `p` bytes of the prefix in front.
pub open spec fn with_prefix_from(v: NodeView, p: u8, key: Seq<u8>) -> Seq<u8> {
    if p == v.header.prefix_len {
        key
    } else {
        v.lo().subrange(p as int, v.header.prefix_len as int) + key
    }
}

/// A joined node stores the items of the left one and then those of the right one: as they
/// were where they left out as much as the joined node does, and else with so much more of
/// the low key of their node in front.
pub proof fn items_of_joined_nodes(l: NodeView, r: NodeView, m: NodeView)
    requires
        l.wf(),
        r.wf(),
        mergeable(l, r),
        is_merged(l, r, m),
    ensures
        ({
            let n = l.header.children as int;
            let p = m.header.prefix_len;
            &&& forall|i: int| 0 <= i < n ==> (#[trigger] m.items()[i]).1 == l.items()[i].1
            &&& forall|i: int|
                0 <= i < r.header.children ==> (#[trigger] m.items()[n + i]).1 == r.items()[i].1
            &&& forall|i: int|
                0 <= i < n ==> (#[trigger] m.items()[i]).0 == with_prefix_from(
                    l,
                    p,
                    l.items()[i].0,
                )
            &&& forall|i: int|
                0 <= i < r.header.children ==> (#[trigger] m.items()[n + i]).0 == with_prefix_from(
                    r,
                    p,
                    r.items()[i].0,
                )
        }),
{
    lemma_merged(l, r, m);
    let n = l.header.children as int;
    let p = merged_prefix_len(l, r);
    assert forall|i: int| 0 <= i < n implies (#[trigger] m.items()[i]).0 == with_prefix_from(
        l,
        p,
        l.items()[i].0,
    ) && m.items()[i].1 == l.items()[i].1 by {
        lemma_more_of_the_low_key(l, p, i);
        assert(m.items()[i] == rekeyed(l, p)[i]);
    }
    assert forall|i: int| 0 <= i < r.header.children implies (#[trigger] m.items()[n + i]).0
        == with_prefix_from(r, p, r.items()[i].0) && m.items()[n
        + i].1 == r.items()[i].1 by {
        lemma_more_of_the_low_key(r, p, i);
        assert(m.items()[n + i] == rekeyed(r, p)[i]);
    }
}

proof fn lemma_more_of_the_low_key(v: NodeView, p: u8, i: int)
    requires
        v.wf(),
        p <= v.header.prefix_len,
        p < v.header.prefix_len ==> v.has_prefix(),
        0 <= i < v.header.children,
    ensures
        rekeyed(v, p).len() == v.header.children,
        rekeyed(v, p)[i].0 == with_prefix_from(v, p, v.items()[i].0),
        rekeyed(v, p)[i].1 == v.items()[i].1,
{
    let n = v.header.prefix_len as int;
    assert(v.lo().len() == v.header.lo_len);
    if p < v.header.prefix_len {
        assert((v.prefix() + v.items()[i].0).skip(p as int) =~= v.lo().subrange(p as int, n)
            + v.items()[i].0);
    }
}

} // verus!
