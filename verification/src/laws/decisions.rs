//! When nodes are split and merged.

use vstd::prelude::*;
use crate::bytes::le_value;
use crate::node::NodeView;
use crate::policy::{crowded, overfull, sparse, underfull};
use crate::search::{first_pid, lemma_first_pid};

verus! {

/// A leaf of more than two KiB and more than one item is to be split, and no other, as
/// long as neither it nor a child of it is being merged.
pub proof fn large_leaves_are_split(v: NodeView)
    requires
        !v.header.is_index,
    ensures
        overfull(v) <==> v.byte_len() > 2048 && v.header.children >= 2 && !v.header.merging
            && v.header.merging_child is None,
{
}

/// An index node of more than 128 KiB and more than one child is to be split, and no
/// other, as long as neither it nor a child of it is being merged.
pub proof fn large_index_nodes_are_split(v: NodeView)
    requires
        v.header.is_index,
    ensures
        overfull(v) <==> v.byte_len() > 131072 && v.header.children >= 2 && !v.header.merging
            && v.header.merging_child is None,
{
}

/// A leaf of less than 512 bytes is to be merged, and no other, as long as neither it nor
/// a child of it is being merged and it is not on probation.
pub proof fn small_leaves_are_merged(v: NodeView)
    requires
        !v.header.is_index,
    ensures
        underfull(v) <==> v.byte_len() < 512 && !v.header.merging && v.header.merging_child is None
            && v.header.probation_ops_remaining == 0,
{
}

/// An index node of less than 32 KiB is to be merged, and no other, as long as neither it
/// nor a child of it is being merged and it is not on probation.
pub proof fn small_index_nodes_are_merged(v: NodeView)
    requires
        v.header.is_index,
    ensures
        underfull(v) <==> v.byte_len() < 32768 && !v.header.merging && v.header.merging_child
            is None && v.header.probation_ops_remaining == 0,
{
}

/// What is to be split is to be split all the more once it is larger: with as many bytes
/// and items or more, and no merge under way, a node of the same kind is to be split too,
/// whatever else its header says.
pub proof fn growth_calls_for_a_split(v: NodeView, w: NodeView)
    requires
        overfull(v),
        w.header.is_index == v.header.is_index,
        w.byte_len() >= v.byte_len(),
        w.header.children >= v.header.children,
        w.header.merging == v.header.merging,
        w.header.merging_child == v.header.merging_child,
    ensures
        overfull(w),
{
}

/// What is to be merged is to be merged all the more once it is smaller, whatever else
/// its header says.
pub proof fn shrinkage_calls_for_a_merge(v: NodeView, w: NodeView)
    requires
        underfull(v),
        w.header.is_index == v.header.is_index,
        w.byte_len() <= v.byte_len(),
        w.header.merging == v.header.merging,
        w.header.merging_child == v.header.merging_child,
        w.header.probation_ops_remaining <= v.header.probation_ops_remaining,
    ensures
        underfull(w),
{
}

/// Whether a node is to be split or merged depends on its kind, its size, its items, its
/// probation and the merges under way, and on nothing else.
pub proof fn decisions_rest_on_little(v: NodeView, w: NodeView)
    requires
        w.header.is_index == v.header.is_index,
        w.header.children == v.header.children,
        w.header.merging == v.header.merging,
        w.header.merging_child is None <==> v.header.merging_child is None,
    ensures
        w.byte_len() == v.byte_len() ==> overfull(w) == overfull(v),
        w.byte_len() == v.byte_len() && w.header.probation_ops_remaining
            == v.header.probation_ops_remaining ==> underfull(w) == underfull(v),
        crowded(w) == crowded(v),
        w.header.probation_ops_remaining == v.header.probation_ops_remaining ==> sparse(w)
            == sparse(v),
{
}

/// Where splits and merges are to be frequent, five items are too many and one is too
/// few, however many bytes they take, of leaves and index nodes alike.
pub proof fn frequent_splits_and_merges(v: NodeView)
    requires
        !v.header.merging,
        v.header.merging_child is None,
    ensures
        crowded(v) <==> v.header.children >= 5,
        sparse(v) <==> v.header.children <= 1 && v.header.probation_ops_remaining == 0,
{
}

/// A node that is being merged, or a child of which is, is neither split nor merged.
pub proof fn merging_nodes_are_left_alone(v: NodeView)
    requires
        v.header.merging || v.header.merging_child is Some,
    ensures
        !overfull(v),
        !underfull(v),
        !crowded(v),
        !sparse(v),
{
}

/// A child is found exactly where one of the values is its page, at the first of them.
pub proof fn the_first_page_is_found(v: NodeView, pid: u64)
    ensures
        first_pid(v, pid, 0) < v.header.children <==> exists|i: int|
            0 <= i < v.header.children && le_value((#[trigger] v.items()[i]).1) == pid,
        forall|i: int|
            0 <= i < v.header.children && le_value((#[trigger] v.items()[i]).1) == pid
                ==> first_pid(v, pid, 0) <= i && v.pid(first_pid(v, pid, 0)) == pid,
{
    lemma_first_pid(v, pid, 0);
    let at = first_pid(v, pid, 0);
    if at < v.header.children {
        assert(le_value(v.items()[at].1) == pid);
    }
    assert forall|i: int|
        0 <= i < v.header.children && le_value((#[trigger] v.items()[i]).1) == pid implies at <= i
        && v.pid(at) == pid by {}
}

} // verus!
