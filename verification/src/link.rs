//! Updates that are applied to nodes.

use vstd::prelude::*;
use crate::header::Header;
use crate::node::{lemma_holds, Node, NodeView};
use crate::nonzero::NonZeroU64;
use crate::search::{first_pid, pids_readable};
use crate::update::{insertable, insertion_index, is_inserted, is_removed, is_replaced, removable, replaceable};

verus! {

/// An update of a node.
#[derive(Debug)]
pub enum Link {
    /// A new key, as it is stored, with its value.
    Put(Vec<u8>, Vec<u8>),
    /// A new value for the item at an index.
    Replace(usize, Vec<u8>),
    /// The item at an index goes away.
    Del(usize),
    /// A child of this index node is about to be merged into its left sibling.
    ParentMergeIntention(u64),
    /// The child was merged into its left sibling.
    ParentMergeConfirm,
    /// The node itself is being merged into its left sibling.
    ChildMergeCap,
}

/// Whether an update can be applied.
pub open spec fn applicable(v: NodeView, link: Link) -> bool {
    &&& !v.header.merging
    &&& match link {
        Link::Put(k, x) => insertable(v, k@, x@),
        Link::Replace(index, x) => replaceable(v, index as int, x@),
        Link::Del(index) => removable(v, index as int),
        Link::ParentMergeIntention(pid) => {
            &&& pid != 0
            &&& v.header.merging_child is None
            &&& pids_readable(v, pid)
            &&& first_pid(v, pid, 0) < v.header.children
        },
        Link::ParentMergeConfirm => {
            &&& v.header.merging_child matches Some(child) && {
                &&& pids_readable(v, child@)
                &&& first_pid(v, child@, 0) < v.header.children
                &&& removable(v, first_pid(v, child@, 0))
            }
        },
        Link::ChildMergeCap => true,
    }
}

/// Whether `r` is `v` after an update.
pub open spec fn is_applied(v: NodeView, r: NodeView, link: Link) -> bool {
    match link {
        Link::Put(k, x) => is_inserted(v, r, k@, x@),
        Link::Replace(index, x) => is_replaced(v, r, index as int, x@),
        Link::Del(index) => is_removed(v, r, index as int),
        Link::ParentMergeIntention(pid) => {
            &&& r.header.merging_child matches Some(child) && child@ == pid
            &&& r.header == (Header { merging_child: r.header.merging_child, ..v.header })
            &&& r.padding == v.padding
            &&& r.buf == v.buf
        },
        Link::ParentMergeConfirm => {
            &&& r.header.merging_child is None
            &&& is_removed(
                v,
                NodeView {
                    header: Header { merging_child: v.header.merging_child, ..r.header },
                    ..r
                },
                first_pid(v, v.header.merging_child->0@, 0),
            )
        },
        Link::ChildMergeCap => {
            &&& r.header == (Header { merging: true, ..v.header })
            &&& r.padding == v.padding
            &&& r.buf == v.buf
        },
    }
}

/// Fields that have no part in the layout have no part in the items.
pub proof fn lemma_relabelled(v: NodeView, r: NodeView)
    requires
        v.wf(),
        r.buf == v.buf,
        r.header.children == v.header.children,
        r.header.lo_len == v.header.lo_len,
        r.header.hi_len == v.header.hi_len,
        r.header.fixed_key_length == v.header.fixed_key_length,
        r.header.fixed_value_length == v.header.fixed_value_length,
        r.header.offset_bytes == v.header.offset_bytes,
    ensures
        r.wf(),
        r.items() == v.items(),
        r.keys() == v.keys(),
        r.lo() == v.lo(),
        r.hi() == v.hi(),
{
    assert(r.holds(v.items()));
    lemma_holds(r, v.items());
    assert forall|i: int| 0 <= i < v.header.children implies r.keys()[i] == v.keys()[i] by {
        assert(r.items()[i] == v.items()[i]);
    }
    assert(r.keys() =~= v.keys());
}

impl Node {
    /// The node after an update.
    pub fn apply(&self, link: &Link) -> (ret: Node)
        requires
            self@.wf(),
            applicable(self@, *link),
        ensures
            is_applied(self@, ret@, *link),
            ret@.wf(),
            ret@.lo() == self@.lo(),
            ret@.hi() == self@.hi(),
            match *link {
                Link::Put(k, x) => ret@.items() == self@.items().insert(
                    insertion_index(self@, k@),
                    (k@, x@),
                ),
                Link::Replace(index, x) => ret@.items() == self@.items().update(
                    index as int,
                    (self@.items()[index as int].0, x@),
                ),
                Link::Del(index) => ret@.items() == self@.items().remove(index as int),
                Link::ParentMergeIntention(pid) => {
                    &&& ret@.items() == self@.items()
                    &&& ret@.header.merging_child matches Some(child) && child@ == pid
                },
                Link::ParentMergeConfirm => {
                    &&& ret@.items() == self@.items().remove(
                        first_pid(self@, self@.header.merging_child->0@, 0),
                    )
                    &&& ret@.header.merging_child is None
                },
                Link::ChildMergeCap => ret@.items() == self@.items() && ret@.header.merging,
            },
    {
        match link {
            Link::Put(k, v) => self.insert(k.as_slice(), v.as_slice()),
            Link::Replace(index, v) => self.replace(*index, v.as_slice()),
            Link::Del(index) => self.remove_index(*index),
            Link::ParentMergeIntention(pid) => {
                let mut ret = self.clone();
                ret.header.merging_child = NonZeroU64::new(*pid);
                proof {
                    lemma_relabelled(self@, ret@);
                }
                ret
            },
            Link::ParentMergeConfirm => {
                let merged_child = match self.header.merging_child {
                    Some(child) => child.get(),
                    None => 0,
                };
                let idx = self.pid_position(merged_child).unwrap();
                let mut ret = self.remove_index(idx);
                let ghost before = ret@;
                ret.header.merging_child = None;
                proof {
                    lemma_relabelled(before, ret@);
                    assert(NodeView {
                        header: Header {
                            merging_child: self@.header.merging_child,
                            ..ret@.header
                        },
                        ..ret@
                    } == before);
                }
                ret
            },
            Link::ChildMergeCap => {
                let mut ret = self.clone();
                ret.header.merging = true;
                proof {
                    lemma_relabelled(self@, ret@);
                }
                ret
            },
        }
    }
}

} // verus!
