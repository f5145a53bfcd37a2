//! When nodes are split and merged.

use vstd::prelude::*;
use crate::header::HEADER_BYTES;
use crate::node::{Node, NodeView};
use crate::update::settled;

verus! {

/// Whether a node has grown so large that it is to be split.
pub open spec fn overfull(v: NodeView) -> bool {
    &&& settled(v)
    &&& v.header.children > 1
    &&& v.byte_len() > if v.header.is_index {
        128 * 1024int
    } else {
        2048
    }
}

/// Whether a node has shrunk so far that it is to be merged into its left sibling.
pub open spec fn underfull(v: NodeView) -> bool {
    &&& settled(v)
    &&& v.header.probation_ops_remaining == 0
    &&& v.byte_len() < if v.header.is_index {
        32 * 1024int
    } else {
        512
    }
}

/// Whether a node is to be split where splits are to be frequent.
pub open spec fn crowded(v: NodeView) -> bool {
    settled(v) && v.header.children > 4
}

/// Whether a node is to be merged where merges are to be frequent.
pub open spec fn sparse(v: NodeView) -> bool {
    settled(v) && v.header.probation_ops_remaining == 0 && v.header.children < 2
}

impl Node {
    /// Whether the node takes no part in a merge.
    fn is_settled(&self) -> (r: bool)
        ensures
            r == settled(self@),
    {
        self.header.merging_child.is_none() && !self.header.merging
    }

    /// Whether the node is to be split.
    pub fn should_split(&self) -> (r: bool)
        ensures
            r == overfull(self@),
            r == (!self@.header.merging && self@.header.merging_child is None
                && self@.header.children > 1 && (if self@.header.is_index {
                self@.byte_len() > 131072
            } else {
                self@.byte_len() > 2048
            })),
    {
        let threshold: usize = if self.header.is_index {
            128 * 1024
        } else {
            2048
        };
        let size_check = self.buf.len() > threshold - HEADER_BYTES && self.len() > 1;
        self.is_settled() && size_check
    }

    /// Whether the node is to be merged into its left sibling.
    pub fn should_merge(&self) -> (r: bool)
        ensures
            r == underfull(self@),
            r == (!self@.header.merging && self@.header.merging_child is None
                && self@.header.probation_ops_remaining == 0 && (if self@.header.is_index {
                self@.byte_len() < 32768
            } else {
                self@.byte_len() < 512
            })),
    {
        let threshold: usize = if self.header.is_index {
            32 * 1024
        } else {
            512
        };
        let size_check = self.buf.len() < threshold - HEADER_BYTES;
        self.is_settled() && self.header.probation_ops_remaining == 0 && size_check
    }

    /// Whether the node is to be split, by the number of its items alone: for builds
    /// that exercise splits.
    pub fn should_split_eagerly(&self) -> (r: bool)
        ensures
            r == crowded(self@),
            r == (!self@.header.merging && self@.header.merging_child is None
                && self@.header.children > 4),
    {
        self.is_settled() && self.len() > 4
    }

    /// Whether the node is to be merged into its left sibling, by the number of its
    /// items alone: for builds that exercise merges.
    pub fn should_merge_eagerly(&self) -> (r: bool)
        ensures
            r == sparse(self@),
            r == (!self@.header.merging && self@.header.merging_child is None
                && self@.header.probation_ops_remaining == 0 && self@.header.children < 2),
    {
        self.is_settled() && self.header.probation_ops_remaining == 0 && self.len() < 2
    }
}

/// No node is to be split and merged at once.
pub proof fn never_split_and_merged(v: NodeView)
    ensures
        !(overfull(v) && underfull(v)),
        !(crowded(v) && sparse(v)),
{
}

} // verus!
