//! A node and its parent, when the node is split or merged.

use vstd::prelude::*;
use crate::bytes::le_bytes;
use crate::laws::halves::{lemma_split_key_between, merge_joins_the_keys, split_parts_the_keys};
use crate::laws::routing::{each_key_has_a_child, lemma_route_is, lost_child_leaves_its_keys, new_child_takes_its_keys};
use crate::node::NodeView;
use crate::order::lemma_lex_transitive;
use crate::split::{is_left_half, is_merged, is_right_half, mergeable, split_key, splittable};
use crate::update::{insertable, is_inserted, is_removed, removable};

verus! {

/// Whether the bounds of `child` are those that its parent gives to child `c`.
pub open spec fn spans(parent: NodeView, c: int, child: NodeView) -> bool {
    &&& 0 <= c < parent.header.children
    &&& child.lo() == parent.full_key(c)
    &&& child.hi() == if c + 1 < parent.header.children {
        Some(parent.full_key(c + 1))
    } else {
        parent.hi()
    }
}

/// The parent sends exactly the keys within the bounds of a child to it.
pub proof fn parent_and_child_agree(parent: NodeView, c: int, child: NodeView, key: Seq<u8>)
    requires
        parent.covering(),
        spans(parent, c, child),
    ensures
        child.in_bounds(key) <==> parent.in_bounds(key) && parent.route(key) == c,
{
    assert(parent.in_bounds(parent.full_key(c)));
    if child.in_bounds(key) {
        if parent.lo() != parent.full_key(c) && parent.full_key(c) != key {
            lemma_lex_transitive(parent.lo(), parent.full_key(c), key);
        }
        if c + 1 < parent.header.children {
            assert(parent.in_bounds(parent.full_key(c + 1)));
            if let Some(hi) = parent.hi() {
                lemma_lex_transitive(key, parent.full_key(c + 1), hi);
            }
        }
        lemma_route_is(parent, key, c);
    }
    if parent.in_bounds(key) && parent.route(key) == c {
        each_key_has_a_child(parent, key);
    }
}

/// After a child was split, and its parent was told of the right half, the parent sends
/// the keys of the left half to the page of the child and those of the right half to
/// the new page. Every other key goes where it went before.
pub proof fn split_reaches_both_halves(
    parent: NodeView,
    told: NodeView,
    c: int,
    v: NodeView,
    l: NodeView,
    r: NodeView,
    to: u64,
    key: Seq<u8>,
)
    requires
        parent.covering(),
        spans(parent, c, v),
        v.consistent(),
        splittable(v),
        is_left_half(v, l),
        is_right_half(v, r),
        insertable(
            parent,
            split_key(v).skip(parent.header.prefix_len as int),
            le_bytes(to as nat, 8),
        ),
        is_inserted(
            parent,
            told,
            split_key(v).skip(parent.header.prefix_len as int),
            le_bytes(to as nat, 8),
        ),
        parent.in_bounds(key),
    ensures
        told.in_bounds(key),
        told.pid(told.route(key)) == if r.in_bounds(key) {
            to as nat
        } else {
            parent.pid(parent.route(key))
        },
        l.in_bounds(key) ==> told.pid(told.route(key)) == parent.pid(c),
{
    let at = split_key(v);
    lemma_split_key_between(v);
    parent_and_child_agree(parent, c, v, at);
    parent_and_child_agree(parent, c, v, key);
    new_child_takes_its_keys(parent, told, at, to, key);
    split_parts_the_keys(v, l, r, key);
}

/// After a child was merged into its left sibling, and their parent was told of it, the
/// parent sends the keys of both to the page of the sibling. Every other key goes where
/// it went before.
pub proof fn merge_reaches_the_sibling(
    parent: NodeView,
    told: NodeView,
    c: int,
    l: NodeView,
    r: NodeView,
    m: NodeView,
    key: Seq<u8>,
)
    requires
        parent.covering(),
        0 < c,
        spans(parent, c - 1, l),
        spans(parent, c, r),
        l.consistent(),
        r.consistent(),
        mergeable(l, r),
        is_merged(l, r, m),
        removable(parent, c),
        is_removed(parent, told, c),
        parent.in_bounds(key),
    ensures
        told.in_bounds(key),
        told.pid(told.route(key)) == if m.in_bounds(key) {
            parent.pid(c - 1)
        } else {
            parent.pid(parent.route(key))
        },
{
    parent_and_child_agree(parent, c - 1, l, key);
    parent_and_child_agree(parent, c, r, key);
    lost_child_leaves_its_keys(parent, told, c, key);
    merge_joins_the_keys(l, r, m, key);
}

} // verus!
