//! The way from an index node to its children.

use vstd::prelude::*;
use crate::bytes::{le_bytes, lemma_le_bytes_len, lemma_le_value_of_bytes, lemma_pow256_values};
use crate::contents::{lemma_full_key_order, lemma_full_keys_sorted, lemma_in_bounds_prefix};
use crate::create::{buildable, built, lemma_built};
use crate::header::Header;
use crate::laws::sizes::{items_in_reach_are_buildable, lemma_payload_one};
use crate::laws::updates::{insertion_keeps_order, removal_keeps_order};
use crate::link::{applicable, is_applied, lemma_relabelled, Link};
use crate::node::NodeView;
use crate::order::{lemma_common_prefix, lemma_lex_lt_le, lemma_lex_total, lex_le, lex_lt};
use crate::search::{first_pid, lemma_first_pid, lemma_search, search, sorted};
use crate::stitch::lemma_is_stitched;
use crate::update::{hoisted_items, insertable, insertion_index, is_inserted, is_removed, removable};

verus! {

impl NodeView {
    /// The child under which a whole key is looked for.
    pub open spec fn route(self, key: Seq<u8>) -> int {
        self.child_index(key.skip(self.header.prefix_len as int))
    }
}

/// In an index node whose first child starts at the low key, each key within the bounds
/// has a child: the last one that does not start behind the key.
pub proof fn each_key_has_a_child(v: NodeView, key: Seq<u8>)
    requires
        v.covering(),
        v.in_bounds(key),
    ensures
        v.header.prefix_len <= key.len(),
        search(v.keys(), key.skip(v.header.prefix_len as int)) != Err::<int, int>(0),
        0 <= v.route(key) < v.header.children,
        v.items()[v.route(key)].1.len() == 8,
        lex_le(v.full_key(v.route(key)), key),
        forall|j: int|
            v.route(key) < j < v.header.children ==> lex_lt(key, #[trigger] v.full_key(j)),
{
    lemma_in_bounds_prefix(v, key);
    let s = key.skip(v.header.prefix_len as int);
    lemma_search(v.keys(), s);
    lemma_full_key_order(v, 0, key);
    lemma_lex_total(v.keys()[0], s);
    lemma_lex_total(v.full_key(0), key);
    assert(!lex_lt(s, v.keys()[0]));
    let i = v.route(key);
    assert(0 <= i);
    lemma_full_key_order(v, i, key);
    if search(v.keys(), s) is Err {
        assert(lex_lt(v.keys()[i], s));
    }
    assert forall|j: int| i < j < v.header.children implies lex_lt(
        key,
        #[trigger] v.full_key(j),
    ) by {
        lemma_full_key_order(v, j, key);
        assert(lex_lt(s, v.keys()[j]));
    }
}

/// The child of a key is the one that starts last in front of it or at it.
pub proof fn lemma_route_is(v: NodeView, key: Seq<u8>, i: int)
    requires
        v.covering(),
        v.in_bounds(key),
        0 <= i < v.header.children,
        lex_le(v.full_key(i), key),
        i + 1 < v.header.children ==> lex_lt(key, v.full_key(i + 1)),
    ensures
        v.route(key) == i,
{
    each_key_has_a_child(v, key);
    let c = v.route(key);
    if c < i {
        lemma_lex_total(key, v.full_key(i));
    } else if i < c {
        lemma_lex_total(key, v.full_key(c));
        if i + 1 < c {
            lemma_full_keys_sorted(v, i + 1, c);
            lemma_lex_lt_le(v.full_key(i + 1), v.full_key(c), key);
            lemma_lex_total(key, v.full_key(i + 1));
        }
    }
}

/// A new child that starts within the bounds leaves a child for each key.
pub proof fn new_child_keeps_covering(v: NodeView, r: NodeView, at: Seq<u8>, to: u64)
    requires
        v.covering(),
        v.in_bounds(at),
        insertable(v, at.skip(v.header.prefix_len as int), le_bytes(to as nat, 8)),
        is_inserted(v, r, at.skip(v.header.prefix_len as int), le_bytes(to as nat, 8)),
    ensures
        r.covering(),
        r.lo() == v.lo(),
        r.hi() == v.hi(),
        insertion_index(v, at.skip(v.header.prefix_len as int)) == v.route(at) + 1,
        r.entries() == v.entries().insert(v.route(at) + 1, (at, le_bytes(to as nat, 8))),
{
    let s = at.skip(v.header.prefix_len as int);
    let value = le_bytes(to as nat, 8);
    let index = insertion_index(v, s);
    each_key_has_a_child(v, at);
    lemma_in_bounds_prefix(v, at);
    insertion_keeps_order(v, r, s, value);
    lemma_search(v.keys(), s);
    lemma_is_stitched(v, r, index, Some((s, value)), false);
    lemma_le_bytes_len(to as nat, 8);
    assert(index == v.route(at) + 1);
    let want = v.entries().insert(index, (at, value));
    assert(r.entries()[0] == want[0]);
    assert(r.full_key(0) == v.full_key(0));
    assert forall|i: int| 0 <= i < r.header.children implies (
    #[trigger] r.items()[i]).1.len() == 8 by {
        assert(r.entries()[i] == want[i]);
        if i < index {
            assert(v.items()[i].1.len() == 8);
        } else if i > index {
            assert(v.items()[i - 1].1.len() == 8);
        }
    }
}

/// A new child takes over the keys from its start on that its left neighbour had, and
/// every other key keeps its child.
pub proof fn new_child_takes_its_keys(
    v: NodeView,
    r: NodeView,
    at: Seq<u8>,
    to: u64,
    key: Seq<u8>,
)
    requires
        v.covering(),
        v.in_bounds(at),
        insertable(v, at.skip(v.header.prefix_len as int), le_bytes(to as nat, 8)),
        is_inserted(v, r, at.skip(v.header.prefix_len as int), le_bytes(to as nat, 8)),
        v.in_bounds(key),
    ensures
        r.in_bounds(key),
        r.pid(r.route(key)) == if v.route(key) == v.route(at) && lex_le(at, key) {
            to as nat
        } else {
            v.pid(v.route(key))
        },
{
    new_child_keeps_covering(v, r, at, to);
    each_key_has_a_child(v, key);
    each_key_has_a_child(v, at);
    lemma_pow256_values();
    lemma_le_value_of_bytes(to as nat, 8);
    lemma_inserted_child(v, r, at, le_bytes(to as nat, 8), key);
}

/// Where the keys go once a child was added.
proof fn lemma_inserted_child(
    v: NodeView,
    r: NodeView,
    at: Seq<u8>,
    value: Seq<u8>,
    key: Seq<u8>,
)
    requires
        v.covering(),
        r.covering(),
        v.in_bounds(at),
        v.in_bounds(key),
        r.in_bounds(key),
        r.entries() == v.entries().insert(v.route(at) + 1, (at, value)),
    ensures
        r.items()[r.route(key)].1 == if v.route(key) == v.route(at) && lex_le(at, key) {
            value
        } else {
            v.items()[v.route(key)].1
        },
{
    each_key_has_a_child(v, key);
    each_key_has_a_child(v, at);
    let index = v.route(at) + 1;
    let c = v.route(key);
    let n = v.header.children as int;
    let all = v.entries().insert(index, (at, value));
    assert(r.entries().len() == all.len());
    assert(r.entries()[index] == all[index]);
    assert(r.full_key(index) == at);
    assert(r.items()[index].1 == value);
    lemma_lex_total(at, key);
    if c < index {
        lemma_moved_entry(v, r, index, (at, value), c);
        if c + 1 < index {
            lemma_moved_entry(v, r, index, (at, value), c + 1);
            lemma_route_is(r, key, c);
        } else if lex_le(at, key) {
            if index < n {
                lemma_moved_entry(v, r, index, (at, value), index);
            }
            lemma_route_is(r, key, index);
        } else {
            lemma_route_is(r, key, c);
        }
    } else {
        lemma_moved_entry(v, r, index, (at, value), c);
        if c + 1 < n {
            lemma_moved_entry(v, r, index, (at, value), c + 1);
        }
        lemma_route_is(r, key, c + 1);
    }
}

/// Where an entry stands once another one was inserted.
proof fn lemma_moved_entry(
    v: NodeView,
    r: NodeView,
    index: int,
    new: (Seq<u8>, Seq<u8>),
    i: int,
)
    requires
        0 <= index <= v.header.children,
        0 <= i < v.header.children,
        r.entries() == v.entries().insert(index, new),
    ensures
        ({
            let j = if i < index {
                i
            } else {
                i + 1
            };
            &&& r.full_key(j) == v.full_key(i)
            &&& r.items()[j].1 == v.items()[i].1
        }),
{
    let j = if i < index {
        i
    } else {
        i + 1
    };
    assert(r.entries().len() == v.entries().insert(index, new).len());
    assert(r.entries()[j] == v.entries()[i]);
}

/// Without one of its children, other than the first, an index node has a child for
/// each key.
pub proof fn lost_child_keeps_covering(v: NodeView, r: NodeView, index: int)
    requires
        v.covering(),
        0 < index < v.header.children,
        removable(v, index),
        is_removed(v, r, index),
    ensures
        r.covering(),
        r.lo() == v.lo(),
        r.hi() == v.hi(),
        r.entries() == v.entries().remove(index),
{
    removal_keeps_order(v, r, index);
    lemma_is_stitched(v, r, index, None, true);
    let all = v.entries().remove(index);
    assert(r.entries()[0] == all[0]);
    assert(r.full_key(0) == v.full_key(0));
    assert forall|i: int| 0 <= i < r.header.children implies (
    #[trigger] r.items()[i]).1.len() == 8 by {
        assert(r.entries()[i] == all[i]);
        if i < index {
            assert(v.items()[i].1.len() == 8);
        } else {
            assert(v.items()[i + 1].1.len() == 8);
        }
    }
}

/// The keys of a child that goes away fall to its left neighbour, and every other key
/// keeps its child.
pub proof fn lost_child_leaves_its_keys(v: NodeView, r: NodeView, index: int, key: Seq<u8>)
    requires
        v.covering(),
        0 < index < v.header.children,
        removable(v, index),
        is_removed(v, r, index),
        v.in_bounds(key),
    ensures
        r.in_bounds(key),
        r.pid(r.route(key)) == if v.route(key) == index {
            v.pid(index - 1)
        } else {
            v.pid(v.route(key))
        },
{
    lost_child_keeps_covering(v, r, index);
    lemma_removed_child(v, r, index, key);
}

/// Where the keys go once a child was removed.
#[verifier::rlimit(40)]
proof fn lemma_removed_child(v: NodeView, r: NodeView, index: int, key: Seq<u8>)
    requires
        v.covering(),
        r.covering(),
        v.in_bounds(key),
        r.in_bounds(key),
        0 < index < v.header.children,
        r.entries() == v.entries().remove(index),
    ensures
        r.items()[r.route(key)].1 == if v.route(key) == index {
            v.items()[index - 1].1
        } else {
            v.items()[v.route(key)].1
        },
{
    each_key_has_a_child(v, key);
    let c = v.route(key);
    let n = r.header.children as int;
    assert(r.entries().len() == v.entries().remove(index).len());
    if c < index {
        lemma_kept_entry(v, r, index, c);
        if c + 1 < index {
            lemma_kept_entry(v, r, index, c + 1);
        } else if c + 1 < n {
            lemma_kept_entry(v, r, index, c + 2);
        }
        lemma_route_is(r, key, c);
    } else {
        if c == index {
            lemma_full_keys_sorted(v, c - 1, c);
            lemma_lex_lt_le(v.full_key(c - 1), v.full_key(c), key);
            lemma_kept_entry(v, r, index, c - 1);
        } else {
            lemma_kept_entry(v, r, index, c);
        }
        if c < n {
            lemma_kept_entry(v, r, index, c + 1);
        }
        lemma_route_is(r, key, c - 1);
    }
}

/// Where an entry stands once another one was removed.
proof fn lemma_kept_entry(v: NodeView, r: NodeView, index: int, i: int)
    requires
        0 <= index < v.header.children,
        0 <= i < v.header.children,
        i != index,
        r.entries() == v.entries().remove(index),
    ensures
        ({
            let j = if i < index {
                i
            } else {
                i - 1
            };
            &&& r.full_key(j) == v.full_key(i)
            &&& r.items()[j].1 == v.items()[i].1
        }),
{
    let j = if i < index {
        i
    } else {
        i - 1
    };
    assert(r.entries().len() == v.entries().remove(index).len());
    assert(r.entries()[j] == v.entries()[i]);
}

/// A root over one child sends every key to it.
pub proof fn root_takes_every_key(v: NodeView, pid: u64, key: Seq<u8>)
    requires
        built(
            v,
            Seq::empty(),
            Seq::empty(),
            0,
            true,
            None,
            seq![(Seq::<u8>::empty(), le_bytes(pid as nat, 8))],
        ),
    ensures
        v.covering(),
        v.in_bounds(key),
        v.pid(v.route(key)) == pid,
{
    let items = seq![(Seq::<u8>::empty(), le_bytes(pid as nat, 8))];
    lemma_le_bytes_len(pid as nat, 8);
    lemma_payload_one(items[0]);
    items_in_reach_are_buildable(0, 0, true, items);
    lemma_built(v, Seq::empty(), Seq::empty(), 0, true, None, items);
    lemma_pow256_values();
    lemma_le_value_of_bytes(pid as nat, 8);
    assert(v.prefix() =~= Seq::<u8>::empty());
    assert(v.keys()[0] == v.items()[0].0);
    assert(v.full_key(0) =~= Seq::<u8>::empty());
    lemma_above_empty(key);
    assert(v.in_bounds(v.full_key(0)));
    assert(v.covering());
    lemma_route_is(v, key, 0);
}

/// A root over two children sends the keys below the one at which they are parted to
/// the left and all others to the right.
pub proof fn hoisted_root_parts_the_keys(
    v: NodeView,
    left: u64,
    at: Seq<u8>,
    right: u64,
    key: Seq<u8>,
)
    requires
        at.len() > 0,
        buildable(0, 0, true, hoisted_items(left, at, right)),
        built(v, Seq::empty(), Seq::empty(), 0, true, None, hoisted_items(left, at, right)),
    ensures
        v.covering(),
        v.in_bounds(key),
        v.pid(v.route(key)) == if lex_lt(key, at) {
            left as nat
        } else {
            right as nat
        },
{
    let items = hoisted_items(left, at, right);
    lemma_built(v, Seq::empty(), Seq::empty(), 0, true, None, items);
    lemma_le_bytes_len(left as nat, 8);
    lemma_le_bytes_len(right as nat, 8);
    lemma_pow256_values();
    lemma_le_value_of_bytes(left as nat, 8);
    lemma_le_value_of_bytes(right as nat, 8);
    assert(v.prefix() =~= Seq::<u8>::empty());
    assert(v.keys()[0] == items[0].0 && v.keys()[1] == items[1].0) by {
        assert(v.keys()[0] == v.items()[0].0);
        assert(v.keys()[1] == v.items()[1].0);
    }
    assert(v.full_key(0) =~= Seq::<u8>::empty());
    assert(v.full_key(1) =~= at);
    lemma_above_empty(at);
    lemma_above_empty(key);
    assert(sorted(v.keys()));
    assert(v.in_bounds(v.full_key(0)));
    assert(v.in_bounds(v.full_key(1)));
    assert(v.covering());
    lemma_lex_total(key, at);
    if lex_lt(key, at) {
        lemma_route_is(v, key, 0);
    } else {
        lemma_route_is(v, key, 1);
    }
}

/// Nothing comes before the empty string.
proof fn lemma_above_empty(s: Seq<u8>)
    ensures
        lex_le(Seq::<u8>::empty(), s),
        s.len() > 0 ==> lex_lt(Seq::<u8>::empty(), s),
{
    lemma_common_prefix(Seq::<u8>::empty(), s);
    if s.len() == 0 {
        assert(s =~= Seq::<u8>::empty());
    }
}

/// A parent that was told of the merge of a child, and then of its end, has lost that
/// child, and nothing else.
pub proof fn merge_removes_the_child(v: NodeView, told: NodeView, r: NodeView, pid: u64)
    requires
        v.wf(),
        applicable(v, Link::ParentMergeIntention(pid)),
        is_applied(v, told, Link::ParentMergeIntention(pid)),
        applicable(told, Link::ParentMergeConfirm),
        is_applied(told, r, Link::ParentMergeConfirm),
    ensures
        told.wf(),
        told.items() == v.items(),
        r.wf(),
        v.pid(first_pid(v, pid, 0)) == pid,
        r.items() == v.items().remove(first_pid(v, pid, 0)),
        r.lo() == v.lo(),
        r.hi() == v.hi(),
        r.header.merging_child is None,
        r.header.merging == v.header.merging,
{
    lemma_relabelled(v, told);
    lemma_first_pid(v, pid, 0);
    lemma_same_first_pid(v, told, pid, 0);
    let at = first_pid(v, pid, 0);
    let m = NodeView {
        header: Header { merging_child: told.header.merging_child, ..r.header },
        ..r
    };
    lemma_is_stitched(told, m, at, None, true);
    lemma_relabelled(m, r);
    assert(r.items() =~= v.items().remove(at));
}

/// Nodes with the same items have each child at the same place.
proof fn lemma_same_first_pid(v: NodeView, r: NodeView, pid: u64, i: int)
    requires
        v.header.children == r.header.children,
        v.items() == r.items(),
        0 <= i,
    ensures
        first_pid(v, pid, i) == first_pid(r, pid, i),
    decreases v.header.children - i,
{
    if i < v.header.children {
        lemma_same_first_pid(v, r, pid, i + 1);
    }
}

/// A node that is being merged into its left sibling takes no more updates.
pub proof fn capped_node_is_frozen(v: NodeView, r: NodeView, link: Link)
    requires
        is_applied(v, r, Link::ChildMergeCap),
    ensures
        !applicable(r, link),
{
}

/// While a child is being merged, its parent takes no new children and no second merge.
pub proof fn one_merge_at_a_time(v: NodeView, r: NodeView, pid: u64, link: Link)
    requires
        is_applied(v, r, Link::ParentMergeIntention(pid)),
        link is Put || link is Replace || link is ParentMergeIntention,
    ensures
        !applicable(r, link),
{
}

} // verus!
