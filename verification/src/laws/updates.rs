//! Insertion, replacement and removal.

use vstd::prelude::*;
use crate::bytes::le_value;
use crate::contents::{lemma_lookup_finds, lemma_lookup_found};
use crate::create::{buildable, built, lemma_built};
use crate::header::Header;
use crate::laws::decisions::the_first_page_is_found;
use crate::layout::image;
use crate::link::{applicable, is_applied, lemma_relabelled, Link};
use crate::node::{lemma_holds, NodeView};
use crate::nonzero::NonZeroU64;
use crate::order::{common_prefix, lemma_lex_total, lex_lt};
use crate::search::{first_pid, lemma_first_pid, lemma_search, search, sorted};
use crate::stitch::{hi_bytes, lemma_head_kept, lemma_is_stitched, stitched};
use crate::update::{insertable, insertion_index, is_inserted, is_removed, is_replaced, lemma_replaced_in_place, removable, replaceable};

verus! {

/// After an insertion the keys are sorted as before, the new key is found with its
/// value, and every other key is found, or not, as before.
#[verifier::rlimit(40)]
pub proof fn insertion_adds_one_key(v: NodeView, r: NodeView, key: Seq<u8>, value: Seq<u8>)
    requires
        v.wf(),
        sorted(v.keys()),
        insertable(v, key, value),
        is_inserted(v, r, key, value),
    ensures
        sorted(r.keys()),
        v.lookup(key) is None,
        forall|k: Seq<u8>|
            #[trigger] r.lookup(k) == if k == key {
                Some(value)
            } else {
                v.lookup(k)
            },
{
    let at = insertion_index(v, key);
    lemma_is_stitched(v, r, at, Some((key, value)), false);
    lemma_search(v.keys(), key);
    assert(r.items() =~= v.items().insert(at, (key, value)));
    assert(r.keys() =~= v.keys().insert(at, key)) by {
        assert forall|i: int| 0 <= i < r.header.children implies r.keys()[i]
            == v.keys().insert(at, key)[i] by {
            assert(r.keys()[i] == r.items()[i].0);
        }
    }
    lemma_inserted_sorted(v.keys(), at, key);
    assert forall|k: Seq<u8>| #[trigger] r.lookup(k) == if k == key {
        Some(value)
    } else {
        v.lookup(k)
    } by {
        if k == key {
            lemma_lookup_finds(r, at);
        } else if v.lookup(k) is Some {
            let i = lemma_lookup_found(v, k);
            let j = if i < at {
                i
            } else {
                i + 1
            };
            assert(r.items()[j] == v.items()[i]);
            lemma_lookup_finds(r, j);
        } else if r.lookup(k) is Some {
            let j = lemma_lookup_found(r, k);
            let i = if j < at {
                j
            } else {
                j - 1
            };
            assert(r.items()[j] == v.items()[i]);
            lemma_lookup_finds(v, i);
        }
    }
}

/// A key inserted between smaller and larger ones leaves them sorted.
proof fn lemma_inserted_sorted(keys: Seq<Seq<u8>>, at: int, key: Seq<u8>)
    requires
        sorted(keys),
        0 <= at <= keys.len(),
        forall|j: int| 0 <= j < at ==> lex_lt(#[trigger] keys[j], key),
        forall|j: int| at <= j < keys.len() ==> lex_lt(key, #[trigger] keys[j]),
    ensures
        sorted(keys.insert(at, key)),
{
    let r = keys.insert(at, key);
    assert forall|i: int, j: int| #![trigger r[i], r[j]] 0 <= i < j < r.len() implies lex_lt(
        r[i],
        r[j],
    ) by {
        let a = if i < at {
            i
        } else {
            i - 1
        };
        let b = if j < at {
            j
        } else {
            j - 1
        };
        if i != at {
            assert(r[i] == keys[a]);
        }
        if j != at {
            assert(r[j] == keys[b]);
        }
    }
}

/// An insertion of a key within the bounds leaves the keys sorted and within the bounds,
/// and a consistent node consistent.
#[verifier::rlimit(40)]
pub proof fn insertion_keeps_order(v: NodeView, r: NodeView, key: Seq<u8>, value: Seq<u8>)
    requires
        v.orderly(),
        insertable(v, key, value),
        v.in_bounds(v.prefix() + key),
        is_inserted(v, r, key, value),
    ensures
        r.orderly(),
        v.consistent() ==> r.consistent(),
        r.lo() == v.lo(),
        r.hi() == v.hi(),
        r.header.prefix_len == v.header.prefix_len,
        r.entries() == v.entries().insert(
            insertion_index(v, key),
            (v.prefix() + key, value),
        ),
{
    let at = insertion_index(v, key);
    insertion_adds_one_key(v, r, key, value);
    lemma_is_stitched(v, r, at, Some((key, value)), false);
    lemma_search(v.keys(), key);
    assert(r.items() =~= v.items().insert(at, (key, value)));
    lemma_same_bounds(v, r);
    assert forall|i: int| 0 <= i < r.header.children implies r.in_bounds(
        #[trigger] r.full_key(i),
    ) && r.entries()[i] == v.entries().insert(at, (v.prefix() + key, value))[i] by {
        assert(r.keys()[i] == r.items()[i].0);
        let old = if i < at {
            i
        } else {
            i - 1
        };
        if i != at {
            assert(r.items()[i] == v.items()[old]);
            assert(v.keys()[old] == v.items()[old].0);
            assert(r.full_key(i) == v.full_key(old));
            assert(v.in_bounds(v.full_key(old)));
        }
    }
    assert(r.entries() =~= v.entries().insert(at, (v.prefix() + key, value)));
}

/// Nodes with the same low key and the same prefix length share their prefix.
proof fn lemma_same_bounds(v: NodeView, r: NodeView)
    requires
        v.wf(),
        r.wf(),
        v.has_prefix(),
        r.lo() == v.lo(),
        r.header.prefix_len == v.header.prefix_len,
    ensures
        r.has_prefix(),
        r.prefix() == v.prefix(),
{
    assert(v.lo().len() == v.header.lo_len);
    assert(r.lo().len() == r.header.lo_len);
}

/// What is found among one item less.
proof fn lemma_lookup_after_removal(v: NodeView, r: NodeView, index: int, k: Seq<u8>)
    requires
        sorted(v.keys()),
        sorted(r.keys()),
        0 <= index < v.header.children,
        r.header.children == v.header.children - 1,
        r.items() == v.items().remove(index),
    ensures
        r.lookup(k) == if k == v.items()[index].0 {
            None
        } else {
            v.lookup(k)
        },
{
    let key = v.items()[index].0;
    if r.lookup(k) is Some {
        let j = lemma_lookup_found(r, k);
        let i = if j < index {
            j
        } else {
            j + 1
        };
        assert(r.items()[j] == v.items()[i]);
        lemma_lookup_finds(v, i);
        if k == key {
            assert(v.keys()[i] == v.items()[i].0);
            assert(v.keys()[index] == v.items()[index].0);
            lemma_lex_total(v.keys()[i], v.keys()[index]);
        }
    } else if k != key && v.lookup(k) is Some {
        let i = lemma_lookup_found(v, k);
        let j = if i < index {
            i
        } else {
            i - 1
        };
        assert(r.items()[j] == v.items()[i]);
        lemma_lookup_finds(r, j);
    }
}

/// Sorted keys are sorted without one of them.
proof fn lemma_removed_sorted(keys: Seq<Seq<u8>>, index: int)
    requires
        sorted(keys),
        0 <= index < keys.len(),
    ensures
        sorted(keys.remove(index)),
{
    let r = keys.remove(index);
    assert forall|i: int, j: int| #![trigger r[i], r[j]] 0 <= i < j < r.len() implies lex_lt(
        r[i],
        r[j],
    ) by {
        let a = if i < index {
            i
        } else {
            i + 1
        };
        let b = if j < index {
            j
        } else {
            j + 1
        };
        assert(r[i] == keys[a]);
        assert(r[j] == keys[b]);
    }
}

/// After a removal the keys are sorted as before, the key is gone, and every other
/// key is found, or not, as before.
pub proof fn removal_drops_one_key(v: NodeView, r: NodeView, index: int)
    requires
        v.wf(),
        sorted(v.keys()),
        removable(v, index),
        is_removed(v, r, index),
    ensures
        sorted(r.keys()),
        v.lookup(v.items()[index].0) == Some(v.items()[index].1),
        forall|k: Seq<u8>|
            #[trigger] r.lookup(k) == if k == v.items()[index].0 {
                None
            } else {
                v.lookup(k)
            },
{
    lemma_is_stitched(v, r, index, None, true);
    assert(r.items() =~= v.items().remove(index));
    assert(r.keys() =~= v.keys().remove(index)) by {
        assert forall|i: int| 0 <= i < r.header.children implies r.keys()[i] == v.keys().remove(
            index,
        )[i] by {
            assert(r.keys()[i] == r.items()[i].0);
        }
    }
    lemma_removed_sorted(v.keys(), index);
    lemma_lookup_finds(v, index);
    assert forall|k: Seq<u8>| #[trigger] r.lookup(k) == if k == v.items()[index].0 {
        None
    } else {
        v.lookup(k)
    } by {
        lemma_lookup_after_removal(v, r, index, k);
    }
}

/// A removal leaves the keys sorted and within the bounds, and a consistent node
/// consistent.
#[verifier::rlimit(40)]
pub proof fn removal_keeps_order(v: NodeView, r: NodeView, index: int)
    requires
        v.orderly(),
        removable(v, index),
        is_removed(v, r, index),
    ensures
        r.orderly(),
        v.consistent() ==> r.consistent(),
        r.lo() == v.lo(),
        r.hi() == v.hi(),
        r.header.prefix_len == v.header.prefix_len,
        r.entries() == v.entries().remove(index),
{
    removal_drops_one_key(v, r, index);
    lemma_is_stitched(v, r, index, None, true);
    assert(r.items() =~= v.items().remove(index));
    lemma_same_bounds(v, r);
    assert forall|i: int| 0 <= i < r.header.children implies r.in_bounds(
        #[trigger] r.full_key(i),
    ) && r.entries()[i] == v.entries().remove(index)[i] by {
        let old = if i < index {
            i
        } else {
            i + 1
        };
        assert(r.keys()[i] == r.items()[i].0);
        assert(v.keys()[old] == v.items()[old].0);
        assert(v.in_bounds(v.full_key(old)));
    }
    assert(r.entries() =~= v.entries().remove(index));
}

/// In sorted keys, every item can be removed.
pub proof fn sorted_items_are_removable(v: NodeView, index: int)
    requires
        v.wf(),
        sorted(v.keys()),
        0 <= index < v.header.children,
    ensures
        removable(v, index),
{
    if index + 1 < v.header.children {
        assert(v.keys()[index] == v.key(index));
        assert(v.keys()[index + 1] == v.key(index + 1));
        lemma_lex_total(v.keys()[index], v.keys()[index + 1]);
    }
    assert(stitched(v.items(), index, None, true).len() == v.items().len() - 1);
}

/// Removing what was just inserted gives back the items.
#[verifier::rlimit(40)]
pub proof fn removal_undoes_insertion(
    v: NodeView,
    r: NodeView,
    back: NodeView,
    key: Seq<u8>,
    value: Seq<u8>,
)
    requires
        v.wf(),
        insertable(v, key, value),
        is_inserted(v, r, key, value),
        removable(r, insertion_index(v, key)),
        is_removed(r, back, insertion_index(v, key)),
    ensures
        back.wf(),
        back.items() == v.items(),
        back.lo() == v.lo(),
        back.hi() == v.hi(),
        back.header.prefix_len == v.header.prefix_len,
        back.header.is_index == v.header.is_index,
        back.header.next == v.header.next,
{
    let at = insertion_index(v, key);
    lemma_is_stitched(v, r, at, Some((key, value)), false);
    lemma_is_stitched(r, back, at, None, true);
    lemma_search(v.keys(), key);
    assert(back.items() =~= v.items());
}

/// What a node with a replaced value holds.
#[verifier::rlimit(40)]
pub proof fn lemma_is_replaced(v: NodeView, r: NodeView, index: int, value: Seq<u8>)
    requires
        v.wf(),
        replaceable(v, index, value),
        is_replaced(v, r, index, value),
    ensures
        r.wf(),
        r.items() == v.items().update(index, (v.items()[index].0, value)),
        r.keys() == v.keys(),
        r.lo() == v.lo(),
        r.hi() == v.hi(),
        r.header.prefix_len == v.header.prefix_len,
        r.header.is_index == v.header.is_index,
        r.header.next == v.header.next,
{
    let key = v.items()[index].0;
    let want = v.items().update(index, (key, value));
    if v.items()[index].1.len() == value.len() {
        let t = NodeView {
            header: v.header,
            padding: v.padding,
            buf: v.buf.take(v.header.data_start()) + image(v.header.shape(), want),
        };
        lemma_replaced_in_place(v, t, index, value);
        assert(r =~= t);
        lemma_holds(r, want);
    } else {
        lemma_is_stitched(v, r, index, Some((key, value)), true);
        assert(stitched(v.items(), index, Some((key, value)), true) =~= want);
    }
    assert forall|i: int| 0 <= i < v.header.children implies r.keys()[i] == v.keys()[i] by {
        assert(r.keys()[i] == r.items()[i].0);
        assert(v.keys()[i] == v.items()[i].0);
    }
    assert(r.keys() =~= v.keys());
}

/// What is found among items of which one has another value.
proof fn lemma_lookup_after_replacement(
    v: NodeView,
    r: NodeView,
    index: int,
    value: Seq<u8>,
    k: Seq<u8>,
)
    requires
        sorted(v.keys()),
        0 <= index < v.header.children,
        r.keys() == v.keys(),
        r.items() == v.items().update(index, (v.items()[index].0, value)),
    ensures
        r.lookup(k) == if k == v.items()[index].0 {
            Some(value)
        } else {
            v.lookup(k)
        },
{
    lemma_lookup_finds(v, index);
    lemma_search(v.keys(), k);
    assert(v.keys()[index] == v.items()[index].0);
    if let Ok(i) = search(v.keys(), k) {
        assert(v.keys()[i] == v.items()[i].0);
        if i == index {
            assert(k == v.items()[index].0);
        } else {
            assert(r.items()[i] == v.items()[i]);
            lemma_lex_total(v.keys()[i], v.keys()[index]);
        }
    }
}

/// A replacement changes the value of one key, and no other.
pub proof fn replacement_changes_one_value(v: NodeView, r: NodeView, index: int, value: Seq<u8>)
    requires
        v.wf(),
        sorted(v.keys()),
        replaceable(v, index, value),
        is_replaced(v, r, index, value),
    ensures
        sorted(r.keys()),
        forall|k: Seq<u8>|
            #[trigger] r.lookup(k) == if k == v.items()[index].0 {
                Some(value)
            } else {
                v.lookup(k)
            },
{
    lemma_is_replaced(v, r, index, value);
    assert forall|k: Seq<u8>| #[trigger] r.lookup(k) == if k == v.items()[index].0 {
        Some(value)
    } else {
        v.lookup(k)
    } by {
        lemma_lookup_after_replacement(v, r, index, value, k);
    }
}

/// A replacement leaves the keys sorted and within the bounds, and a consistent node
/// consistent.
pub proof fn replacement_keeps_order(v: NodeView, r: NodeView, index: int, value: Seq<u8>)
    requires
        v.orderly(),
        replaceable(v, index, value),
        is_replaced(v, r, index, value),
    ensures
        r.orderly(),
        v.consistent() ==> r.consistent(),
        r.lo() == v.lo(),
        r.hi() == v.hi(),
        r.header.prefix_len == v.header.prefix_len,
        r.entries() == v.entries().update(index, (v.entries()[index].0, value)),
{
    lemma_is_replaced(v, r, index, value);
    lemma_same_bounds(v, r);
    assert forall|i: int| 0 <= i < r.header.children implies r.in_bounds(
        #[trigger] r.full_key(i),
    ) by {
        assert(v.in_bounds(v.full_key(i)));
    }
    assert(r.entries() =~= v.entries().update(index, (v.entries()[index].0, value)));
}

/// Replacing a value and then putting the old one back gives back the items, and the
/// node byte for byte where both values have one length.
pub proof fn replacement_undoes_replacement(
    v: NodeView,
    r: NodeView,
    back: NodeView,
    index: int,
    value: Seq<u8>,
)
    requires
        v.wf(),
        replaceable(v, index, value),
        is_replaced(v, r, index, value),
        replaceable(r, index, v.items()[index].1),
        is_replaced(r, back, index, v.items()[index].1),
    ensures
        back.wf(),
        back.items() == v.items(),
        back.lo() == v.lo(),
        back.hi() == v.hi(),
        v.items()[index].1.len() == value.len() ==> back == v,
{
    lemma_is_replaced(v, r, index, value);
    lemma_is_replaced(r, back, index, v.items()[index].1);
    assert(back.items() =~= v.items());
    if v.items()[index].1.len() == value.len() {
        lemma_bytes_of(v);
        lemma_bytes_of(back);
        assert(back =~= v);
    }
}

/// The bytes of a node are its bounds and the image of its items.
proof fn lemma_bytes_of(v: NodeView)
    requires
        v.wf(),
    ensures
        v.buf == v.lo() + hi_bytes(v) + image(v.header.shape(), v.items()),
{
    let d = v.header.data_start();
    assert(v.buf =~= v.buf.take(d) + v.buf.skip(d));
    lemma_head_kept(v, v, image(v.header.shape(), v.items()));
}

/// Fields that have no part in the layout or the prefix have none in the order of keys.
proof fn lemma_relabelled_order(v: NodeView, r: NodeView)
    requires
        v.orderly(),
        r.buf == v.buf,
        r.header == (Header {
            merging_child: r.header.merging_child,
            merging: r.header.merging,
            ..v.header
        }),
    ensures
        r.orderly(),
        v.consistent() ==> r.consistent(),
        r.entries() == v.entries(),
        r.lo() == v.lo(),
        r.hi() == v.hi(),
{
    lemma_relabelled(v, r);
    lemma_same_bounds(v, r);
    assert forall|i: int| 0 <= i < r.header.children implies r.in_bounds(
        #[trigger] r.full_key(i),
    ) by {
        assert(v.in_bounds(v.full_key(i)));
    }
    assert(r.entries() =~= v.entries());
}

/// Every update leaves the keys sorted and within the bounds, these as they were, and a
/// consistent node consistent, where a new key lies within the bounds.
pub proof fn updates_keep_order(v: NodeView, r: NodeView, link: Link)
    requires
        v.orderly(),
        applicable(v, link),
        is_applied(v, r, link),
        link matches Link::Put(key, _) ==> v.in_bounds(v.prefix() + key@),
    ensures
        r.orderly(),
        v.consistent() ==> r.consistent(),
        r.lo() == v.lo(),
        r.hi() == v.hi(),
{
    match link {
        Link::Put(key, value) => {
            insertion_keeps_order(v, r, key@, value@);
        },
        Link::Replace(index, value) => {
            replacement_keeps_order(v, r, index as int, value@);
        },
        Link::Del(index) => {
            removal_keeps_order(v, r, index as int);
        },
        Link::ParentMergeIntention(_) => {
            lemma_relabelled_order(v, r);
        },
        Link::ParentMergeConfirm => {
            let m = NodeView {
                header: Header { merging_child: v.header.merging_child, ..r.header },
                ..r
            };
            removal_keeps_order(v, m, first_pid(v, v.header.merging_child->0@, 0));
            lemma_relabelled_order(m, r);
        },
        Link::ChildMergeCap => {
            lemma_relabelled_order(v, r);
        },
    }
}

/// A new node of sorted keys finds each of them, with its value, and nothing else.
pub proof fn new_node_finds_its_items(
    v: NodeView,
    lo: Seq<u8>,
    hi: Seq<u8>,
    prefix_len: u8,
    is_index: bool,
    next: Option<NonZeroU64>,
    items: Seq<(Seq<u8>, Seq<u8>)>,
)
    requires
        buildable(lo.len(), hi.len(), is_index, items),
        built(v, lo, hi, prefix_len, is_index, next, items),
        forall|i: int, j: int|
            #![trigger items[i], items[j]]
            0 <= i < j < items.len() ==> lex_lt(items[i].0, items[j].0),
    ensures
        sorted(v.keys()),
        forall|i: int|
            0 <= i < items.len() ==> v.lookup((#[trigger] items[i]).0) == Some(items[i].1),
        forall|k: Seq<u8>|
            (#[trigger] v.lookup(k)) is Some ==> exists|i: int|
                0 <= i < items.len() && (#[trigger] items[i]).0 == k,
{
    lemma_built(v, lo, hi, prefix_len, is_index, next, items);
    let keys = v.keys();
    assert forall|i: int| 0 <= i < items.len() implies #[trigger] keys[i] == items[i].0 by {
        assert(keys[i] == v.items()[i].0);
    }
    assert(sorted(keys));
    assert forall|i: int| 0 <= i < items.len() implies v.lookup((#[trigger] items[i]).0) == Some(
        items[i].1,
    ) by {
        lemma_lookup_finds(v, i);
    }
    assert forall|k: Seq<u8>| (#[trigger] v.lookup(k)) is Some implies exists|i: int|
        0 <= i < items.len() && (#[trigger] items[i]).0 == k by {
        let i = lemma_lookup_found(v, k);
        assert(items[i].0 == k);
    }
}

/// A new node of sorted keys that lie within its bounds is consistent.
pub proof fn new_node_is_consistent(
    v: NodeView,
    lo: Seq<u8>,
    hi: Seq<u8>,
    prefix_len: u8,
    is_index: bool,
    next: Option<NonZeroU64>,
    items: Seq<(Seq<u8>, Seq<u8>)>,
)
    requires
        buildable(lo.len(), hi.len(), is_index, items),
        built(v, lo, hi, prefix_len, is_index, next, items),
        prefix_len <= lo.len(),
        hi.len() == 0 ==> prefix_len == 0,
        hi.len() > 0 ==> lex_lt(lo, hi) && prefix_len <= common_prefix(lo, hi),
        forall|i: int, j: int|
            #![trigger items[i], items[j]]
            0 <= i < j < items.len() ==> lex_lt(items[i].0, items[j].0),
        forall|i: int|
            0 <= i < items.len() ==> v.in_bounds(
                lo.take(prefix_len as int) + (#[trigger] items[i]).0,
            ),
    ensures
        v.consistent(),
{
    lemma_built(v, lo, hi, prefix_len, is_index, next, items);
    new_node_finds_its_items(v, lo, hi, prefix_len, is_index, next, items);
    assert forall|i: int| 0 <= i < v.header.children implies v.in_bounds(
        #[trigger] v.full_key(i),
    ) by {
        assert(v.keys()[i] == v.items()[i].0);
        assert(v.full_key(i) == lo.take(prefix_len as int) + items[i].0);
    }
}

/// A deletion removes the item at its index, and nothing else.
pub proof fn deletion_removes_one_item(v: NodeView, r: NodeView, index: usize)
    requires
        v.wf(),
        applicable(v, Link::Del(index)),
        is_applied(v, r, Link::Del(index)),
    ensures
        r.wf(),
        index < v.header.children,
        r.header.children == v.header.children - 1,
        r.items() == v.items().remove(index as int),
        r.lo() == v.lo(),
        r.hi() == v.hi(),
        sorted(v.keys()) ==> sorted(r.keys()),
        sorted(v.keys()) ==> forall|k: Seq<u8>|
            #[trigger] r.lookup(k) == if k == v.items()[index as int].0 {
                None
            } else {
                v.lookup(k)
            },
{
    lemma_is_stitched(v, r, index as int, None, true);
    assert(r.items() =~= v.items().remove(index as int));
    if sorted(v.keys()) {
        removal_drops_one_key(v, r, index as int);
    }
}

/// A new key is put between the smaller and the larger ones, and nothing else changes.
pub proof fn put_adds_one_item(v: NodeView, r: NodeView, key: Vec<u8>, value: Vec<u8>)
    requires
        v.wf(),
        sorted(v.keys()),
        applicable(v, Link::Put(key, value)),
        is_applied(v, r, Link::Put(key, value)),
    ensures
        r.wf(),
        r.header.children == v.header.children + 1,
        exists|at: int|
            #![trigger v.items().insert(at, (key@, value@))]
            0 <= at <= v.header.children && r.items() == v.items().insert(at, (key@, value@)),
        r.lo() == v.lo(),
        r.hi() == v.hi(),
        sorted(r.keys()),
        v.lookup(key@) is None,
        forall|k: Seq<u8>|
            #[trigger] r.lookup(k) == if k == key@ {
                Some(value@)
            } else {
                v.lookup(k)
            },
{
    let at = insertion_index(v, key@);
    lemma_search(v.keys(), key@);
    lemma_is_stitched(v, r, at, Some((key@, value@)), false);
    assert(r.items() =~= v.items().insert(at, (key@, value@)));
    insertion_adds_one_key(v, r, key@, value@);
}

/// A replacement gives the item at its index a new value, and changes nothing else.
pub proof fn replace_changes_one_item(v: NodeView, r: NodeView, index: usize, value: Vec<u8>)
    requires
        v.wf(),
        applicable(v, Link::Replace(index, value)),
        is_applied(v, r, Link::Replace(index, value)),
    ensures
        r.wf(),
        index < v.header.children,
        r.header.children == v.header.children,
        r.items() == v.items().update(index as int, (v.items()[index as int].0, value@)),
        r.lo() == v.lo(),
        r.hi() == v.hi(),
        sorted(v.keys()) ==> sorted(r.keys()),
        sorted(v.keys()) ==> forall|k: Seq<u8>|
            #[trigger] r.lookup(k) == if k == v.items()[index as int].0 {
                Some(value@)
            } else {
                v.lookup(k)
            },
{
    lemma_is_replaced(v, r, index as int, value@);
    if sorted(v.keys()) {
        replacement_changes_one_value(v, r, index as int, value@);
    }
}

/// A parent that is told of the merge of a child remembers the child, and nothing else
/// changes.
pub proof fn intention_marks_the_child(v: NodeView, r: NodeView, pid: u64)
    requires
        v.wf(),
        applicable(v, Link::ParentMergeIntention(pid)),
        is_applied(v, r, Link::ParentMergeIntention(pid)),
    ensures
        r.wf(),
        r.items() == v.items(),
        r.lo() == v.lo(),
        r.hi() == v.hi(),
        r.buf == v.buf,
        r.padding == v.padding,
        r.header.merging_child matches Some(child) && child@ == pid,
        (Header { merging_child: None, ..r.header }) == (Header {
            merging_child: None,
            ..v.header
        }),
        exists|i: int| 0 <= i < v.header.children && #[trigger] v.pid(i) == pid,
{
    lemma_relabelled(v, r);
    lemma_first_pid(v, pid, 0);
    assert(v.pid(first_pid(v, pid, 0)) == pid);
}

/// A parent that is told of the end of a merge loses the child that it remembered, the
/// first one of that page, and remembers none.
pub proof fn confirmation_removes_the_child(v: NodeView, r: NodeView, at: int)
    requires
        v.wf(),
        applicable(v, Link::ParentMergeConfirm),
        is_applied(v, r, Link::ParentMergeConfirm),
        0 <= at < v.header.children,
        v.pid(at) == v.header.merging_child->0@,
        forall|i: int| 0 <= i < at ==> #[trigger] v.pid(i) != v.header.merging_child->0@,
    ensures
        r.wf(),
        r.items() == v.items().remove(at),
        r.lo() == v.lo(),
        r.hi() == v.hi(),
        r.header.merging_child is None,
        r.header.merging == v.header.merging,
        r.header.next == v.header.next,
        r.header.is_index == v.header.is_index,
        r.header.prefix_len == v.header.prefix_len,
{
    let pid = v.header.merging_child->0@;
    let first = first_pid(v, pid, 0);
    lemma_first_pid(v, pid, 0);
    assert(v.pid(first) == pid);
    if at < first {
        assert(le_value(v.items()[at].1) != pid);
    }
    let m = NodeView {
        header: Header { merging_child: v.header.merging_child, ..r.header },
        ..r
    };
    lemma_is_stitched(v, m, first, None, true);
    lemma_relabelled(m, r);
    assert(r.items() =~= v.items().remove(at));
}

/// A node that is being merged into its left sibling is marked, and nothing else changes.
pub proof fn cap_marks_the_node(v: NodeView, r: NodeView)
    requires
        v.wf(),
        is_applied(v, r, Link::ChildMergeCap),
    ensures
        r.wf(),
        r.items() == v.items(),
        r.lo() == v.lo(),
        r.hi() == v.hi(),
        r.buf == v.buf,
        r.padding == v.padding,
        r.header.merging,
        (Header { merging: false, ..r.header }) == (Header { merging: false, ..v.header }),
{
    lemma_relabelled(v, r);
}

/// What can be put, replaced or removed can be so by an update; a child of an index node
/// can be merged where it is one of its pages, and any node can be capped. A node that is
/// being merged takes none of these.
pub proof fn updates_that_apply(v: NodeView, key: Vec<u8>, value: Vec<u8>, index: usize, pid: u64)
    requires
        v.wf(),
        sorted(v.keys()),
    ensures
        v.header.merging ==> !applicable(v, Link::ChildMergeCap) && !applicable(v, Link::Del(index)),
        !v.header.merging ==> {
            &&& insertable(v, key@, value@) ==> applicable(v, Link::Put(key, value))
            &&& replaceable(v, index as int, value@) ==> applicable(v, Link::Replace(index, value))
            &&& index < v.header.children <==> applicable(v, Link::Del(index))
            &&& applicable(v, Link::ChildMergeCap)
        },
        !v.header.merging && v.header.is_index && (forall|i: int|
            0 <= i < v.header.children ==> (#[trigger] v.items()[i]).1.len() == 8) ==> {
            &&& v.header.merging_child is None && pid != 0 && (exists|i: int|
                0 <= i < v.header.children && le_value((#[trigger] v.items()[i]).1) == pid)
                <==> applicable(v, Link::ParentMergeIntention(pid))
            &&& (v.header.merging_child matches Some(child) && exists|i: int|
                0 <= i < v.header.children && le_value((#[trigger] v.items()[i]).1) == child@)
                <==> applicable(v, Link::ParentMergeConfirm)
        },
{
    if index < v.header.children {
        sorted_items_are_removable(v, index as int);
    }
    the_first_page_is_found(v, pid);
    if v.header.merging_child is Some {
        let child = v.header.merging_child->0@;
        the_first_page_is_found(v, child);
        lemma_first_pid(v, child, 0);
        if first_pid(v, child, 0) < v.header.children {
            sorted_items_are_removable(v, first_pid(v, child, 0));
        }
    }
}

} // verus!
