//! Successors, predecessors and the bounds of nodes.

use vstd::prelude::*;
use crate::contents::lemma_in_bounds_prefix;
use crate::node::NodeView;
use crate::order::{lemma_common_prefix, lemma_lex_le_lt, lemma_lex_lt_le, lemma_lex_same_prefix, lemma_lex_total, lemma_lex_transitive, lex_le, lex_lt};
use crate::range::{backward_start, forward_from, forward_start, last_kept, left_out, lower_bound_contained, next_kept, place_up_to, predecessor_index, successor_index, upper_bound_contained, Bound};
use crate::search::{lemma_search, search, sorted};

verus! {

/// Whether a key lies above a lower bound, or on it where that is included.
pub open spec fn from_bound(bound: Bound<Vec<u8>>, key: Seq<u8>) -> bool {
    match bound {
        Bound::Included(b) => lex_le(b@, key),
        Bound::Excluded(b) => lex_lt(b@, key),
        Bound::Unbounded => true,
    }
}

/// Whether a key lies below an upper bound, or on it where that is included.
pub open spec fn up_to_bound(bound: Bound<Vec<u8>>, key: Seq<u8>) -> bool {
    match bound {
        Bound::Included(b) => lex_le(key, b@),
        Bound::Excluded(b) => lex_lt(key, b@),
        Bound::Unbounded => true,
    }
}

/// Whether a key starts with what the stored keys leave out.
pub open spec fn shares_prefix(v: NodeView, key: Seq<u8>) -> bool {
    v.header.prefix_len <= key.len() && key.take(v.header.prefix_len as int) == v.prefix()
}

/// Whether the node has its prefix and its keys are sorted, within its bounds or not.
pub open spec fn in_order(v: NodeView) -> bool {
    v.wf() && v.has_prefix() && sorted(v.keys())
}

/// Whether no key lies below the low key.
pub open spec fn none_below(v: NodeView) -> bool {
    forall|i: int| 0 <= i < v.header.children ==> lex_le(v.lo(), #[trigger] v.full_key(i))
}

/// A key within the bounds has a stored form, and one stored form only: taking the
/// prefix off and putting it back gives the key.
pub proof fn prefix_roundtrip(v: NodeView, key: Seq<u8>, stored: Seq<u8>)
    requires
        v.consistent(),
        v.in_bounds(key),
    ensures
        shares_prefix(v, key),
        v.prefix() + key.skip(v.header.prefix_len as int) == key,
        (v.prefix() + stored).skip(v.header.prefix_len as int) == stored,
{
    lemma_in_bounds_prefix(v, key);
    assert((v.prefix() + stored).skip(v.header.prefix_len as int) =~= stored);
}

/// The order of whole keys is that of the stored ones, also beyond the bounds.
proof fn lemma_shared_prefix_order(v: NodeView, i: int, key: Seq<u8>)
    requires
        in_order(v),
        shares_prefix(v, key),
        0 <= i < v.header.children,
    ensures
        ({
            let s = key.skip(v.header.prefix_len as int);
            &&& lex_lt(v.full_key(i), key) == lex_lt(v.keys()[i], s)
            &&& lex_lt(key, v.full_key(i)) == lex_lt(s, v.keys()[i])
            &&& v.full_key(i) == key <==> v.keys()[i] == s
        }),
{
    let p = v.prefix();
    let s = key.skip(v.header.prefix_len as int);
    assert(p + s =~= key);
    lemma_lex_same_prefix(p, v.keys()[i], s);
    lemma_lex_same_prefix(p, s, v.keys()[i]);
    assert(v.full_key(i).skip(p.len() as int) =~= v.keys()[i]);
    assert(key.skip(p.len() as int) =~= s);
}

/// Of sorted keys, at most one is left out.
proof fn lemma_next_kept(keys: Seq<Seq<u8>>, skip: Option<Seq<u8>>, i: int)
    requires
        sorted(keys),
        0 <= i <= keys.len(),
    ensures
        next_kept(keys, skip, i) == if i < keys.len() && skip == Some(keys[i]) {
            i + 1
        } else {
            i
        },
{
    reveal_with_fuel(next_kept, 2);
    if i + 1 < keys.len() && skip == Some(keys[i]) {
        lemma_lex_total(keys[i], keys[i + 1]);
    }
}

/// Of sorted keys, at most one is left out.
proof fn lemma_last_kept(keys: Seq<Seq<u8>>, skip: Option<Seq<u8>>, i: int)
    requires
        sorted(keys),
        -1 <= i < keys.len(),
    ensures
        last_kept(keys, skip, i) == if 0 <= i && skip == Some(keys[i]) {
            i - 1
        } else {
            i
        },
{
    reveal_with_fuel(last_kept, 2);
    if 0 < i && skip == Some(keys[i]) {
        lemma_lex_total(keys[i], keys[i - 1]);
    }
}

/// The keys in front of the place where a successor is looked for come before the key
/// from which on it is looked for, and the others do not.
proof fn lemma_forward_start(v: NodeView, from: Seq<u8>)
    requires
        in_order(v),
        shares_prefix(v, from),
    ensures
        ({
            let start = match search(v.keys(), from.skip(v.header.prefix_len as int)) {
                Ok(i) => i,
                Err(i) => i,
            };
            &&& 0 <= start <= v.header.children
            &&& forall|j: int| 0 <= j < start ==> lex_lt(#[trigger] v.full_key(j), from)
            &&& forall|j: int|
                start <= j < v.header.children ==> lex_le(from, #[trigger] v.full_key(j))
            &&& forall|j: int|
                start < j < v.header.children ==> lex_lt(from, #[trigger] v.full_key(j))
        }),
{
    let s = from.skip(v.header.prefix_len as int);
    lemma_search(v.keys(), s);
    let start = match search(v.keys(), s) {
        Ok(i) => i,
        Err(i) => i,
    };
    assert forall|j: int| 0 <= j < start implies lex_lt(#[trigger] v.full_key(j), from) by {
        lemma_shared_prefix_order(v, j, from);
        assert(lex_lt(v.keys()[j], s));
    }
    assert forall|j: int| start < j < v.header.children implies lex_lt(
        from,
        #[trigger] v.full_key(j),
    ) by {
        lemma_shared_prefix_order(v, j, from);
        assert(lex_lt(s, v.keys()[j]));
    }
    assert forall|j: int| start <= j < v.header.children implies lex_le(
        from,
        #[trigger] v.full_key(j),
    ) by {
        lemma_shared_prefix_order(v, j, from);
        if search(v.keys(), s) is Err {
            assert(lex_lt(s, v.keys()[j]));
        } else if j > start {
            assert(lex_lt(from, v.full_key(j)));
        }
    }
}

/// The successor of a bound is the first entry that the bound lets through, where the
/// key from which on it is looked for starts as the keys of the node do: each key within
/// the bounds of a consistent node does. Of a bound that lies below the node and is
/// itself left out, this holds unless what it has behind the length of the prefix
/// happens to be the first key.
pub proof fn successor_is_the_first_entry(v: NodeView, bound: Bound<Vec<u8>>)
    requires
        in_order(v),
        none_below(v),
        shares_prefix(v, forward_from(v, bound)) || v.consistent() && v.in_bounds(
            forward_from(v, bound),
        ),
        bound matches Bound::Excluded(b) ==> shares_prefix(v, b@) || forward_start(v, bound)
            == v.header.children || left_out(v, bound) != Some(v.keys()[forward_start(v, bound)]),
    ensures
        ({
            let i = successor_index(v, bound);
            &&& 0 <= i <= v.header.children
            &&& forall|j: int| 0 <= j < i ==> !from_bound(bound, #[trigger] v.full_key(j))
            &&& forall|j: int|
                i <= j < v.header.children ==> from_bound(bound, #[trigger] v.full_key(j))
        }),
{
    let from = forward_from(v, bound);
    let start = forward_start(v, bound);
    let i = successor_index(v, bound);
    if !shares_prefix(v, from) {
        lemma_in_bounds_prefix(v, from);
    }
    lemma_forward_start(v, from);
    lemma_next_kept(v.keys(), left_out(v, bound), start);
    assert forall|j: int| 0 <= j < i implies !from_bound(bound, #[trigger] v.full_key(j)) by {
        lemma_not_from(v, bound, j);
    }
    assert forall|j: int| i <= j < v.header.children implies from_bound(
        bound,
        #[trigger] v.full_key(j),
    ) by {
        lemma_from(v, bound, j);
    }
}

/// What stands in front of the successor is not let through.
proof fn lemma_not_from(v: NodeView, bound: Bound<Vec<u8>>, j: int)
    requires
        in_order(v),
        none_below(v),
        shares_prefix(v, forward_from(v, bound)),
        bound matches Bound::Excluded(b) ==> shares_prefix(v, b@) || forward_start(v, bound)
            == v.header.children || left_out(v, bound) != Some(v.keys()[forward_start(v, bound)]),
        0 <= j < successor_index(v, bound),
        successor_index(v, bound) <= v.header.children,
    ensures
        !from_bound(bound, v.full_key(j)),
{
    let from = forward_from(v, bound);
    let start = forward_start(v, bound);
    lemma_forward_start(v, from);
    lemma_next_kept(v.keys(), left_out(v, bound), start);
    assert(lex_le(v.lo(), v.full_key(j)));
    lemma_lex_total(v.full_key(j), v.lo());
    if j < start {
        assert(lex_lt(v.full_key(j), from));
        lemma_lex_total(v.full_key(j), from);
        match bound {
            Bound::Unbounded => {},
            Bound::Included(b) => {
                lemma_lex_total(b@, v.lo());
            },
            Bound::Excluded(b) => {
                lemma_lex_total(b@, v.lo());
            },
        }
    } else {
        // only a bound that is left out moves the successor on
        let b = bound->Excluded_0@;
        assert(left_out(v, bound) == Some(v.keys()[start]));
        lemma_shared_prefix_order(v, j, b);
        lemma_lex_total(b, b);
    }
}

/// What stands at the successor or behind it is let through.
proof fn lemma_from(v: NodeView, bound: Bound<Vec<u8>>, j: int)
    requires
        in_order(v),
        shares_prefix(v, forward_from(v, bound)),
        successor_index(v, bound) <= j < v.header.children,
    ensures
        from_bound(bound, v.full_key(j)),
{
    let from = forward_from(v, bound);
    let start = forward_start(v, bound);
    lemma_forward_start(v, from);
    lemma_next_kept(v.keys(), left_out(v, bound), start);
    assert(start <= j);
    assert(lex_le(from, v.full_key(j)));
    match bound {
        Bound::Unbounded => {},
        Bound::Included(b) => {
            lemma_lex_total(b@, v.lo());
            if b@ != from {
                lemma_lex_lt_le(b@, from, v.full_key(j));
            }
        },
        Bound::Excluded(b) => {
            lemma_lex_total(b@, v.lo());
            if b@ != from {
                lemma_lex_lt_le(b@, from, v.full_key(j));
            } else if v.full_key(j) == from {
                // the bound itself is left out
                lemma_shared_prefix_order(v, j, from);
                if j > start {
                    lemma_lex_total(from, from);
                }
                assert(left_out(v, bound) == Some(v.keys()[start]));
            }
        },
    }
}

/// The keys up to the place from which on a predecessor is looked for do not come
/// after the key, and the others do.
proof fn lemma_place_up_to(v: NodeView, key: Seq<u8>)
    requires
        in_order(v),
        shares_prefix(v, key),
    ensures
        ({
            let i = place_up_to(v, key.skip(v.header.prefix_len as int));
            &&& -1 <= i < v.header.children
            &&& forall|j: int| 0 <= j <= i ==> lex_le(#[trigger] v.full_key(j), key)
            &&& forall|j: int| 0 <= j < i ==> lex_lt(#[trigger] v.full_key(j), key)
            &&& forall|j: int| i < j < v.header.children ==> lex_lt(key, #[trigger] v.full_key(j))
        }),
{
    let s = key.skip(v.header.prefix_len as int);
    lemma_search(v.keys(), s);
    let i = place_up_to(v, s);
    assert forall|j: int| 0 <= j < i implies lex_lt(#[trigger] v.full_key(j), key) by {
        lemma_shared_prefix_order(v, j, key);
        assert(lex_lt(v.keys()[j], s));
    }
    assert forall|j: int| 0 <= j <= i implies lex_le(#[trigger] v.full_key(j), key) by {
        lemma_shared_prefix_order(v, j, key);
        if search(v.keys(), s) is Err {
            assert(lex_lt(v.keys()[j], s));
        } else if j < i {
            assert(lex_lt(v.full_key(j), key));
        }
    }
    assert forall|j: int| i < j < v.header.children implies lex_lt(
        key,
        #[trigger] v.full_key(j),
    ) by {
        lemma_shared_prefix_order(v, j, key);
        assert(lex_lt(s, v.keys()[j]));
    }
}

/// The predecessor of a bound is the last entry that the bound lets through, where the
/// bound starts as the keys of the node do: each bound within those of the node does,
/// and so does its high key.
pub proof fn predecessor_is_the_last_entry(v: NodeView, bound: Bound<Vec<u8>>)
    requires
        in_order(v),
        match bound {
            Bound::Included(b) => shares_prefix(v, b@),
            Bound::Excluded(b) => shares_prefix(v, b@),
            Bound::Unbounded => true,
        },
    ensures
        ({
            let i = predecessor_index(v, bound);
            &&& -1 <= i < v.header.children
            &&& forall|j: int| 0 <= j <= i ==> up_to_bound(bound, #[trigger] v.full_key(j))
            &&& forall|j: int|
                i < j < v.header.children ==> !up_to_bound(bound, #[trigger] v.full_key(j))
        }),
{
    let start = backward_start(v, bound);
    let i = predecessor_index(v, bound);
    match bound {
        Bound::Unbounded => {
            lemma_last_kept(v.keys(), left_out(v, bound), start);
        },
        Bound::Included(b) => {
            lemma_place_up_to(v, b@);
            lemma_last_kept(v.keys(), left_out(v, bound), start);
            assert forall|j: int| i < j < v.header.children implies !up_to_bound(
                bound,
                #[trigger] v.full_key(j),
            ) by {
                lemma_lex_total(b@, v.full_key(j));
            }
        },
        Bound::Excluded(b) => {
            lemma_place_up_to(v, b@);
            lemma_last_kept(v.keys(), left_out(v, bound), start);
            assert forall|j: int| 0 <= j <= i implies up_to_bound(
                bound,
                #[trigger] v.full_key(j),
            ) by {
                assert(lex_le(v.full_key(j), b@));
                lemma_shared_prefix_order(v, j, b@);
                if v.full_key(j) == b@ {
                    lemma_lex_total(b@, b@);
                    assert(j == start);
                }
            }
            assert forall|j: int| i < j < v.header.children implies !up_to_bound(
                bound,
                #[trigger] v.full_key(j),
            ) by {
                lemma_lex_total(b@, v.full_key(j));
                if j <= start {
                    lemma_shared_prefix_order(v, j, b@);
                }
            }
        },
    }
}

/// The high key starts as the keys of the node do.
pub proof fn high_key_shares_prefix(v: NodeView)
    requires
        v.consistent(),
    ensures
        v.hi() matches Some(hi) ==> shares_prefix(v, hi),
{
    if let Some(hi) = v.hi() {
        lemma_common_prefix(v.lo(), hi);
        assert(hi.take(v.header.prefix_len as int) =~= v.prefix());
    }
}

/// An upper bound is contained in a node exactly where nothing up to it lies to the
/// right of the node.
pub proof fn contained_upper_bound_ends_here(v: NodeView, bound: Bound<Vec<u8>>)
    ensures
        upper_bound_contained(v, bound) <==> forall|key: Seq<u8>|
            #[trigger] up_to_bound(bound, key) ==> (v.hi() matches Some(hi) ==> lex_lt(key, hi)),
{
    if let Some(hi) = v.hi() {
        lemma_lex_total(hi, hi);
        match bound {
            Bound::Included(b) => {
                assert forall|key: Seq<u8>| #[trigger]
                    up_to_bound(bound, key) && upper_bound_contained(v, bound) implies lex_lt(
                    key,
                    hi,
                ) by {
                    lemma_lex_le_lt(key, b@, hi);
                }
                assert(up_to_bound(bound, b@));
            },
            Bound::Excluded(b) => {
                assert forall|key: Seq<u8>| #[trigger]
                    up_to_bound(bound, key) && upper_bound_contained(v, bound) implies lex_lt(
                    key,
                    hi,
                ) by {
                    lemma_lex_lt_le(key, b@, hi);
                }
                lemma_lex_total(b@, hi);
                if !upper_bound_contained(v, bound) {
                    assert(up_to_bound(bound, hi));
                }
            },
            Bound::Unbounded => {
                assert(up_to_bound(bound, hi));
            },
        }
    }
}

/// Where a lower bound is contained in a node, nothing above it lies to the left of the
/// node. An open end that is walked to from above says nothing of the kind.
pub proof fn contained_lower_bound_starts_here(
    v: NodeView,
    bound: Bound<Vec<u8>>,
    is_forward: bool,
    key: Seq<u8>,
)
    requires
        lower_bound_contained(v, bound, is_forward),
        is_forward || bound !is Unbounded,
        from_bound(bound, key),
    ensures
        lex_le(v.lo(), key),
{
    lemma_common_prefix(v.lo(), key);
    if v.lo().len() == 0 {
        if key.len() == 0 {
            assert(v.lo() =~= key);
        }
    } else {
        match bound {
            Bound::Included(b) => {
                if b@ != key {
                    if v.lo() != b@ {
                        lemma_lex_transitive(v.lo(), b@, key);
                    }
                }
            },
            Bound::Excluded(b) => {
                if v.lo() != b@ {
                    lemma_lex_transitive(v.lo(), b@, key);
                }
            },
            Bound::Unbounded => {},
        }
    }
}

/// An included lower bound is contained in a node exactly where nothing from it on lies
/// to the left of the node, whichever way it is walked to.
pub proof fn included_bounds_from_the_low_key_on(v: NodeView, b: Vec<u8>, is_forward: bool)
    ensures
        lower_bound_contained(v, Bound::Included(b), is_forward) <==> lex_le(v.lo(), b@),
        lower_bound_contained(v, Bound::Included(b), is_forward) <==> forall|key: Seq<u8>|
            #[trigger] lex_le(b@, key) ==> lex_le(v.lo(), key),
{
    let bound = Bound::Included(b);
    lemma_above_empty_low(v, b@);
    if lower_bound_contained(v, bound, is_forward) {
        assert forall|key: Seq<u8>| #[trigger] lex_le(b@, key) implies lex_le(v.lo(), key) by {
            contained_lower_bound_starts_here(v, bound, is_forward, key);
        }
    } else {
        assert(lex_le(b@, b@));
    }
}

/// Walked forward, an excluded lower bound is contained where an included one is. Walked
/// back, it is contained where, besides, it is not the low key itself, or the node is the
/// first one.
pub proof fn excluded_bounds_from_the_low_key_on(v: NodeView, b: Vec<u8>)
    ensures
        lower_bound_contained(v, Bound::Excluded(b), true) <==> lower_bound_contained(
            v,
            Bound::Included(b),
            true,
        ),
        lower_bound_contained(v, Bound::Excluded(b), true) <==> lex_le(v.lo(), b@),
        v.lo().len() > 0 ==> (lower_bound_contained(v, Bound::Excluded(b), false) <==> lex_lt(
            v.lo(),
            b@,
        )),
        v.lo().len() > 0 ==> (lower_bound_contained(v, Bound::Excluded(b), false) <==> exists|
            key: Seq<u8>,
        | #[trigger] lex_le(v.lo(), key) && lex_lt(key, b@)),
        v.lo().len() == 0 ==> lower_bound_contained(v, Bound::Excluded(b), false),
{
    lemma_above_empty_low(v, b@);
    if lex_lt(v.lo(), b@) {
        assert(lex_le(v.lo(), v.lo()));
    }
    assert forall|key: Seq<u8>| #[trigger]
        lex_le(v.lo(), key) && lex_lt(key, b@) implies lex_lt(v.lo(), b@) by {
        lemma_lex_le_lt(v.lo(), key, b@);
    }
}

/// Nothing comes before an empty low key.
proof fn lemma_above_empty_low(v: NodeView, b: Seq<u8>)
    ensures
        v.lo().len() == 0 ==> lex_le(v.lo(), b),
{
    lemma_common_prefix(v.lo(), b);
    if v.lo().len() == 0 && b.len() == 0 {
        assert(v.lo() =~= b);
    }
}

/// Walked forward, an open end is contained in the first node; walked back, in the last.
pub proof fn open_ends_lie_in_the_outermost_nodes(v: NodeView)
    ensures
        lower_bound_contained(v, Bound::Unbounded, true) <==> forall|key: Seq<u8>|
            #[trigger] lex_le(v.lo(), key),
        lower_bound_contained(v, Bound::Unbounded, false) <==> v.hi() is None,
        upper_bound_contained(v, Bound::Unbounded) <==> v.hi() is None,
{
    let none = Seq::<u8>::empty();
    lemma_common_prefix(v.lo(), none);
    if v.lo().len() == 0 {
        assert forall|key: Seq<u8>| #[trigger] lex_le(v.lo(), key) by {
            lemma_above_empty_low(v, key);
        }
    } else {
        assert(v.lo() != none);
        assert(!lex_le(v.lo(), none));
    }
}

/// An included upper bound is contained in a node exactly where it lies below the high
/// key, an excluded one also where it is the high key.
pub proof fn upper_bounds_up_to_the_high_key(v: NodeView, b: Vec<u8>)
    ensures
        upper_bound_contained(v, Bound::Included(b)) <==> (v.hi() matches Some(hi) ==> lex_lt(
            b@,
            hi,
        )),
        upper_bound_contained(v, Bound::Excluded(b)) <==> (v.hi() matches Some(hi) ==> lex_le(
            b@,
            hi,
        )),
{
}

} // verus!
