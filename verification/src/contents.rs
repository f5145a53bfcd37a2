//! What a node says about the keys within its bounds.

use vstd::prelude::*;
use crate::node::NodeView;
use crate::order::{common_prefix, lemma_between_shares_prefix, lemma_lex_same_prefix, lex_lt};
use crate::search::{lemma_search, lemma_search_finds, search, sorted};

verus! {

impl NodeView {
    /// The whole keys and their values.
    pub open spec fn entries(self) -> Seq<(Seq<u8>, Seq<u8>)> {
        Seq::new(self.header.children as nat, |i: int| (self.full_key(i), self.items()[i].1))
    }

    /// The value of a key as it is stored, if the key is found.
    pub open spec fn lookup(self, key: Seq<u8>) -> Option<Seq<u8>> {
        match search(self.keys(), key) {
            Ok(i) => Some(self.items()[i].1),
            Err(_) => None,
        }
    }

    /// The value of a whole key, if the key is found.
    pub open spec fn get(self, key: Seq<u8>) -> Option<Seq<u8>> {
        self.lookup(key.skip(self.header.prefix_len as int))
    }

    /// Whether the keys are sorted and within the bounds of the node.
    pub open spec fn orderly(self) -> bool {
        &&& self.wf()
        &&& self.has_prefix()
        &&& sorted(self.keys())
        &&& forall|i: int|
            0 <= i < self.header.children ==> self.in_bounds(#[trigger] self.full_key(i))
    }

    /// Whether the node is one of a tree: its keys are sorted and within its bounds,
    /// and they leave out no more than all keys within the bounds share.
    pub open spec fn consistent(self) -> bool {
        &&& self.orderly()
        &&& match self.hi() {
            Some(hi) => lex_lt(self.lo(), hi) && self.header.prefix_len <= common_prefix(
                self.lo(),
                hi,
            ),
            None => self.header.prefix_len == 0,
        }
    }

    /// Whether the node is an index node whose first child takes the keys from the low
    /// key on, so that there is a child for each key within the bounds.
    pub open spec fn covering(self) -> bool {
        &&& self.consistent()
        &&& self.header.is_index
        &&& self.header.children > 0
        &&& self.full_key(0) == self.lo()
        &&& forall|i: int| 0 <= i < self.header.children ==> (#[trigger] self.items()[i]).1.len() == 8
    }
}

/// A search finds each stored key, with its value.
pub proof fn lemma_lookup_finds(v: NodeView, i: int)
    requires
        sorted(v.keys()),
        0 <= i < v.header.children,
    ensures
        v.lookup(v.items()[i].0) == Some(v.items()[i].1),
{
    assert(v.keys()[i] == v.items()[i].0);
    lemma_search_finds(v.keys(), i);
}

/// What a search finds is there.
pub proof fn lemma_lookup_found(v: NodeView, key: Seq<u8>) -> (i: int)
    requires
        v.lookup(key) is Some,
    ensures
        0 <= i < v.header.children,
        v.items()[i].0 == key,
        v.lookup(key) == Some(v.items()[i].1),
{
    lemma_search(v.keys(), key);
    let i = search(v.keys(), key)->Ok_0;
    assert(v.keys()[i] == v.items()[i].0);
    i
}

/// Every key within the bounds starts with what the stored keys leave out.
pub proof fn lemma_in_bounds_prefix(v: NodeView, key: Seq<u8>)
    requires
        v.consistent(),
        v.in_bounds(key),
    ensures
        v.header.prefix_len <= key.len(),
        v.prefix().len() == v.header.prefix_len,
        key.take(v.header.prefix_len as int) == v.prefix(),
        v.prefix() + key.skip(v.header.prefix_len as int) == key,
{
    let n = v.header.prefix_len as int;
    assert(v.lo().len() == v.header.lo_len);
    match v.hi() {
        Some(hi) => {
            lemma_between_shares_prefix(v.lo(), key, hi, n);
        },
        None => {
            assert(key.take(0) =~= v.lo().take(0));
        },
    }
    assert(v.prefix() + key.skip(n) =~= key);
}

/// The order of whole keys is that of the stored ones.
pub proof fn lemma_full_key_order(v: NodeView, i: int, key: Seq<u8>)
    requires
        v.consistent(),
        v.in_bounds(key),
        0 <= i < v.header.children,
    ensures
        lex_lt(v.full_key(i), key) == lex_lt(
            v.keys()[i],
            key.skip(v.header.prefix_len as int),
        ),
        lex_lt(key, v.full_key(i)) == lex_lt(
            key.skip(v.header.prefix_len as int),
            v.keys()[i],
        ),
        v.full_key(i) == key <==> v.keys()[i] == key.skip(v.header.prefix_len as int),
        v.full_key(i).skip(v.header.prefix_len as int) == v.keys()[i],
{
    lemma_in_bounds_prefix(v, key);
    let p = v.prefix();
    let s = key.skip(v.header.prefix_len as int);
    lemma_lex_same_prefix(p, v.keys()[i], s);
    lemma_lex_same_prefix(p, s, v.keys()[i]);
    assert(v.full_key(i).skip(p.len() as int) =~= v.keys()[i]);
}

/// A whole key is the prefix and the key as it is stored.
pub proof fn lemma_full_key_parts(v: NodeView, i: int)
    requires
        v.bounded(),
        v.has_prefix(),
    ensures
        v.prefix().len() == v.header.prefix_len,
        v.full_key(i).len() == v.header.prefix_len + v.keys()[i].len(),
        v.full_key(i).take(v.header.prefix_len as int) == v.prefix(),
        v.full_key(i).skip(v.header.prefix_len as int) == v.keys()[i],
{
    let n = v.header.prefix_len as int;
    assert(v.lo().len() == v.header.lo_len);
    assert(v.full_key(i).take(n) =~= v.prefix());
    assert(v.full_key(i).skip(n) =~= v.keys()[i]);
}

/// The whole keys are sorted.
pub proof fn lemma_full_keys_sorted(v: NodeView, i: int, j: int)
    requires
        sorted(v.keys()),
        0 <= i < j < v.header.children,
    ensures
        lex_lt(v.full_key(i), v.full_key(j)),
{
    assert(lex_lt(v.keys()[i], v.keys()[j]));
    lemma_lex_same_prefix(v.prefix(), v.keys()[i], v.keys()[j]);
}

/// Each entry is found under its whole key.
pub proof fn lemma_get_finds(v: NodeView, i: int)
    requires
        v.consistent(),
        0 <= i < v.header.children,
    ensures
        v.get(v.entries()[i].0) == Some(v.entries()[i].1),
{
    assert(v.in_bounds(v.full_key(i)));
    lemma_full_key_order(v, i, v.full_key(i));
    lemma_lookup_finds(v, i);
    assert(v.keys()[i] == v.items()[i].0);
}

/// What is found under a whole key is an entry.
pub proof fn lemma_get_found(v: NodeView, key: Seq<u8>) -> (i: int)
    requires
        v.consistent(),
        v.in_bounds(key),
        v.get(key) is Some,
    ensures
        0 <= i < v.header.children,
        v.entries()[i].0 == key,
        v.get(key) == Some(v.entries()[i].1),
{
    let i = lemma_lookup_found(v, key.skip(v.header.prefix_len as int));
    lemma_in_bounds_prefix(v, key);
    assert(v.keys()[i] == v.items()[i].0);
    i
}

} // verus!
