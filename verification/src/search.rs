//! Finding keys in a node.

use vstd::prelude::*;
use crate::bytes::{le_value, read_le};
use crate::create::item_views;
use crate::node::{Node, NodeView};
use crate::order::{is_lt, lemma_lex_lt_le, lemma_lex_total, lemma_lex_transitive, lex_le, lex_lt, relate, Relation};

verus! {

/// Whether each key comes before all that follow it.
pub open spec fn sorted(keys: Seq<Seq<u8>>) -> bool {
    forall|i: int, j: int|
        #![trigger keys[i], keys[j]]
        0 <= i < j < keys.len() ==> lex_lt(keys[i], keys[j])
}

/// Where a search by halving ends, among the `size` keys from `base` on.
pub open spec fn halving(keys: Seq<Seq<u8>>, key: Seq<u8>, base: int, size: int) -> int
    decreases size,
{
    if size <= 1 {
        base
    } else {
        let mid = base + size / 2;
        halving(
            keys,
            key,
            if lex_lt(key, keys[mid]) {
                base
            } else {
                mid
            },
            size - size / 2,
        )
    }
}

/// What a search by halving finds: the place of `key`, or else where it would have to
/// be inserted. Of keys that are not sorted it finds some of them only.
pub open spec fn search(keys: Seq<Seq<u8>>, key: Seq<u8>) -> Result<int, int> {
    if keys.len() == 0 || lex_lt(key, keys[0]) {
        Err(0)
    } else {
        let at = halving(keys, key, 0, keys.len() as int);
        if keys[at] == key {
            Ok(at)
        } else if lex_lt(keys[at], key) {
            Err(at + 1)
        } else {
            Err(at)
        }
    }
}

proof fn lemma_halving_range(keys: Seq<Seq<u8>>, key: Seq<u8>, base: int, size: int)
    requires
        0 <= base,
        1 <= size,
        base + size <= keys.len(),
    ensures
        base <= halving(keys, key, base, size) < base + size,
    decreases size,
{
    if size > 1 {
        let mid = base + size / 2;
        lemma_halving_range(
            keys,
            key,
            if lex_lt(key, keys[mid]) {
                base
            } else {
                mid
            },
            size - size / 2,
        );
    }
}

/// Where the keys are sorted, halving ends at the last key that is not behind `key`.
proof fn lemma_halving_sorted(keys: Seq<Seq<u8>>, key: Seq<u8>, base: int, size: int)
    requires
        sorted(keys),
        0 <= base,
        1 <= size,
        base + size <= keys.len(),
        lex_le(keys[base], key),
        base + size < keys.len() ==> lex_lt(key, keys[base + size]),
    ensures
        ({
            let at = halving(keys, key, base, size);
            &&& base <= at < base + size
            &&& lex_le(keys[at], key)
            &&& at + 1 < keys.len() ==> lex_lt(key, keys[at + 1])
        }),
    decreases size,
{
    if size > 1 {
        let mid = base + size / 2;
        lemma_lex_total(key, keys[mid]);
        if lex_lt(key, keys[mid]) {
            // the search goes on among one key more than are left, where that is odd
            if base + (size - size / 2) > mid {
                assert(base + (size - size / 2) == mid + 1);
                if mid + 1 < keys.len() {
                    lemma_lex_transitive(key, keys[mid], keys[mid + 1]);
                }
            }
            lemma_halving_sorted(keys, key, base, size - size / 2);
        } else {
            lemma_halving_sorted(keys, key, mid, size - size / 2);
        }
    }
}

/// What a search finds is at its place, and what it does not find in sorted keys is
/// not there.
pub proof fn lemma_search(keys: Seq<Seq<u8>>, key: Seq<u8>)
    ensures
        match search(keys, key) {
            Ok(i) => 0 <= i < keys.len() && keys[i] == key,
            Err(i) => 0 <= i <= keys.len(),
        },
        sorted(keys) ==> match search(keys, key) {
            Ok(i) => {
                &&& forall|j: int| 0 <= j < i ==> lex_lt(#[trigger] keys[j], key)
                &&& forall|j: int| i < j < keys.len() ==> lex_lt(key, #[trigger] keys[j])
            },
            Err(i) => {
                &&& forall|j: int| 0 <= j < i ==> lex_lt(#[trigger] keys[j], key)
                &&& forall|j: int| i <= j < keys.len() ==> lex_lt(key, #[trigger] keys[j])
            },
        },
{
    if keys.len() == 0 {
    } else if lex_lt(key, keys[0]) {
        if sorted(keys) {
            assert forall|j: int| 0 <= j < keys.len() implies lex_lt(key, #[trigger] keys[j]) by {
                if j > 0 {
                    lemma_lex_transitive(key, keys[0], keys[j]);
                }
            }
        }
    } else {
        let n = keys.len() as int;
        lemma_halving_range(keys, key, 0, n);
        let at = halving(keys, key, 0, n);
        if sorted(keys) {
            lemma_lex_total(keys[0], key);
            lemma_halving_sorted(keys, key, 0, n);
            assert forall|j: int| 0 <= j < at implies lex_lt(#[trigger] keys[j], key) by {
                lemma_lex_lt_le(keys[j], keys[at], key);
            }
            assert forall|j: int| at < j < keys.len() implies lex_lt(key, #[trigger] keys[j]) by {
                if j > at + 1 {
                    lemma_lex_transitive(key, keys[at + 1], keys[j]);
                }
            }
        }
    }
}

/// In sorted keys, a search finds what is there.
pub proof fn lemma_search_finds(keys: Seq<Seq<u8>>, i: int)
    requires
        sorted(keys),
        0 <= i < keys.len(),
    ensures
        search(keys, keys[i]) == Ok::<int, int>(i),
{
    let key = keys[i];
    lemma_search(keys, key);
    lemma_lex_total(key, key);
    match search(keys, key) {
        Ok(j) => {
            if j != i {
                assert(keys[j] == keys[i]);
            }
        },
        Err(j) => {
            if i < j {
                assert(lex_lt(keys[i], key));
            } else {
                assert(lex_lt(key, keys[i]));
            }
        },
    }
}

/// The first place from `i` on at which the child page is `pid`; the number of items
/// where there is none.
pub open spec fn first_pid(v: NodeView, pid: u64, i: int) -> int
    decreases v.header.children - i,
{
    if i >= v.header.children {
        v.header.children as int
    } else if le_value(v.items()[i].1) == pid {
        i
    } else {
        first_pid(v, pid, i + 1)
    }
}

/// Whether the child pages can be read until `pid` is found.
pub open spec fn pids_readable(v: NodeView, pid: u64) -> bool {
    &&& v.header.is_index
    &&& forall|i: int|
        #![trigger v.items()[i]]
        0 <= i < v.header.children && i <= first_pid(v, pid, 0) ==> v.items()[i].1.len() == 8
}

/// The bytes of each of `s`.
pub open spec fn slice_views(s: Seq<&[u8]>) -> Seq<Seq<u8>> {
    s.map_values(|x: &[u8]| x@)
}

impl NodeView {
    /// The page of child `i`.
    pub open spec fn pid(self, i: int) -> nat {
        le_value(self.items()[i].1)
    }

    /// Whether `key` lies within the bounds of the node.
    pub open spec fn in_bounds(self, key: Seq<u8>) -> bool {
        &&& lex_le(self.lo(), key)
        &&& self.hi() matches Some(h) ==> lex_lt(key, h)
    }

    /// The child that a search ends at.
    pub open spec fn child_index(self, key: Seq<u8>) -> int {
        match search(self.keys(), key) {
            Ok(i) => i,
            Err(i) => i - 1,
        }
    }
}

impl Node {
    /// The place of `key` as it is stored, or else where it would have to be inserted.
    pub fn find(&self, key: &[u8]) -> (r: Result<usize, usize>)
        requires
            self@.wf(),
        ensures
            match r {
                Ok(i) => {
                    &&& search(self@.keys(), key@) == Ok::<int, int>(i as int)
                    &&& i < self@.header.children
                    &&& self@.keys()[i as int] == key@
                },
                Err(i) => {
                    &&& search(self@.keys(), key@) == Err::<int, int>(i as int)
                    &&& i <= self@.header.children
                    &&& sorted(self@.keys()) ==> {
                        &&& forall|j: int| 0 <= j < i ==> lex_lt(#[trigger] self@.keys()[j], key@)
                        &&& forall|j: int|
                            i <= j < self@.header.children ==> lex_lt(
                                key@,
                                #[trigger] self@.keys()[j],
                            )
                    }
                },
            },
    {
        let ghost keys = self@.keys();
        proof {
            lemma_search(keys, key@);
        }
        let mut size = self.len();
        if size == 0 || is_lt(key, self.index_key(0)) {
            return Err(0);
        }
        let mut base: usize = 0;
        while size > 1
            invariant
                self@.wf(),
                keys == self@.keys(),
                1 <= size,
                base + size <= keys.len(),
                keys.len() == self@.header.children,
                halving(keys, key@, base as int, size as int) == halving(
                    keys,
                    key@,
                    0,
                    keys.len() as int,
                ),
            decreases size,
        {
            let half = size / 2;
            let mid = base + half;
            let l = self.index_key(mid);
            let rel = relate(l, key);
            base = if rel == Relation::Greater {
                base
            } else {
                mid
            };
            size = size - half;
        }
        let l = self.index_key(base);
        let rel = relate(l, key);
        if rel == Relation::Equal {
            Ok(base)
        } else if rel == Relation::Less {
            Err(base + 1)
        } else {
            Err(base)
        }
    }

    /// Whether `key` is among the keys as they are stored.
    pub fn contains_key(&self, key: &[u8]) -> (r: bool)
        requires
            self@.wf(),
        ensures
            r == (search(self@.keys(), key@) is Ok),
            sorted(self@.keys()) ==> r == self@.keys().contains(key@),
    {
        proof {
            lemma_search(self@.keys(), key@);
            if sorted(self@.keys()) && self@.keys().contains(key@) {
                let i = choose|i: int|
                    0 <= i < self@.keys().len() && self@.keys()[i] == key@;
                lemma_search_finds(self@.keys(), i);
            }
        }
        self.find(key).is_ok()
    }

    /// Whether each key comes before all that follow it.
    pub fn is_sorted(&self) -> (r: bool)
        requires
            self@.wf(),
        ensures
            r == sorted(self@.keys()),
            r == forall|i: int, j: int|
                0 <= i < j < self@.header.children ==> lex_lt(
                    #[trigger] self@.keys()[i],
                    #[trigger] self@.keys()[j],
                ),
    {
        let ghost keys = self@.keys();
        if self.len() <= 1 {
            return true;
        }
        let n = self.len() - 1;
        let mut i: usize = 0;
        while i < n
            invariant
                self@.wf(),
                keys == self@.keys(),
                keys.len() == n + 1,
                keys.len() == self@.header.children,
                i <= n,
                forall|a: int, b: int|
                    #![trigger keys[a], keys[b]]
                    0 <= a < b <= i ==> lex_lt(keys[a], keys[b]),
            decreases n - i,
        {
            if !is_lt(self.index_key(i), self.index_key(i + 1)) {
                assert(!lex_lt(keys[i as int], keys[i + 1]));
                return false;
            }
            proof {
                assert forall|a: int, b: int|
                    #![trigger keys[a], keys[b]]
                    0 <= a < b <= i + 1 implies lex_lt(keys[a], keys[b]) by {
                    if b == i + 1 && a < i {
                        lemma_lex_transitive(keys[a], keys[i as int], keys[i + 1]);
                    }
                }
            }
            i = i + 1;
        }
        true
    }

    /// The keys as they are stored.
    pub fn iter_keys(&self) -> (r: Vec<&[u8]>)
        requires
            self@.wf(),
        ensures
            slice_views(r@) == self@.keys(),
    {
        let mut r: Vec<&[u8]> = Vec::with_capacity(self.len());
        let mut i: usize = 0;
        while i < self.len()
            invariant
                self@.wf(),
                i <= self@.header.children,
                slice_views(r@) == self@.keys().take(i as int),
            decreases self@.header.children - i,
        {
            let ghost before = r@;
            r.push(self.index_key(i));
            assert(slice_views(r@) =~= slice_views(before).push(self@.keys()[i as int]));
            assert(self@.keys().take(i + 1) =~= self@.keys().take(i as int).push(
                self@.keys()[i as int],
            ));
            i = i + 1;
        }
        assert(self@.keys().take(i as int) =~= self@.keys());
        r
    }

    /// The values.
    pub fn iter_values(&self) -> (r: Vec<&[u8]>)
        requires
            self@.wf(),
        ensures
            r@.len() == self@.header.children,
            forall|i: int| 0 <= i < r@.len() ==> (#[trigger] r@[i])@ == self@.items()[i].1,
    {
        let mut r: Vec<&[u8]> = Vec::with_capacity(self.len());
        let mut i: usize = 0;
        while i < self.len()
            invariant
                self@.wf(),
                i <= self@.header.children,
                r@.len() == i,
                forall|j: int| 0 <= j < i ==> (#[trigger] r@[j])@ == self@.items()[j].1,
            decreases self@.header.children - i,
        {
            r.push(self.index_value(i));
            i = i + 1;
        }
        r
    }

    /// The keys as they are stored, with their values.
    pub fn iter(&self) -> (r: Vec<(&[u8], &[u8])>)
        requires
            self@.wf(),
        ensures
            item_views(r@) == self@.items(),
    {
        let mut r: Vec<(&[u8], &[u8])> = Vec::with_capacity(self.len());
        let mut i: usize = 0;
        while i < self.len()
            invariant
                self@.wf(),
                i <= self@.header.children,
                item_views(r@) == self@.items().take(i as int),
            decreases self@.header.children - i,
        {
            let ghost before = r@;
            r.push((self.index_key(i), self.index_value(i)));
            assert(item_views(r@) =~= item_views(before).push(self@.items()[i as int]));
            assert(self@.items().take(i + 1) =~= self@.items().take(i as int).push(
                self@.items()[i as int],
            ));
            i = i + 1;
        }
        assert(self@.items().take(i as int) =~= self@.items());
        r
    }

    /// The page of child `idx`.
    pub fn index_pid(&self, idx: usize) -> (r: u64)
        requires
            self@.wf(),
            self@.header.is_index,
            idx < self@.header.children,
            self@.items()[idx as int].1.len() == 8,
        ensures
            r == self@.pid(idx as int),
            r == le_value(self@.items()[idx as int].1),
    {
        read_le(self.index_value(idx))
    }

    /// The pages of the children.
    pub fn iter_index_pids(&self) -> (r: Vec<u64>)
        requires
            self@.wf(),
            self@.header.is_index,
            forall|i: int|
                #![trigger self@.items()[i]]
                0 <= i < self@.header.children ==> self@.items()[i].1.len() == 8,
        ensures
            r@.len() == self@.header.children,
            forall|i: int| 0 <= i < r@.len() ==> #[trigger] r@[i] == self@.pid(i),
    {
        let mut r: Vec<u64> = Vec::with_capacity(self.len());
        let mut i: usize = 0;
        while i < self.len()
            invariant
                self@.wf(),
                self@.header.is_index,
                forall|i: int|
                    #![trigger self@.items()[i]]
                    0 <= i < self@.header.children ==> self@.items()[i].1.len() == 8,
                i <= self@.header.children,
                r@.len() == i,
                forall|j: int| 0 <= j < i ==> #[trigger] r@[j] == self@.pid(j),
            decreases self@.header.children - i,
        {
            r.push(self.index_pid(i));
            i = i + 1;
        }
        r
    }

    /// The first place at which the child page is `pid`.
    pub(crate) fn pid_position(&self, pid: u64) -> (r: Option<usize>)
        requires
            self@.wf(),
            pids_readable(self@, pid),
        ensures
            match r {
                Some(i) => i < self@.header.children && first_pid(self@, pid, 0) == i,
                None => first_pid(self@, pid, 0) == self@.header.children,
            },
    {
        let mut i: usize = 0;
        proof {
            lemma_first_pid(self@, pid, 0);
        }
        while i < self.len()
            invariant
                self@.wf(),
                pids_readable(self@, pid),
                i <= self@.header.children,
                first_pid(self@, pid, 0) == first_pid(self@, pid, i as int),
                i <= first_pid(self@, pid, 0),
            decreases self@.header.children - i,
        {
            proof {
                lemma_first_pid(self@, pid, i as int);
                lemma_first_pid(self@, pid, i + 1);
            }
            if self.index_pid(i) == pid {
                return Some(i);
            }
            i = i + 1;
        }
        None
    }

    /// Whether the child `pid` can be merged into its left sibling.
    pub fn can_merge_child(&self, pid: u64) -> (r: bool)
        requires
            self@.wf(),
            self@.header.merging_child is None && !self@.header.merging ==> pids_readable(
                self@,
                pid,
            ),
        ensures
            r == (self@.header.merging_child is None && !self@.header.merging && first_pid(
                self@,
                pid,
                0,
            ) < self@.header.children),
            r == (self@.header.merging_child is None && !self@.header.merging && exists|i: int|
                0 <= i < self@.header.children && le_value((#[trigger] self@.items()[i]).1)
                    == pid),
    {
        proof {
            lemma_first_pid(self@, pid, 0);
        }
        self.header.merging_child.is_none() && !self.header.merging && self.pid_position(
            pid,
        ).is_some()
    }

    /// The child under which `key` is found: its place and its page.
    pub fn index_next_node(&self, key: &[u8]) -> (r: (usize, u64))
        requires
            self@.wf(),
            self@.in_bounds(key@),
            self@.header.is_index,
            self@.header.prefix_len <= key@.len(),
            search(self@.keys(), key@.skip(self@.header.prefix_len as int)) != Err::<int, int>(0),
            self@.items()[self@.child_index(
                key@.skip(self@.header.prefix_len as int),
            )].1.len() == 8,
        ensures
            r.0 == self@.child_index(key@.skip(self@.header.prefix_len as int)),
            r.0 < self@.header.children,
            r.1 == self@.pid(r.0 as int),
            sorted(self@.keys()) ==> {
                &&& lex_le(
                    self@.keys()[r.0 as int],
                    key@.skip(self@.header.prefix_len as int),
                )
                &&& forall|j: int|
                    r.0 < j < self@.header.children ==> lex_lt(
                        key@.skip(self@.header.prefix_len as int),
                        #[trigger] self@.keys()[j],
                    )
            },
    {
        let from = self.header.prefix_len as usize;
        let suffix = &key[from..key.len()];
        assert(suffix@ =~= key@.skip(from as int));
        proof {
            lemma_search(self@.keys(), suffix@);
        }
        let idx: usize = match self.find(suffix) {
            Ok(idx) => idx,
            Err(idx) => idx - 1,
        };
        (idx, self.index_pid(idx))
    }

    /// The stored form of `key`, its value where it is there, and its place or the
    /// place where it would have to be inserted.
    pub fn node_kv_pair<'a>(&'a self, key: &'a [u8]) -> (r: (&'a [u8], Option<&'a [u8]>, usize))
        requires
            self@.wf(),
            self@.in_bounds(key@),
            self@.header.prefix_len <= key@.len(),
        ensures
            r.0@ == key@.skip(self@.header.prefix_len as int),
            match search(self@.keys(), key@.skip(self@.header.prefix_len as int)) {
                Ok(i) => {
                    &&& r.2 == i
                    &&& i < self@.header.children
                    &&& r.1 matches Some(v) && v@ == self@.items()[i].1
                },
                Err(i) => r.2 == i && r.1 is None,
            },
    {
        let from = self.header.prefix_len as usize;
        let suffix = &key[from..key.len()];
        assert(suffix@ =~= key@.skip(from as int));
        match self.find(suffix) {
            Ok(idx) => (self.index_key(idx), Some(self.index_value(idx)), idx),
            Err(idx) => (suffix, None, idx),
        }
    }
}

pub proof fn lemma_first_pid(v: NodeView, pid: u64, i: int)
    requires
        0 <= i <= v.header.children,
    ensures
        i <= first_pid(v, pid, i) <= v.header.children,
        first_pid(v, pid, i) < v.header.children ==> le_value(
            v.items()[first_pid(v, pid, i)].1,
        ) == pid,
        forall|j: int|
            #![trigger v.items()[j]]
            i <= j < first_pid(v, pid, i) ==> le_value(v.items()[j].1) != pid,
    decreases v.header.children - i,
{
    if i < v.header.children && le_value(v.items()[i].1) != pid {
        lemma_first_pid(v, pid, i + 1);
    }
}

} // verus!
