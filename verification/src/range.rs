//! Bounds of ranges, and the items next to them.

use vstd::prelude::*;
use crate::bytes::to_vec;
use crate::node::{Node, NodeView};
use crate::order::{is_eq, is_le, is_lt, lex_le, lex_lt};
use crate::prefix;
use crate::search::{lemma_search, search};

verus! {

/// An end of a range.
#[derive(Debug)]
pub enum Bound<T> {
    /// The range ends with this.
    Included(T),
    /// The range ends in front of this, or starts behind it.
    Excluded(T),
    /// The range does not end.
    Unbounded,
}

/// The larger of the two.
pub open spec fn lex_max(a: Seq<u8>, b: Seq<u8>) -> Seq<u8> {
    if lex_lt(b, a) {
        a
    } else {
        b
    }
}

/// The stored form of the key that a bound leaves out, if any.
pub open spec fn left_out(v: NodeView, bound: Bound<Vec<u8>>) -> Option<Seq<u8>> {
    match bound {
        Bound::Excluded(b) => if b@.len() >= v.header.prefix_len {
            Some(b@.skip(v.header.prefix_len as int))
        } else {
            None
        },
        _ => None,
    }
}

/// The first place from `i` on whose key is not `skip`.
pub open spec fn next_kept(keys: Seq<Seq<u8>>, skip: Option<Seq<u8>>, i: int) -> int
    decreases keys.len() - i,
{
    if i < keys.len() && skip == Some(keys[i]) {
        next_kept(keys, skip, i + 1)
    } else {
        i
    }
}

/// The last place up to `i` whose key is not `skip`; -1 where there is none.
pub open spec fn last_kept(keys: Seq<Seq<u8>>, skip: Option<Seq<u8>>, i: int) -> int
    decreases i + 1,
{
    if 0 <= i && skip == Some(keys[i]) {
        last_kept(keys, skip, i - 1)
    } else {
        i
    }
}

/// The whole key from which on a successor is looked for.
pub open spec fn forward_from(v: NodeView, bound: Bound<Vec<u8>>) -> Seq<u8> {
    match bound {
        Bound::Unbounded => v.lo(),
        Bound::Included(b) => lex_max(b@, v.lo()),
        Bound::Excluded(b) => lex_max(b@, v.lo()),
    }
}

/// The place from which on a successor is looked for.
pub open spec fn forward_start(v: NodeView, bound: Bound<Vec<u8>>) -> int {
    match search(v.keys(), forward_from(v, bound).skip(v.header.prefix_len as int)) {
        Ok(i) => i,
        Err(i) => i,
    }
}

/// The place of the successor of a bound; the number of items where there is none.
pub open spec fn successor_index(v: NodeView, bound: Bound<Vec<u8>>) -> int {
    next_kept(v.keys(), left_out(v, bound), forward_start(v, bound))
}

/// The place down from which a predecessor is looked for; -1 where there is none.
pub open spec fn backward_start(v: NodeView, bound: Bound<Vec<u8>>) -> int {
    match bound {
        Bound::Unbounded => v.header.children - 1,
        Bound::Included(b) => place_up_to(v, b@.skip(v.header.prefix_len as int)),
        Bound::Excluded(b) => place_up_to(v, b@.skip(v.header.prefix_len as int)),
    }
}

/// The place of `key`, or else the place in front of where it would be inserted.
pub open spec fn place_up_to(v: NodeView, key: Seq<u8>) -> int {
    match search(v.keys(), key) {
        Ok(i) => i,
        Err(i) => i - 1,
    }
}

/// The place of the predecessor of a bound; -1 where there is none.
pub open spec fn predecessor_index(v: NodeView, bound: Bound<Vec<u8>>) -> int {
    last_kept(v.keys(), left_out(v, bound), backward_start(v, bound))
}

/// Whether what lies below `bound` cannot lie to the right of the node.
pub open spec fn upper_bound_contained(v: NodeView, bound: Bound<Vec<u8>>) -> bool {
    match (v.hi(), bound) {
        (None, _) => true,
        (Some(hi), Bound::Excluded(b)) => lex_le(b@, hi),
        (Some(hi), Bound::Included(b)) => lex_lt(b@, hi),
        (Some(_), Bound::Unbounded) => false,
    }
}

/// Whether what lies above `bound` cannot lie to the left of the node. Of an open end
/// that is walked to from above, whether the node is the last one.
pub open spec fn lower_bound_contained(
    v: NodeView,
    bound: Bound<Vec<u8>>,
    is_forward: bool,
) -> bool {
    match bound {
        Bound::Excluded(b) => {
            ||| lex_lt(v.lo(), b@)
            ||| is_forward && b@ == v.lo()
            ||| v.lo().len() == 0
        },
        Bound::Included(b) => lex_le(v.lo(), b@) || v.lo().len() == 0,
        Bound::Unbounded => if is_forward {
            v.lo().len() == 0
        } else {
            v.hi() is None
        },
    }
}

impl NodeView {
    /// Whether the prefix that keys leave out is part of the low key.
    pub open spec fn has_prefix(self) -> bool {
        self.header.prefix_len <= self.header.lo_len
    }

    /// The whole key `i`.
    pub open spec fn full_key(self, i: int) -> Seq<u8> {
        self.prefix() + self.keys()[i]
    }
}

impl Node {
    /// What the stored keys leave out in front.
    pub fn prefix(&self) -> (r: &[u8])
        requires
            self@.bounded(),
            self@.has_prefix(),
        ensures
            r@ == self@.prefix(),
    {
        let r = &self.lo()[0..self.header.prefix_len as usize];
        assert(r@ =~= self@.prefix());
        r
    }

    /// The whole key of a stored one.
    pub fn prefix_decode(&self, key: &[u8]) -> (r: Vec<u8>)
        requires
            self@.bounded(),
            self@.has_prefix(),
        ensures
            r@ == self@.prefix() + key@,
    {
        prefix::decode(self.prefix(), key)
    }

    /// The stored form of a whole key that lies within the bounds.
    pub fn prefix_encode<'a>(&self, key: &'a [u8]) -> (r: &'a [u8])
        requires
            self@.bounded(),
            self@.in_bounds(key@),
            self@.header.prefix_len <= key@.len(),
        ensures
            r@ == key@.skip(self@.header.prefix_len as int),
    {
        let from = self.header.prefix_len as usize;
        let r = &key[from..key.len()];
        assert(r@ =~= key@.skip(from as int));
        r
    }

    /// Whether what lies below `bound` cannot lie to the right of the node.
    pub fn contains_upper_bound(&self, bound: &Bound<Vec<u8>>) -> (r: bool)
        requires
            self@.bounded(),
        ensures
            r == upper_bound_contained(self@, *bound),
            self@.header.hi_len == 0 ==> r,
            self@.hi() matches Some(hi) ==> r == match *bound {
                Bound::Excluded(b) => lex_le(b@, hi),
                Bound::Included(b) => lex_lt(b@, hi),
                Bound::Unbounded => false,
            },
    {
        match self.hi() {
            Some(hi) => match bound {
                Bound::Excluded(b) => is_le(b.as_slice(), hi),
                Bound::Included(b) => is_lt(b.as_slice(), hi),
                Bound::Unbounded => false,
            },
            None => true,
        }
    }

    /// Whether what lies above `bound` cannot lie to the left of the node.
    pub fn contains_lower_bound(&self, bound: &Bound<Vec<u8>>, is_forward: bool) -> (r: bool)
        requires
            self@.bounded(),
        ensures
            r == lower_bound_contained(self@, *bound, is_forward),
            r == match *bound {
                Bound::Excluded(b) => self@.header.lo_len == 0 || lex_lt(self@.lo(), b@)
                    || is_forward && b@ == self@.lo(),
                Bound::Included(b) => self@.header.lo_len == 0 || lex_le(self@.lo(), b@),
                Bound::Unbounded => if is_forward {
                    self@.header.lo_len == 0
                } else {
                    self@.header.hi_len == 0
                },
            },
    {
        let lo = self.lo();
        match bound {
            Bound::Excluded(b) => is_lt(lo, b.as_slice()) || (is_forward && is_eq(
                b.as_slice(),
                lo,
            )) || lo.len() == 0,
            Bound::Included(b) => is_le(lo, b.as_slice()) || lo.len() == 0,
            Bound::Unbounded => if is_forward {
                lo.len() == 0
            } else {
                self.hi().is_none()
            },
        }
    }

    /// The first item that does not come before `bound`, and is not left out by it.
    pub fn successor(&self, bound: &Bound<Vec<u8>>) -> (r: Option<(Vec<u8>, Vec<u8>)>)
        requires
            self@.wf(),
            !self@.header.is_index,
            self@.in_bounds(forward_from(self@, *bound)),
            self@.header.prefix_len <= forward_from(self@, *bound).len(),
            *bound matches Bound::Excluded(b) ==> forward_start(self@, *bound)
                < self@.header.children ==> b@.len() >= self@.header.prefix_len,
            successor_index(self@, *bound) < self@.header.children ==> self@.has_prefix(),
        ensures
            ({
                let i = successor_index(self@, *bound);
                match r {
                    Some((k, v)) => {
                        &&& 0 <= i < self@.header.children
                        &&& k@ == self@.full_key(i)
                        &&& v@ == self@.items()[i].1
                    },
                    None => i == self@.header.children,
                }
            }),
    {
        let ghost keys = self@.keys();
        let ghost skip = left_out(self@, *bound);
        // This encoding happens this way because
        // keys cannot be lower than the node's lo key.
        let predecessor_key = match bound {
            Bound::Unbounded => self.prefix_encode(self.lo()),
            Bound::Included(b) => self.prefix_encode(self.not_below_lo(b.as_slice())),
            Bound::Excluded(b) => self.prefix_encode(self.not_below_lo(b.as_slice())),
        };
        proof {
            lemma_search(keys, predecessor_key@);
        }
        let start: usize = match self.find(predecessor_key) {
            Ok(start) => start,
            Err(start) => start,
        };
        let mut idx = start;
        while idx < self.len()
            invariant
                self@.wf(),
                successor_index(self@, *bound) < self@.header.children ==> self@.has_prefix(),
                keys == self@.keys(),
                skip == left_out(self@, *bound),
                idx <= self@.header.children,
                start <= idx,
                start == forward_start(self@, *bound),
                *bound matches Bound::Excluded(b) ==> start < self@.header.children ==> b@.len()
                    >= self@.header.prefix_len,
                next_kept(keys, skip, start as int) == next_kept(keys, skip, idx as int),
            decreases self@.header.children - idx,
        {
            let k = self.index_key(idx);
            let excluded = match bound {
                Bound::Excluded(b) => is_eq(
                    &b.as_slice()[self.header.prefix_len as usize..b.len()],
                    k,
                ),
                _ => false,
            };
            assert(excluded == (skip == Some(keys[idx as int]))) by {
                match *bound {
                    Bound::Excluded(b) => {
                        assert(b@.subrange(self@.header.prefix_len as int, b@.len() as int)
                            =~= b@.skip(self@.header.prefix_len as int));
                    },
                    _ => {},
                }
            }
            if !excluded {
                return Some((self.prefix_decode(k), to_vec(self.index_value(idx))));
            }
            // keep going because we wanted to exclude
            // this key.
            idx = idx + 1;
        }
        None
    }

    /// `key`, or the low key where `key` comes before it.
    fn not_below_lo<'a>(&'a self, key: &'a [u8]) -> (r: &'a [u8])
        requires
            self@.bounded(),
        ensures
            r@ == lex_max(key@, self@.lo()),
    {
        if is_lt(self.lo(), key) {
            key
        } else {
            self.lo()
        }
    }

    /// The last item that does not come after `bound`, and is not left out by it.
    pub fn predecessor(&self, bound: &Bound<Vec<u8>>) -> (r: Option<(Vec<u8>, Vec<u8>)>)
        requires
            self@.wf(),
            !self@.header.is_index,
            match *bound {
                Bound::Unbounded => self@.hi() is None,
                Bound::Included(b) => self@.in_bounds(b@) && b@.len() >= self@.header.prefix_len,
                Bound::Excluded(b) => b@.len() >= self@.header.prefix_len,
            },
            predecessor_index(self@, *bound) >= 0 ==> self@.has_prefix(),
        ensures
            ({
                let i = predecessor_index(self@, *bound);
                match r {
                    Some((k, v)) => {
                        &&& 0 <= i < self@.header.children
                        &&& k@ == self@.full_key(i)
                        &&& v@ == self@.items()[i].1
                    },
                    None => i == -1,
                }
            }),
    {
        let ghost keys = self@.keys();
        let ghost skip = left_out(self@, *bound);
        let search = match bound {
            // only the rightmost node is asked for its last item
            Bound::Unbounded => if self.is_empty() {
                Err(0)
            } else {
                Ok(self.len() - 1)
            },
            Bound::Included(b) => {
                proof {
                    lemma_search(keys, b@.skip(self@.header.prefix_len as int));
                }
                self.find(self.prefix_encode(b.as_slice()))
            },
            Bound::Excluded(b) => {
                // we use manual prefix encoding here because
                // `prefix_encode` wants the key to be
                // within the node,
                // and maybe `b` is above the node.
                let encoded = &b.as_slice()[self.header.prefix_len as usize..b.len()];
                assert(encoded@ =~= b@.skip(self@.header.prefix_len as int));
                proof {
                    lemma_search(keys, encoded@);
                }
                self.find(encoded)
            },
        };
        // one more than the place to start from
        let end: usize = match search {
            Ok(end) => end + 1,
            Err(end) => end,
        };
        let mut above = end;
        while above > 0
            invariant
                self@.wf(),
                predecessor_index(self@, *bound) >= 0 ==> self@.has_prefix(),
                keys == self@.keys(),
                skip == left_out(self@, *bound),
                above <= end <= self@.header.children,
                end - 1 == backward_start(self@, *bound),
                *bound matches Bound::Excluded(b) ==> b@.len() >= self@.header.prefix_len,
                last_kept(keys, skip, end - 1) == last_kept(keys, skip, above - 1),
            decreases above,
        {
            let idx = above - 1;
            let k = self.index_key(idx);
            let excluded = match bound {
                Bound::Excluded(b) => is_eq(
                    &b.as_slice()[self.header.prefix_len as usize..b.len()],
                    k,
                ),
                _ => false,
            };
            assert(excluded == (skip == Some(keys[idx as int]))) by {
                match *bound {
                    Bound::Excluded(b) => {
                        assert(b@.subrange(self@.header.prefix_len as int, b@.len() as int)
                            =~= b@.skip(self@.header.prefix_len as int));
                    },
                    _ => {},
                }
            }
            if !excluded {
                return Some((self.prefix_decode(k), to_vec(self.index_value(idx))));
            }
            // keep going because we wanted to exclude
            // this key.
            above = idx;
        }
        None
    }
}

} // verus!
