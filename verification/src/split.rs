//! Parting a node in two, and joining two nodes.

use vstd::prelude::*;
use crate::create::{buildable, built, item_views, lemma_built};
use crate::header::Header;
use crate::link::lemma_relabelled;
use crate::node::{Node, NodeView};
use crate::order::{common_prefix, lemma_common_prefix, shared_prefix};
use crate::prefix;
use crate::stitch::hi_bytes;
use crate::update::settled;

verus! {

/// Whether a bit of an activity sketch is set.
pub open spec fn sketched(sketch: u8, bit: nat) -> bool {
    (1u8 << (bit as u8)) & sketch != 0
}

/// How many of the lowest `n` bits of an activity sketch are set.
pub open spec fn sketch_count(sketch: u8, n: nat) -> nat
    decreases n,
{
    if n == 0 {
        0
    } else {
        sketch_count(sketch, (n - 1) as nat) + (if sketched(sketch, (n - 1) as nat) {
            1nat
        } else {
            0nat
        })
    }
}

/// The sum of the places of the bits that are set among the lowest `n`; the lowest
/// bit counts as place one.
pub open spec fn sketch_weight(sketch: u8, n: nat) -> nat
    decreases n,
{
    if n == 0 {
        0
    } else {
        sketch_weight(sketch, (n - 1) as nat) + (if sketched(sketch, (n - 1) as nat) {
            n
        } else {
            0nat
        })
    }
}

/// Where a node is parted: in the middle, or about where it was written to most.
pub open spec fn split_point(v: NodeView) -> int {
    let children = v.header.children as int;
    let count = sketch_count(v.header.activity_sketch, 8) as int;
    if count == 0 {
        children / 2
    } else {
        let point = sketch_weight(v.header.activity_sketch, 8) as int / count * children / 8;
        let capped = if point <= children - 1 {
            point
        } else {
            children - 1
        };
        if capped >= 1 {
            capped
        } else {
            1
        }
    }
}

/// The whole key at which a node is parted.
pub open spec fn split_key(v: NodeView) -> Seq<u8> {
    v.full_key(split_point(v))
}

/// How many bytes `a` and `b` share behind the first `from`, with no more than 255
/// in all.
pub open spec fn further_prefix(a: Seq<u8>, b: Seq<u8>, from: u8) -> int {
    let shared = common_prefix(a.skip(from as int), b.skip(from as int));
    if shared <= 255 - from {
        shared as int
    } else {
        255 - from
    }
}

/// What the keys of the left half leave out beyond the prefix of the whole.
pub open spec fn left_extra(v: NodeView) -> int {
    further_prefix(v.lo(), split_key(v), v.header.prefix_len)
}

/// What the keys of the right half leave out beyond the prefix of the whole.
pub open spec fn right_extra(v: NodeView) -> int {
    match v.hi() {
        Some(hi) => further_prefix(split_key(v), hi, v.header.prefix_len),
        None => 0,
    }
}

/// Items with `n` bytes taken off the front of their keys.
pub open spec fn trimmed(items: Seq<(Seq<u8>, Seq<u8>)>, n: int) -> Seq<(Seq<u8>, Seq<u8>)> {
    items.map_values(|p: (Seq<u8>, Seq<u8>)| (p.0.skip(n), p.1))
}

/// The items of the left half.
pub open spec fn left_items(v: NodeView) -> Seq<(Seq<u8>, Seq<u8>)> {
    trimmed(v.items().take(split_point(v)), left_extra(v))
}

/// The items of the right half.
pub open spec fn right_items(v: NodeView) -> Seq<(Seq<u8>, Seq<u8>)> {
    trimmed(v.items().skip(split_point(v)), right_extra(v))
}

/// Whether a node can be parted.
pub open spec fn splittable(v: NodeView) -> bool {
    &&& v.header.children >= 2
    &&& settled(v)
    &&& v.has_prefix()
    &&& v.hi() matches Some(hi) ==> v.header.prefix_len <= hi.len()
    &&& forall|i: int|
        0 <= i < split_point(v) ==> left_extra(v) <= (#[trigger] v.items()[i]).0.len()
    &&& forall|i: int|
        split_point(v) <= i < v.header.children ==> right_extra(v) <= (
        #[trigger] v.items()[i]).0.len()
    &&& buildable(v.lo().len(), split_key(v).len(), v.header.is_index, left_items(v))
    &&& buildable(split_key(v).len(), hi_bytes(v).len(), v.header.is_index, right_items(v))
}

/// The node with a count of its rewrites and of the updates before it may be merged.
pub open spec fn with_counts(v: NodeView, rewrite_generations: u8, probation: u8) -> NodeView {
    NodeView {
        header: Header {
            rewrite_generations,
            probation_ops_remaining: probation,
            ..v.header
        },
        ..v
    }
}

/// Whether `l` is the left half of `v`.
pub open spec fn is_left_half(v: NodeView, l: NodeView) -> bool {
    &&& l.header.rewrite_generations == v.header.rewrite_generations
    &&& l.header.probation_ops_remaining == 0
    &&& built(
        with_counts(l, 0, 0),
        v.lo(),
        split_key(v),
        (v.header.prefix_len + left_extra(v)) as u8,
        v.header.is_index,
        v.header.next,
        left_items(v),
    )
}

/// Whether `r` is the right half of `v`.
pub open spec fn is_right_half(v: NodeView, r: NodeView) -> bool {
    &&& r.header.rewrite_generations == v.header.rewrite_generations
    &&& r.header.probation_ops_remaining == if v.header.children / 2 <= 255 {
        v.header.children as int / 2
    } else {
        255
    }
    &&& built(
        with_counts(r, 0, 0),
        split_key(v),
        hi_bytes(v),
        (v.header.prefix_len + right_extra(v)) as u8,
        v.header.is_index,
        v.header.next,
        right_items(v),
    )
}

/// The shorter of the two prefixes.
pub open spec fn merged_prefix_len(l: NodeView, r: NodeView) -> u8 {
    if l.header.prefix_len <= r.header.prefix_len {
        l.header.prefix_len
    } else {
        r.header.prefix_len
    }
}

/// The items with the first `prefix_len` bytes of the whole keys left out.
pub open spec fn rekeyed(v: NodeView, prefix_len: u8) -> Seq<(Seq<u8>, Seq<u8>)> {
    if prefix_len == v.header.prefix_len {
        v.items()
    } else {
        v.items().map_values(
            |p: (Seq<u8>, Seq<u8>)| ((v.prefix() + p.0).skip(prefix_len as int), p.1),
        )
    }
}

/// The items of two nodes that are joined.
pub open spec fn merged_items(l: NodeView, r: NodeView) -> Seq<(Seq<u8>, Seq<u8>)> {
    rekeyed(l, merged_prefix_len(l, r)) + rekeyed(r, merged_prefix_len(l, r))
}

/// Whether `r` can be joined to its left neighbour `l`.
pub open spec fn mergeable(l: NodeView, r: NodeView) -> bool {
    &&& l.hi() == Some(r.lo())
    &&& l.header.is_index == r.header.is_index
    &&& settled(l)
    &&& l.header.prefix_len > r.header.prefix_len && l.header.children > 0 ==> l.has_prefix()
    &&& l.header.prefix_len < r.header.prefix_len && r.header.children > 0 ==> r.has_prefix()
    &&& buildable(l.lo().len(), hi_bytes(r).len(), l.header.is_index, merged_items(l, r))
}

/// Whether `m` is made of `l` and `r`.
pub open spec fn is_merged(l: NodeView, r: NodeView, m: NodeView) -> bool {
    &&& m.header.rewrite_generations == if l.header.rewrite_generations
        <= r.header.rewrite_generations {
        l.header.rewrite_generations
    } else {
        r.header.rewrite_generations
    }
    &&& m.header.probation_ops_remaining == 0
    &&& built(
        with_counts(m, 0, 0),
        l.lo(),
        hi_bytes(r),
        merged_prefix_len(l, r),
        l.header.is_index,
        r.header.next,
        merged_items(l, r),
    )
}

/// The places of the bits average between one and the number of bits.
proof fn lemma_sketch_weight(sketch: u8, n: nat)
    ensures
        sketch_count(sketch, n) <= sketch_weight(sketch, n) <= n * sketch_count(sketch, n),
        sketch_count(sketch, n) <= n,
    decreases n,
{
    if n > 0 {
        let m = (n - 1) as nat;
        lemma_sketch_weight(sketch, m);
        assert(m * sketch_count(sketch, m) + n <= n * (sketch_count(sketch, m) + 1))
            by (nonlinear_arith)
            requires
                m == n - 1,
        ;
        assert(m * sketch_count(sketch, m) <= n * sketch_count(sketch, m)) by (nonlinear_arith)
            requires
                m == n - 1,
        ;
    }
}

/// A node is parted so that neither half is empty.
pub proof fn lemma_split_point(v: NodeView)
    requires
        v.header.children >= 2,
    ensures
        1 <= split_point(v) < v.header.children,
{
}

/// The shared prefix lies within the bounds of both.
pub proof fn lemma_further_prefix(a: Seq<u8>, b: Seq<u8>, from: u8)
    requires
        from <= a.len(),
        from <= b.len(),
    ensures
        0 <= further_prefix(a, b, from) <= 255 - from,
        from + further_prefix(a, b, from) <= a.len(),
        from + further_prefix(a, b, from) <= b.len(),
{
    lemma_common_prefix(a.skip(from as int), b.skip(from as int));
}

/// What the halves hold.
pub proof fn lemma_halves(v: NodeView, l: NodeView, r: NodeView)
    requires
        v.wf(),
        splittable(v),
        is_left_half(v, l),
        is_right_half(v, r),
    ensures
        l.wf(),
        l.items() == left_items(v),
        l.lo() == v.lo(),
        l.hi() == (if split_key(v).len() == 0 {
            None
        } else {
            Some(split_key(v))
        }),
        r.wf(),
        r.items() == right_items(v),
        r.lo() == split_key(v),
        r.hi() == v.hi(),
{
    lemma_built(
        with_counts(l, 0, 0),
        v.lo(),
        split_key(v),
        (v.header.prefix_len + left_extra(v)) as u8,
        v.header.is_index,
        v.header.next,
        left_items(v),
    );
    lemma_relabelled(with_counts(l, 0, 0), l);
    lemma_built(
        with_counts(r, 0, 0),
        split_key(v),
        hi_bytes(v),
        (v.header.prefix_len + right_extra(v)) as u8,
        v.header.is_index,
        v.header.next,
        right_items(v),
    );
    lemma_relabelled(with_counts(r, 0, 0), r);
}

/// What a joined node holds.
pub proof fn lemma_merged(l: NodeView, r: NodeView, m: NodeView)
    requires
        l.wf(),
        r.wf(),
        mergeable(l, r),
        is_merged(l, r, m),
    ensures
        m.wf(),
        m.items() == merged_items(l, r),
        m.lo() == l.lo(),
        m.hi() == r.hi(),
{
    lemma_built(
        with_counts(m, 0, 0),
        l.lo(),
        hi_bytes(r),
        merged_prefix_len(l, r),
        l.header.is_index,
        r.header.next,
        merged_items(l, r),
    );
    lemma_relabelled(with_counts(m, 0, 0), m);
}

impl Node {
    /// The place at which the node is best parted.
    pub fn weighted_split_point(&self) -> (r: usize)
        requires
            self@.header.activity_sketch != 0 ==> self@.header.children > 0,
        ensures
            r == split_point(self@),
    {
        let sketch = self.header.activity_sketch;
        let children = self.len();
        let mut bits_set: usize = 0;
        let mut weighted_count: usize = 0;
        let mut bit: u8 = 0;
        while bit < 8
            invariant
                bit <= 8,
                bits_set == sketch_count(sketch, bit as nat),
                weighted_count == sketch_weight(sketch, bit as nat),
                bits_set <= bit,
                weighted_count <= 8 * bit,
            decreases 8 - bit,
        {
            if (1u8 << bit) & sketch != 0 {
                bits_set = bits_set + 1;
                weighted_count = weighted_count + bit as usize + 1;
            }
            bit = bit + 1;
        }
        if bits_set == 0 {
            // this shouldn't happen often, but it could happen if all the updates
            // since the last split were removals, which leave no trace in the
            // activity sketch.
            return children / 2;
        }
        proof {
            lemma_no_activity(sketch);
            lemma_sketch_weight(sketch, 8);
        }
        let average_bit: usize = weighted_count / bits_set;
        assert(0 <= average_bit <= 8) by (nonlinear_arith)
            requires
                average_bit == weighted_count / bits_set,
                weighted_count <= 8 * bits_set,
                0 < bits_set,
        ;
        assert(average_bit * children <= 8 * children) by (nonlinear_arith)
            requires
                average_bit <= 8,
        ;
        let point: usize = average_bit * children / 8;
        let capped: usize = if point <= children - 1 {
            point
        } else {
            children - 1
        };
        if capped >= 1 {
            capped
        } else {
            1
        }
    }

    /// Items `from` to `to` with `cut` bytes taken off the front of their keys.
    fn trimmed_items(&self, from: usize, to: usize, cut: usize) -> (r: Vec<(&[u8], &[u8])>)
        requires
            self@.wf(),
            from <= to <= self@.header.children,
            forall|i: int| from <= i < to ==> cut <= (#[trigger] self@.items()[i]).0.len(),
        ensures
            item_views(r@) == trimmed(
                self@.items().subrange(from as int, to as int),
                cut as int,
            ),
    {
        let mut r: Vec<(&[u8], &[u8])> = Vec::with_capacity(to - from);
        let mut i: usize = from;
        while i < to
            invariant
                self@.wf(),
                from <= i <= to <= self@.header.children,
                forall|i: int| from <= i < to ==> cut <= (#[trigger] self@.items()[i]).0.len(),
                item_views(r@) == trimmed(
                    self@.items().subrange(from as int, i as int),
                    cut as int,
                ),
            decreases to - i,
        {
            let k = self.index_key(i);
            assert(self@.items()[i as int].0 == k@);
            let ghost before = r@;
            r.push((&k[cut..k.len()], self.index_value(i)));
            proof {
                assert(r@[r@.len() - 1].0@ =~= k@.skip(cut as int));
                assert(self@.items().subrange(from as int, i + 1) =~= self@.items().subrange(
                    from as int,
                    i as int,
                ).push(self@.items()[i as int]));
                assert(item_views(r@) =~= item_views(before).push(
                    (k@.skip(cut as int), self@.items()[i as int].1),
                ));
                assert(item_views(r@) =~= trimmed(
                    self@.items().subrange(from as int, i + 1),
                    cut as int,
                ));
            }
            i = i + 1;
        }
        r
    }

    /// The two halves of the node.
    #[verifier::rlimit(40)]
    pub fn split(&self) -> (r: (Node, Node))
        requires
            self@.wf(),
            splittable(self@),
        ensures
            is_left_half(self@, r.0@),
            is_right_half(self@, r.1@),
            r.0@.wf(),
            r.0@.items() == left_items(self@),
            r.0@.lo() == self@.lo(),
            r.0@.hi() == (if split_key(self@).len() == 0 {
                None
            } else {
                Some(split_key(self@))
            }),
            r.1@.wf(),
            r.1@.items() == right_items(self@),
            r.1@.lo() == split_key(self@),
            r.1@.hi() == self@.hi(),
    {
        proof {
            lemma_split_point(self@);
        }
        let split_point = self.weighted_split_point();
        let untruncated_split_key = self.index_key(split_point);
        let split_key = self.prefix_decode(untruncated_split_key);
        let prefix_len = self.header.prefix_len as usize;
        let limit = 255 - prefix_len;
        proof {
            lemma_further_prefix(self@.lo(), split_key@, self@.header.prefix_len);
            if let Some(hi) = self@.hi() {
                lemma_further_prefix(split_key@, hi, self@.header.prefix_len);
            }
        }

        // prefix encoded length can only grow or stay the same
        let lo = self.lo();
        let lo_rest = &lo[prefix_len..lo.len()];
        assert(lo_rest@ =~= lo@.skip(prefix_len as int));
        let split_rest = &split_key.as_slice()[prefix_len..split_key.len()];
        assert(split_rest@ =~= split_key@.skip(prefix_len as int));
        let additional_left_prefix = shared_prefix(lo_rest, split_rest, limit);
        let additional_right_prefix: usize = match self.hi() {
            Some(hi) => {
                let hi_rest = &hi[prefix_len..hi.len()];
                assert(hi_rest@ =~= hi@.skip(prefix_len as int));
                shared_prefix(split_rest, hi_rest, limit)
            },
            None => 0,
        };

        let left_items = self.trimmed_items(0, split_point, additional_left_prefix);
        let right_items = self.trimmed_items(split_point, self.len(), additional_right_prefix);
        proof {
            assert(self@.items().subrange(0, split_point as int) =~= self@.items().take(
                split_point as int,
            ));
            assert(self@.items().subrange(split_point as int, self@.items().len() as int)
                =~= self@.items().skip(split_point as int));
        }

        let mut left = Node::new(
            self.lo(),
            Some(split_key.as_slice()),
            self.header.prefix_len + additional_left_prefix as u8,
            self.header.is_index,
            self.header.next,
            left_items.as_slice(),
        );
        let ghost built_left = left@;
        left.header.rewrite_generations = self.header.rewrite_generations;

        let mut right = Node::new(
            split_key.as_slice(),
            self.hi(),
            self.header.prefix_len + additional_right_prefix as u8,
            self.header.is_index,
            self.header.next,
            right_items.as_slice(),
        );
        let ghost built_right = right@;
        right.header.rewrite_generations = self.header.rewrite_generations;
        let half = self.len() / 2;
        right.header.probation_ops_remaining = if half <= 255 {
            half as u8
        } else {
            255
        };
        proof {
            assert(with_counts(left@, 0, 0) == built_left);
            assert(with_counts(right@, 0, 0) == built_right);
            lemma_halves(self@, left@, right@);
        }
        (left, right)
    }

    /// The keys with the first `prefix_len` bytes of the whole keys left out.
    fn reencoded_keys(&self, prefix_len: u8) -> (r: Vec<Vec<u8>>)
        requires
            self@.wf(),
            self@.header.children > 0 ==> self@.has_prefix(),
            prefix_len < self@.header.prefix_len,
        ensures
            r@.len() == self@.header.children,
            forall|i: int|
                0 <= i < r@.len() ==> (#[trigger] r@[i])@ == rekeyed(self@, prefix_len)[i].0,
    {
        let mut r: Vec<Vec<u8>> = Vec::with_capacity(self.len());
        let mut i: usize = 0;
        while i < self.len()
            invariant
                self@.wf(),
                self@.header.children > 0 ==> self@.has_prefix(),
                prefix_len < self@.header.prefix_len,
                i <= self@.header.children,
                r@.len() == i,
                forall|j: int|
                    0 <= j < i ==> (#[trigger] r@[j])@ == rekeyed(self@, prefix_len)[j].0,
            decreases self@.header.children - i,
        {
            let k = self.index_key(i);
            assert(self@.items()[i as int].0 == k@);
            r.push(prefix::reencode(self.prefix(), k, prefix_len as usize));
            i = i + 1;
        }
        r
    }

    /// The node with its right neighbour joined to it.
    pub fn receive_merge(&self, other: &Node) -> (ret: Node)
        requires
            self@.wf(),
            other@.wf(),
            mergeable(self@, other@),
        ensures
            is_merged(self@, other@, ret@),
            ret@.wf(),
            ret@.items() == merged_items(self@, other@),
            ret@.lo() == self@.lo(),
            ret@.hi() == other@.hi(),
    {
        let prefix_len = if self.header.prefix_len <= other.header.prefix_len {
            self.header.prefix_len
        } else {
            other.header.prefix_len
        };
        let extended_left: Vec<Vec<u8>> = if prefix_len < self.header.prefix_len {
            self.reencoded_keys(prefix_len)
        } else {
            Vec::new()
        };
        let extended_right: Vec<Vec<u8>> = if prefix_len < other.header.prefix_len {
            other.reencoded_keys(prefix_len)
        } else {
            Vec::new()
        };
        let mut items: Vec<(&[u8], &[u8])> = Vec::new();
        self.push_rekeyed(prefix_len, &extended_left, &mut items);
        other.push_rekeyed(prefix_len, &extended_right, &mut items);
        assert(item_views(items@) =~= merged_items(self@, other@));

        let mut ret = Node::new(
            self.lo(),
            other.hi(),
            prefix_len,
            self.header.is_index,
            other.header.next,
            items.as_slice(),
        );
        let ghost built_ret = ret@;
        ret.header.rewrite_generations = if self.header.rewrite_generations
            <= other.header.rewrite_generations {
            self.header.rewrite_generations
        } else {
            other.header.rewrite_generations
        };
        proof {
            assert(with_counts(ret@, 0, 0) == built_ret);
            lemma_merged(self@, other@, ret@);
        }
        ret
    }

    /// Adds the items, with the given keys where those of the node leave out more
    /// than the first `prefix_len` bytes.
    fn push_rekeyed<'a>(
        &'a self,
        prefix_len: u8,
        extended: &'a Vec<Vec<u8>>,
        items: &mut Vec<(&'a [u8], &'a [u8])>,
    )
        requires
            self@.wf(),
            prefix_len <= self@.header.prefix_len,
            prefix_len < self@.header.prefix_len ==> {
                &&& extended@.len() == self@.header.children
                &&& forall|i: int|
                    0 <= i < extended@.len() ==> (#[trigger] extended@[i])@ == rekeyed(
                        self@,
                        prefix_len,
                    )[i].0
            },
        ensures
            item_views(final(items)@) == item_views(old(items)@) + rekeyed(self@, prefix_len),
    {
        let ghost front = items@;
        let ghost want = rekeyed(self@, prefix_len);
        let mut i: usize = 0;
        assert(item_views(items@) =~= item_views(front) + want.take(0));
        while i < self.len()
            invariant
                self@.wf(),
                i <= self@.header.children,
                prefix_len <= self@.header.prefix_len,
                prefix_len < self@.header.prefix_len ==> {
                    &&& extended@.len() == self@.header.children
                    &&& forall|i: int|
                        0 <= i < extended@.len() ==> (#[trigger] extended@[i])@ == rekeyed(
                            self@,
                            prefix_len,
                        )[i].0
                },
                want == rekeyed(self@, prefix_len),
                item_views(items@) == item_views(front) + want.take(i as int),
            decreases self@.header.children - i,
        {
            let ghost before = items@;
            let k: &'a [u8] = if prefix_len < self.header.prefix_len {
                extended[i].as_slice()
            } else {
                self.index_key(i)
            };
            let v: &'a [u8] = self.index_value(i);
            items.push((k, v));
            proof {
                assert(want[i as int] == (k@, v@)) by {
                    assert(self@.items()[i as int].1 == v@);
                }
                assert(item_views(items@) =~= item_views(before).push((k@, v@)));
                assert(want.take(i + 1) =~= want.take(i as int).push(want[i as int]));
                assert(item_views(items@) =~= item_views(front) + want.take(i + 1));
            }
            i = i + 1;
        }
        assert(want.take(i as int) =~= want);
    }
}

/// An activity sketch with no bit set is zero.
proof fn lemma_no_activity(sketch: u8)
    requires
        sketch_count(sketch, 8) > 0,
    ensures
        sketch != 0,
{
    if sketch == 0 {
        reveal_with_fuel(sketch_count, 9);
        assert(forall|b: u8| #[trigger] ((1u8 << b) & 0u8) == 0) by (bit_vector);
    }
}

} // verus!
