//! The activity sketch, and where it has nodes parted.

use vstd::prelude::*;
use crate::node::NodeView;
use crate::split::{sketch_count, sketch_weight, sketched, split_point};
use crate::stitch::{new_sketch, sketch_bit};

verus! {

/// Bit `b` of a byte, as a number.
pub open spec fn bit(s: u8, b: int) -> int {
    s as int / (if b == 0 {
        1int
    } else if b == 1 {
        2
    } else if b == 2 {
        4
    } else if b == 3 {
        8
    } else if b == 4 {
        16
    } else if b == 5 {
        32
    } else if b == 6 {
        64
    } else {
        128
    }) % 2
}

/// How many bits are set.
pub open spec fn bits_set(s: u8) -> int {
    bit(s, 0) + bit(s, 1) + bit(s, 2) + bit(s, 3) + bit(s, 4) + bit(s, 5) + bit(s, 6) + bit(s, 7)
}

/// The sum of the places of the bits that are set, counted from one.
pub open spec fn places_set(s: u8) -> int {
    bit(s, 0) + 2 * bit(s, 1) + 3 * bit(s, 2) + 4 * bit(s, 3) + 5 * bit(s, 4) + 6 * bit(s, 5) + 7
        * bit(s, 6) + 8 * bit(s, 7)
}

proof fn lemma_bits(s: u8)
    ensures
        forall|b: nat| b < 8 ==> (#[trigger] sketched(s, b) <==> bit(s, b as int) == 1),
        forall|b: int| 0 <= b < 8 ==> 0 <= #[trigger] bit(s, b) <= 1,
{
    assert(((1u8 << 0u8) & s != 0) == (s / 1 % 2 == 1) && ((1u8 << 1u8) & s != 0) == (s / 2 % 2
        == 1) && ((1u8 << 2u8) & s != 0) == (s / 4 % 2 == 1) && ((1u8 << 3u8) & s != 0) == (s / 8
        % 2 == 1) && ((1u8 << 4u8) & s != 0) == (s / 16 % 2 == 1) && ((1u8 << 5u8) & s != 0) == (s
        / 32 % 2 == 1) && ((1u8 << 6u8) & s != 0) == (s / 64 % 2 == 1) && ((1u8 << 7u8) & s != 0)
        == (s / 128 % 2 == 1)) by (bit_vector);
    assert forall|b: nat| b < 8 implies (#[trigger] sketched(s, b) <==> bit(s, b as int) == 1) by {
        assert(b == 0 || b == 1 || b == 2 || b == 3 || b == 4 || b == 5 || b == 6 || b == 7);
    }
}

proof fn lemma_sums(s: u8)
    ensures
        sketch_count(s, 8) == bits_set(s),
        sketch_weight(s, 8) == places_set(s),
{
    lemma_bits(s);
    reveal_with_fuel(sketch_count, 9);
    reveal_with_fuel(sketch_weight, 9);
    assert(sketched(s, 0) <==> bit(s, 0) == 1);
    assert(sketched(s, 1) <==> bit(s, 1) == 1);
    assert(sketched(s, 2) <==> bit(s, 2) == 1);
    assert(sketched(s, 3) <==> bit(s, 3) == 1);
    assert(sketched(s, 4) <==> bit(s, 4) == 1);
    assert(sketched(s, 5) <==> bit(s, 5) == 1);
    assert(sketched(s, 6) <==> bit(s, 6) == 1);
    assert(sketched(s, 7) <==> bit(s, 7) == 1);
}

/// A node without activity is parted in the middle.
pub proof fn quiet_nodes_are_halved(v: NodeView)
    requires
        v.header.activity_sketch == 0,
    ensures
        2 * split_point(v) <= v.header.children < 2 * split_point(v) + 2,
{
    lemma_sums(0);
}

/// A node with activity is parted as many eighths of its items from its start as the
/// average place of the bits that are set says, rounded down, and at an end only so that
/// neither half is empty.
pub proof fn nodes_are_parted_at_the_average_place(v: NodeView)
    requires
        v.header.children >= 2,
        v.header.activity_sketch != 0,
    ensures
        ({
            let s = v.header.activity_sketch;
            let n = v.header.children as int;
            let average = places_set(s) / bits_set(s);
            let at = split_point(v);
            &&& bits_set(s) >= 1
            &&& 1 <= at <= n - 1
            &&& at < n - 1 ==> average * n < 8 * (at + 1)
            &&& at > 1 ==> 8 * at <= average * n
        }),
{
    let s = v.header.activity_sketch;
    lemma_bits(s);
    lemma_sums(s);
    assert(bits_set(s) >= 1) by {
        assert(s as int == bit(s, 0) + 2 * bit(s, 1) + 4 * bit(s, 2) + 8 * bit(s, 3) + 16 * bit(
            s,
            4,
        ) + 32 * bit(s, 5) + 64 * bit(s, 6) + 128 * bit(s, 7)) by {
            lemma_byte_of_bits(s);
        }
    }
}

proof fn lemma_byte_of_bits(s: u8)
    ensures
        s as int == bit(s, 0) + 2 * bit(s, 1) + 4 * bit(s, 2) + 8 * bit(s, 3) + 16 * bit(s, 4) + 32
            * bit(s, 5) + 64 * bit(s, 6) + 128 * bit(s, 7),
{
    assert(s == s / 1 % 2 + 2 * (s / 2 % 2) + 4 * (s / 4 % 2) + 8 * (s / 8 % 2) + 16 * (s / 16 % 2)
        + 32 * (s / 32 % 2) + 64 * (s / 64 % 2) + 128 * (s / 128 % 2)) by (bit_vector);
}

/// Where all activity was in one eighth of a node, the node is parted at the end of that
/// eighth.
pub proof fn one_active_eighth(v: NodeView, b: int)
    requires
        v.header.children >= 2,
        0 <= b < 8,
        forall|c: int| 0 <= c < 8 ==> #[trigger] bit(v.header.activity_sketch, c) == if c == b {
            1int
        } else {
            0
        },
    ensures
        ({
            let n = v.header.children as int;
            let end = (b + 1) * n / 8;
            split_point(v) == if end > n - 1 {
                n - 1
            } else if end < 1 {
                1
            } else {
                end
            }
        }),
        b == 7 ==> split_point(v) == v.header.children - 1,
        b == 0 && v.header.children >= 8 ==> split_point(v) == v.header.children / 8,
{
    let s = v.header.activity_sketch;
    lemma_sums(s);
    assert(bit(s, b) == 1);
    assert(bits_set(s) == 1 && places_set(s) == b + 1) by {
        assert(bit(s, 0) == if b == 0 { 1int } else { 0 });
        assert(bit(s, 1) == if b == 1 { 1int } else { 0 });
        assert(bit(s, 2) == if b == 2 { 1int } else { 0 });
        assert(bit(s, 3) == if b == 3 { 1int } else { 0 });
        assert(bit(s, 4) == if b == 4 { 1int } else { 0 });
        assert(bit(s, 5) == if b == 5 { 1int } else { 0 });
        assert(bit(s, 6) == if b == 6 { 1int } else { 0 });
        assert(bit(s, 7) == if b == 7 { 1int } else { 0 });
    }
    assert((b + 1) / 1 == b + 1);
    if b == 7 {
        assert(8 * v.header.children / 8 == v.header.children);
    }
}

/// The further to the end the activity was on average, the further to the end a node is
/// parted.
pub proof fn the_split_follows_the_activity(v: NodeView, w: NodeView)
    requires
        v.header.children >= 2,
        w.header.children == v.header.children,
        v.header.activity_sketch != 0,
        w.header.activity_sketch != 0,
        places_set(v.header.activity_sketch) / bits_set(v.header.activity_sketch) <= places_set(
            w.header.activity_sketch,
        ) / bits_set(w.header.activity_sketch),
    ensures
        split_point(v) <= split_point(w),
{
    nodes_are_parted_at_the_average_place(v);
    nodes_are_parted_at_the_average_place(w);
    let n = v.header.children as int;
    let a = places_set(v.header.activity_sketch) / bits_set(v.header.activity_sketch);
    let b = places_set(w.header.activity_sketch) / bits_set(w.header.activity_sketch);
    assert(a * n <= b * n) by (nonlinear_arith)
        requires
            a <= b,
            0 <= n,
    ;
}

/// Where a node is parted rests on its items and its activity alone.
pub proof fn split_points_rest_on_little(v: NodeView, w: NodeView)
    requires
        w.header.children == v.header.children,
        w.header.activity_sketch == v.header.activity_sketch,
    ensures
        split_point(w) == split_point(v),
{
}

/// An insertion that has a node laid out anew marks the eighth of the node that it falls
/// into, the last one where it is at the end, and keeps all other marks.
pub proof fn insertions_are_sketched(v: NodeView, index: int, children: nat, b: int)
    requires
        0 <= index <= v.header.children,
        v.header.children > 0,
        children > 1,
        0 <= b < 8,
    ensures
        ({
            let n = v.header.children as int;
            let here = if index == n {
                b == 7
            } else {
                b * n <= 8 * index < (b + 1) * n
            };
            bit(new_sketch(v, index, children), b) == if here {
                1
            } else {
                bit(v.header.activity_sketch, b)
            }
        }),
{
    let n = v.header.children as int;
    let s = v.header.activity_sketch;
    let k = sketch_bit(index, n);
    if index < n {
        assert(0 <= (index * 8) / n <= 7 && (index * 8) / n * n <= 8 * index < ((index * 8) / n + 1)
            * n) by (nonlinear_arith)
            requires
                0 <= index < n,
        ;
        assert(b != k ==> !(b * n <= 8 * index < (b + 1) * n)) by (nonlinear_arith)
            requires
                k * n <= 8 * index < (k + 1) * n,
                0 < n,
        ;
    }
    lemma_marked(s, k as u8, b as u8);
    lemma_bits(s);
    lemma_bits(new_sketch(v, index, children));
    assert(sketched(s, b as nat) <==> bit(s, b) == 1);
    assert(sketched(new_sketch(v, index, children), b as nat) <==> bit(
        new_sketch(v, index, children),
        b,
    ) == 1);
    assert(0 <= bit(s, b) <= 1);
    assert(0 <= bit(new_sketch(v, index, children), b) <= 1);
}

proof fn lemma_marked(s: u8, k: u8, b: u8)
    requires
        k < 8,
        b < 8,
    ensures
        ((1u8 << b) & ((1u8 << k) | s) != 0) <==> b == k || (1u8 << b) & s != 0,
{
    assert(((1u8 << b) & ((1u8 << k) | s) != 0) <==> b == k || (1u8 << b) & s != 0) by (bit_vector)
        requires
            k < 8,
            b < 8,
    ;
}

} // verus!
