//! Splits and merges.

use vstd::prelude::*;
use crate::contents::{lemma_full_key_parts, lemma_full_keys_sorted, lemma_get_finds, lemma_get_found};
use crate::node::NodeView;
use crate::order::{common_prefix, lemma_between_shares_prefix, lemma_common_prefix, lemma_lex_le_lt, lemma_lex_lt_le, lemma_lex_same_prefix, lemma_lex_total, lemma_lex_transitive, lex_le, lex_lt};
use crate::policy::underfull;
use crate::search::sorted;
use crate::split::{further_prefix, is_left_half, is_merged, is_right_half, left_extra, lemma_further_prefix, lemma_halves, lemma_merged, lemma_split_point, merged_items, merged_prefix_len, mergeable, rekeyed, right_extra, split_key, split_point, splittable, trimmed};
use crate::update::settled;

verus! {

/// Where the whole keys are sorted, so are the stored ones.
proof fn lemma_sorted_from_full(v: NodeView)
    requires
        forall|i: int, j: int|
            #![trigger v.full_key(i), v.full_key(j)]
            0 <= i < j < v.header.children ==> lex_lt(v.full_key(i), v.full_key(j)),
    ensures
        sorted(v.keys()),
{
    let keys = v.keys();
    assert forall|i: int, j: int| #![trigger keys[i], keys[j]] 0 <= i < j < keys.len() implies lex_lt(
        keys[i],
        keys[j],
    ) by {
        assert(lex_lt(v.full_key(i), v.full_key(j)));
        lemma_lex_same_prefix(v.prefix(), keys[i], keys[j]);
    }
}

/// A run of entries under narrower bounds, with more left out of the stored keys.
proof fn lemma_part(v: NodeView, h: NodeView, from: int, to: int, extra: int)
    requires
        v.orderly(),
        h.wf(),
        h.has_prefix(),
        0 <= from <= to <= v.header.children,
        0 <= extra,
        h.items() == trimmed(v.items().subrange(from, to), extra),
        h.header.prefix_len == v.header.prefix_len + extra,
        forall|i: int| from <= i < to ==> h.in_bounds(#[trigger] v.full_key(i)),
        forall|i: int|
            from <= i < to ==> h.header.prefix_len <= (#[trigger] v.full_key(i)).len()
                && v.full_key(i).take(h.header.prefix_len as int) == h.prefix(),
    ensures
        h.orderly(),
        h.entries() == v.entries().subrange(from, to),
{
    let p = v.header.prefix_len as int;
    let hp = h.header.prefix_len as int;
    assert forall|i: int| 0 <= i < to - from implies #[trigger] h.full_key(i) == v.full_key(
        from + i,
    ) by {
        let key = v.full_key(from + i);
        lemma_full_key_parts(v, from + i);
        assert(h.keys()[i] == h.items()[i].0);
        assert(h.items()[i].0 == v.items()[from + i].0.skip(extra));
        assert(v.keys()[from + i] == v.items()[from + i].0);
        assert(key.skip(hp) =~= key.skip(p).skip(extra));
        assert(h.full_key(i) =~= key.take(hp) + key.skip(hp));
        assert(key =~= key.take(hp) + key.skip(hp));
    }
    assert forall|i: int, j: int|
        #![trigger h.full_key(i), h.full_key(j)]
        0 <= i < j < h.header.children implies lex_lt(h.full_key(i), h.full_key(j)) by {
        lemma_full_keys_sorted(v, from + i, from + j);
    }
    lemma_sorted_from_full(h);
    assert forall|i: int| 0 <= i < h.header.children implies h.in_bounds(
        #[trigger] h.full_key(i),
    ) by {
        assert(h.in_bounds(v.full_key(from + i)));
    }
    assert(h.entries() =~= v.entries().subrange(from, to));
}

/// How much of `n` bytes a node can leave out of its keys: its header counts up to 255.
pub open spec fn capped_prefix(n: nat) -> int {
    if n <= 255 {
        n as int
    } else {
        255
    }
}

/// What strings share behind a prefix, they share with it.
proof fn lemma_further_shared(a: Seq<u8>, b: Seq<u8>, from: u8)
    requires
        from <= a.len(),
        from <= b.len(),
        a.take(from as int) == b.take(from as int),
    ensures
        from + further_prefix(a, b, from) <= common_prefix(a, b),
        from + further_prefix(a, b, from) == capped_prefix(common_prefix(a, b)),
{
    let n = from as int;
    lemma_lex_same_prefix(a.take(n), a.skip(n), b.skip(n));
    assert(a.take(n) + a.skip(n) =~= a);
    assert(a.take(n) + b.skip(n) =~= b);
}

/// The key at which a node is parted lies strictly between its bounds, and the two
/// halves take the keys below it and the others.
pub proof fn lemma_split_key_between(v: NodeView)
    requires
        v.orderly(),
        v.header.children >= 2,
    ensures
        1 <= split_point(v) < v.header.children,
        v.in_bounds(split_key(v)),
        lex_lt(v.lo(), split_key(v)),
        split_key(v).len() > 0,
        forall|i: int|
            0 <= i < split_point(v) ==> lex_lt(#[trigger] v.full_key(i), split_key(v)),
        forall|i: int|
            split_point(v) <= i < v.header.children ==> lex_le(
                split_key(v),
                #[trigger] v.full_key(i),
            ),
{
    lemma_split_point(v);
    let at = split_point(v);
    assert(v.in_bounds(v.full_key(at)));
    assert(v.in_bounds(v.full_key(0)));
    lemma_full_keys_sorted(v, 0, at);
    lemma_lex_le_lt(v.lo(), v.full_key(0), v.full_key(at));
    lemma_common_prefix(v.lo(), split_key(v));
    assert forall|i: int| 0 <= i < at implies lex_lt(#[trigger] v.full_key(i), split_key(v)) by {
        lemma_full_keys_sorted(v, i, at);
    }
    assert forall|i: int| at <= i < v.header.children implies lex_le(
        split_key(v),
        #[trigger] v.full_key(i),
    ) by {
        if i > at {
            lemma_full_keys_sorted(v, at, i);
        }
    }
}

/// Whether the keys of the right half share what it leaves out of them.
pub open spec fn right_keys_agree(v: NodeView) -> bool {
    forall|i: int|
        split_point(v) <= i < v.header.children ==> (#[trigger] v.items()[i]).0.take(
            right_extra(v),
        ) == v.items()[split_point(v)].0.take(right_extra(v))
}

/// Whether the prefix is one of both bounds, where there are two.
pub open spec fn prefix_is_shared(v: NodeView) -> bool {
    v.hi() matches Some(hi) ==> v.header.prefix_len <= common_prefix(v.lo(), hi)
}

/// The left half leaves out what its bounds share.
proof fn lemma_left_extra(v: NodeView)
    requires
        v.orderly(),
        v.header.children >= 2,
    ensures
        0 <= left_extra(v) <= 255 - v.header.prefix_len,
        v.header.prefix_len + left_extra(v) <= common_prefix(v.lo(), split_key(v)),
        v.header.prefix_len + left_extra(v) == capped_prefix(
            common_prefix(v.lo(), split_key(v)),
        ),
{
    lemma_split_key_between(v);
    lemma_full_key_parts(v, split_point(v));
    assert(v.lo().len() == v.header.lo_len);
    lemma_further_prefix(v.lo(), split_key(v), v.header.prefix_len);
    lemma_further_shared(v.lo(), split_key(v), v.header.prefix_len);
}

/// The right half leaves out what its bounds share, where the whole does.
proof fn lemma_right_extra(v: NodeView)
    requires
        v.orderly(),
        v.header.children >= 2,
        prefix_is_shared(v),
    ensures
        0 <= right_extra(v) <= 255 - v.header.prefix_len,
        v.hi() matches Some(hi) ==> {
            &&& v.header.prefix_len <= hi.len()
            &&& v.header.prefix_len + right_extra(v) <= common_prefix(split_key(v), hi)
            &&& v.header.prefix_len + right_extra(v) == capped_prefix(
                common_prefix(split_key(v), hi),
            )
        },
{
    let p = v.header.prefix_len;
    lemma_split_key_between(v);
    lemma_full_key_parts(v, split_point(v));
    if let Some(hi) = v.hi() {
        lemma_common_prefix(v.lo(), hi);
        lemma_between_shares_prefix(v.lo(), split_key(v), hi, p as int);
        lemma_further_prefix(split_key(v), hi, p);
        lemma_further_shared(split_key(v), hi, p);
    }
}

/// A key between two bounds is as long as what they share behind its prefix.
proof fn lemma_key_long_enough(v: NodeView, i: int, a: Seq<u8>, b: Seq<u8>, extra: int)
    requires
        v.orderly(),
        0 <= i < v.header.children,
        lex_le(a, v.full_key(i)),
        lex_lt(v.full_key(i), b),
        0 <= extra,
        v.header.prefix_len + extra <= common_prefix(a, b),
    ensures
        extra <= v.items()[i].0.len(),
        v.header.prefix_len + extra <= v.full_key(i).len(),
        v.full_key(i).take(v.header.prefix_len + extra) == a.take(v.header.prefix_len + extra),
{
    lemma_full_key_parts(v, i);
    lemma_between_shares_prefix(a, v.full_key(i), b, v.header.prefix_len + extra);
    assert(v.keys()[i] == v.items()[i].0);
}

/// The keys are long enough for what the halves leave out, and those of the right half
/// share it, where the bounds of the whole share its prefix.
pub proof fn lemma_extras_fit(v: NodeView)
    requires
        v.orderly(),
        v.header.children >= 2,
        prefix_is_shared(v),
    ensures
        0 <= left_extra(v),
        0 <= right_extra(v),
        v.hi() matches Some(hi) ==> v.header.prefix_len <= hi.len(),
        forall|i: int|
            0 <= i < split_point(v) ==> left_extra(v) <= (#[trigger] v.items()[i]).0.len(),
        forall|i: int|
            split_point(v) <= i < v.header.children ==> right_extra(v) <= (
            #[trigger] v.items()[i]).0.len(),
{
    lemma_split_key_between(v);
    lemma_left_extra(v);
    lemma_right_extra(v);
    assert forall|i: int| 0 <= i < split_point(v) implies left_extra(v) <= (
    #[trigger] v.items()[i]).0.len() by {
        assert(v.in_bounds(v.full_key(i)));
        lemma_key_long_enough(v, i, v.lo(), split_key(v), left_extra(v));
    }
    assert forall|i: int| split_point(v) <= i < v.header.children implies right_extra(v) <= (
    #[trigger] v.items()[i]).0.len() by {
        assert(v.in_bounds(v.full_key(i)));
        if let Some(hi) = v.hi() {
            lemma_key_long_enough(v, i, split_key(v), hi, right_extra(v));
        }
    }
}

/// Where the bounds of a node share its prefix, the keys of its right half share what
/// that half leaves out. In a node without a high key they always do.
pub proof fn shared_prefixes_agree(v: NodeView)
    requires
        v.orderly(),
        v.header.children >= 2,
        prefix_is_shared(v),
    ensures
        right_keys_agree(v),
{
    let p = v.header.prefix_len as int;
    let e = right_extra(v);
    let at = split_point(v);
    lemma_split_key_between(v);
    lemma_right_extra(v);
    assert forall|i: int| at <= i < v.header.children implies (#[trigger] v.items()[i]).0.take(e)
        == v.items()[at].0.take(e) by {
        if let Some(hi) = v.hi() {
            assert(v.in_bounds(v.full_key(i)));
            lemma_key_long_enough(v, i, split_key(v), hi, e);
            lemma_full_key_parts(v, i);
            lemma_full_key_parts(v, at);
            lemma_key_long_enough(v, at, split_key(v), hi, e);
            assert(v.keys()[i] == v.items()[i].0);
            assert(v.keys()[at] == v.items()[at].0);
            assert(v.items()[i].0.take(e) =~= v.full_key(i).take(p + e).skip(p));
            assert(v.items()[at].0.take(e) =~= split_key(v).take(p + e).skip(p));
        } else {
            assert(v.items()[i].0.take(0) =~= v.items()[at].0.take(0));
        }
    }
}

/// The left half is a consistent node with the entries below the split key.
proof fn lemma_left_half(v: NodeView, l: NodeView, r: NodeView)
    requires
        v.orderly(),
        splittable(v),
        is_left_half(v, l),
        is_right_half(v, r),
    ensures
        l.consistent(),
        l.entries() == v.entries().take(split_point(v)),
        l.header.prefix_len == v.header.prefix_len + left_extra(v),
{
    lemma_halves(v, l, r);
    lemma_split_key_between(v);
    lemma_left_extra(v);
    let at = split_point(v);
    let e = left_extra(v);
    assert(l.hi() == Some(split_key(v)));
    assert(l.lo().len() == l.header.lo_len);
    lemma_common_prefix(v.lo(), split_key(v));
    assert forall|i: int| 0 <= i < at implies l.in_bounds(#[trigger] v.full_key(i)) by {
        assert(v.in_bounds(v.full_key(i)));
    }
    assert forall|i: int| 0 <= i < at implies l.header.prefix_len <= (
    #[trigger] v.full_key(i)).len() && v.full_key(i).take(l.header.prefix_len as int)
        == l.prefix() by {
        assert(v.in_bounds(v.full_key(i)));
        lemma_key_long_enough(v, i, v.lo(), split_key(v), e);
    }
    assert(v.items().subrange(0, at) =~= v.items().take(at));
    lemma_part(v, l, 0, at, e);
    assert(v.entries().subrange(0, at) =~= v.entries().take(at));
}

/// What the keys of the right half start with.
proof fn lemma_right_prefix(v: NodeView, i: int)
    requires
        v.orderly(),
        right_keys_agree(v),
        0 <= split_point(v) <= i < v.header.children,
        0 <= right_extra(v) <= v.items()[i].0.len(),
        right_extra(v) <= v.items()[split_point(v)].0.len(),
    ensures
        ({
            let n = v.header.prefix_len + right_extra(v);
            &&& n <= v.full_key(i).len()
            &&& n <= split_key(v).len()
            &&& v.full_key(i).take(n) == split_key(v).take(n)
        }),
{
    let at = split_point(v);
    let e = right_extra(v);
    let n = v.header.prefix_len + e;
    lemma_full_key_parts(v, i);
    lemma_full_key_parts(v, at);
    assert(v.keys()[i] == v.items()[i].0);
    assert(v.keys()[at] == v.items()[at].0);
    assert(v.full_key(i).take(n) =~= v.prefix() + v.items()[i].0.take(e));
    assert(split_key(v).take(n) =~= v.prefix() + v.items()[at].0.take(e));
}

/// The right half holds the entries from the split key on, where its keys share what it
/// leaves out of them.
proof fn lemma_right_half(v: NodeView, l: NodeView, r: NodeView)
    requires
        v.orderly(),
        splittable(v),
        right_keys_agree(v),
        is_left_half(v, l),
        is_right_half(v, r),
    ensures
        r.orderly(),
        r.entries() == v.entries().skip(split_point(v)),
        r.header.prefix_len == v.header.prefix_len + right_extra(v),
{
    lemma_halves(v, l, r);
    lemma_split_key_between(v);
    let at = split_point(v);
    let n = v.header.children as int;
    let e = right_extra(v);
    lemma_full_key_parts(v, at);
    if let Some(hi) = v.hi() {
        lemma_further_prefix(split_key(v), hi, v.header.prefix_len);
    }
    assert(v.items()[at].0.len() >= e);
    assert forall|i: int| at <= i < n implies r.in_bounds(#[trigger] v.full_key(i)) by {
        assert(v.in_bounds(v.full_key(i)));
    }
    lemma_right_prefix(v, at);
    assert(r.lo().len() == r.header.lo_len);
    assert forall|i: int| at <= i < n implies r.header.prefix_len <= (
    #[trigger] v.full_key(i)).len() && v.full_key(i).take(r.header.prefix_len as int)
        == r.prefix() by {
        assert(e <= v.items()[i].0.len());
        lemma_right_prefix(v, i);
    }
    assert(v.items().subrange(at, n) =~= v.items().skip(at));
    lemma_part(v, r, at, n, e);
    assert(v.entries().subrange(at, n) =~= v.entries().skip(at));
}

/// The two parts of a sequence make it up.
proof fn lemma_take_and_skip<T>(s: Seq<T>, n: int)
    requires
        0 <= n <= s.len(),
    ensures
        s.take(n) + s.skip(n) == s,
{
    assert(s.take(n) + s.skip(n) =~= s);
}

/// What the headers of the halves say.
proof fn lemma_half_headers(v: NodeView, l: NodeView, r: NodeView)
    requires
        v.orderly(),
        splittable(v),
        is_left_half(v, l),
        is_right_half(v, r),
    ensures
        settled(l),
        settled(r),
        0 < l.header.children,
        0 < r.header.children,
        l.header.children == split_point(v),
        l.header.children + r.header.children == v.header.children,
        l.lo() == v.lo(),
        l.hi() == Some(split_key(v)),
        r.lo() == split_key(v),
        r.hi() == v.hi(),
        l.header.is_index == v.header.is_index,
        r.header.is_index == v.header.is_index,
        r.header.next == v.header.next,
        forall|i: int|
            0 <= i < l.header.children ==> (#[trigger] l.items()[i]).1 == v.items()[i].1,
        forall|i: int|
            0 <= i < r.header.children ==> (#[trigger] r.items()[i]).1 == v.items()[split_point(v)
                + i].1,
{
    lemma_halves(v, l, r);
    lemma_split_key_between(v);
}

/// A split keeps every entry, in order: those below the split key go to the left and
/// the others to the right. Neither half is empty, the keys of both are sorted and
/// within their bounds, these meet at the split key, and the halves leave no less out
/// of their keys than the whole did. The halves of a consistent node are consistent.
///
/// A node with a high key that does not start with the prefix of the node may have a
/// right half whose keys differ in what it leaves out: of such a node nothing is said.
pub proof fn split_parts_the_entries(v: NodeView, l: NodeView, r: NodeView)
    requires
        v.orderly(),
        splittable(v),
        right_keys_agree(v),
        is_left_half(v, l),
        is_right_half(v, r),
    ensures
        l.consistent(),
        r.orderly(),
        v.consistent() ==> r.consistent(),
        settled(l),
        settled(r),
        l.entries() + r.entries() == v.entries(),
        l.entries() == v.entries().take(split_point(v)),
        r.entries() == v.entries().skip(split_point(v)),
        l.header.children > 0,
        r.header.children > 0,
        l.lo() == v.lo(),
        l.hi() == Some(split_key(v)),
        r.lo() == split_key(v),
        r.hi() == v.hi(),
        v.header.prefix_len <= l.header.prefix_len,
        v.header.prefix_len <= r.header.prefix_len,
        l.header.is_index == v.header.is_index,
        r.header.is_index == v.header.is_index,
        r.header.next == v.header.next,
{
    lemma_half_headers(v, l, r);
    lemma_left_half(v, l, r);
    lemma_right_half(v, l, r);
    lemma_left_extra(v);
    assert(0 <= right_extra(v));
    lemma_take_and_skip(v.entries(), split_point(v));
    if v.consistent() {
        lemma_split_key_between(v);
        lemma_right_extra(v);
    }
}

/// How much the halves leave out of their keys.
pub proof fn lemma_half_prefixes(v: NodeView, l: NodeView, r: NodeView)
    requires
        v.orderly(),
        splittable(v),
        right_keys_agree(v),
        is_left_half(v, l),
        is_right_half(v, r),
    ensures
        0 <= left_extra(v),
        0 <= right_extra(v),
        l.header.prefix_len == v.header.prefix_len + left_extra(v),
        r.header.prefix_len == v.header.prefix_len + right_extra(v),
{
    lemma_left_half(v, l, r);
    lemma_right_half(v, l, r);
    lemma_left_extra(v);
}

/// Each half leaves out of its keys all that its bounds share, up to 255 bytes. A right
/// half without a high key leaves out what the whole did.
pub proof fn halves_leave_out_what_they_share(v: NodeView, l: NodeView, r: NodeView)
    requires
        v.orderly(),
        splittable(v),
        prefix_is_shared(v),
        is_left_half(v, l),
        is_right_half(v, r),
    ensures
        l.hi() matches Some(hi) && l.header.prefix_len == capped_prefix(
            common_prefix(l.lo(), hi),
        ),
        match r.hi() {
            Some(hi) => r.header.prefix_len == capped_prefix(common_prefix(r.lo(), hi)),
            None => r.header.prefix_len == v.header.prefix_len,
        },
{
    shared_prefixes_agree(v);
    lemma_half_headers(v, l, r);
    lemma_left_half(v, l, r);
    lemma_right_half(v, l, r);
    lemma_left_extra(v);
    lemma_right_extra(v);
}

/// Each key within the bounds of a node lies within those of exactly one half, and is
/// found there, or not, as in the whole.
pub proof fn split_parts_the_keys(v: NodeView, l: NodeView, r: NodeView, key: Seq<u8>)
    requires
        v.consistent(),
        splittable(v),
        is_left_half(v, l),
        is_right_half(v, r),
    ensures
        l.in_bounds(key) == (v.in_bounds(key) && lex_lt(key, split_key(v))),
        r.in_bounds(key) == (v.in_bounds(key) && lex_le(split_key(v), key)),
        v.in_bounds(key) == (l.in_bounds(key) || r.in_bounds(key)),
        !(l.in_bounds(key) && r.in_bounds(key)),
        v.in_bounds(key) ==> v.get(key) == if l.in_bounds(key) {
            l.get(key)
        } else {
            r.get(key)
        },
{
    shared_prefixes_agree(v);
    split_parts_the_entries(v, l, r);
    lemma_split_key_between(v);
    lemma_parted_keys(v, l, r, split_point(v), split_key(v), key);
}

/// What two runs of entries that meet at a key say about one key.
proof fn lemma_parted_keys(
    v: NodeView,
    l: NodeView,
    r: NodeView,
    at: int,
    sk: Seq<u8>,
    key: Seq<u8>,
)
    requires
        v.consistent(),
        l.consistent(),
        r.consistent(),
        0 <= at <= v.header.children,
        l.entries() == v.entries().take(at),
        r.entries() == v.entries().skip(at),
        l.lo() == v.lo(),
        l.hi() == Some(sk),
        r.lo() == sk,
        r.hi() == v.hi(),
        lex_lt(v.lo(), sk),
        v.in_bounds(sk),
        forall|i: int| 0 <= i < at ==> lex_lt(#[trigger] v.full_key(i), sk),
        forall|i: int| at <= i < v.header.children ==> lex_le(sk, #[trigger] v.full_key(i)),
    ensures
        l.in_bounds(key) == (v.in_bounds(key) && lex_lt(key, sk)),
        r.in_bounds(key) == (v.in_bounds(key) && lex_le(sk, key)),
        v.in_bounds(key) == (l.in_bounds(key) || r.in_bounds(key)),
        !(l.in_bounds(key) && r.in_bounds(key)),
        v.in_bounds(key) ==> v.get(key) == if l.in_bounds(key) {
            l.get(key)
        } else {
            r.get(key)
        },
{
    lemma_lex_total(key, sk);
    if lex_le(sk, key) {
        lemma_lex_lt_le(v.lo(), sk, key);
    } else if let Some(hi) = v.hi() {
        lemma_lex_transitive(key, sk, hi);
    }
    if v.in_bounds(key) {
        assert(l.entries().len() == at);
        assert(r.entries().len() == v.header.children - at);
        if l.in_bounds(key) {
            assert forall|i: int| 0 <= i < v.header.children && l.in_bounds(
                #[trigger] v.full_key(i),
            ) implies i < at by {
                lemma_lex_total(v.full_key(i), sk);
            }
            lemma_get_within(v, l, 0, key);
        } else {
            assert forall|i: int| 0 <= i < v.header.children && r.in_bounds(
                #[trigger] v.full_key(i),
            ) implies at <= i by {
                lemma_lex_total(v.full_key(i), sk);
            }
            lemma_get_within(v, r, at, key);
        }
    }
}

/// A run of the entries holds all that there is to know of the keys within its bounds.
proof fn lemma_get_within(v: NodeView, h: NodeView, from: int, key: Seq<u8>)
    requires
        v.consistent(),
        h.consistent(),
        v.in_bounds(key),
        h.in_bounds(key),
        0 <= from,
        from + h.header.children <= v.header.children,
        forall|i: int|
            0 <= i < h.header.children ==> #[trigger] h.entries()[i] == v.entries()[from + i],
        forall|i: int|
            0 <= i < v.header.children && h.in_bounds(#[trigger] v.full_key(i)) ==> from <= i < from
                + h.header.children,
    ensures
        v.get(key) == h.get(key),
{
    if v.get(key) is Some {
        let i = lemma_get_found(v, key);
        assert(v.full_key(i) == key);
        assert(h.entries()[i - from] == v.entries()[i]);
        lemma_get_finds(h, i - from);
    } else if h.get(key) is Some {
        let i = lemma_get_found(h, key);
        assert(h.entries()[i] == v.entries()[from + i]);
        lemma_get_finds(v, from + i);
    }
}

/// A fresh right half is not to be merged back at once, however small it is.
pub proof fn right_half_is_on_probation(v: NodeView, r: NodeView)
    requires
        splittable(v),
        is_right_half(v, r),
    ensures
        !underfull(r),
        r.header.probation_ops_remaining > 0,
{
}

/// Both halves of an index node have a child for each key within their bounds, where
/// the whole has.
pub proof fn split_keeps_covering(v: NodeView, l: NodeView, r: NodeView)
    requires
        v.covering(),
        splittable(v),
        is_left_half(v, l),
        is_right_half(v, r),
    ensures
        l.covering(),
        r.covering(),
{
    shared_prefixes_agree(v);
    split_parts_the_entries(v, l, r);
    lemma_half_headers(v, l, r);
    assert(l.entries()[0] == v.entries()[0]);
    assert(r.entries()[0] == v.entries()[split_point(v)]);
    lemma_covering(l, v, 0);
    lemma_covering(r, v, split_point(v));
}

/// A run of children has one for each key within its bounds.
proof fn lemma_covering(h: NodeView, v: NodeView, from: int)
    requires
        h.consistent(),
        h.header.is_index,
        h.header.children > 0,
        h.full_key(0) == h.lo(),
        0 <= from,
        from + h.header.children <= v.header.children,
        forall|i: int| 0 <= i < v.header.children ==> (#[trigger] v.items()[i]).1.len() == 8,
        forall|i: int|
            0 <= i < h.header.children ==> (#[trigger] h.items()[i]).1 == v.items()[from + i].1,
    ensures
        h.covering(),
{
    assert forall|i: int| 0 <= i < h.header.children implies (
    #[trigger] h.items()[i]).1.len() == 8 by {
        assert(v.items()[from + i].1.len() == 8);
    }
}

/// The whole keys of one of two joined nodes.
proof fn lemma_rekeyed(v: NodeView, prefix_len: u8, prefix: Seq<u8>, i: int)
    requires
        v.wf(),
        v.has_prefix(),
        prefix_len <= v.header.prefix_len,
        prefix == v.lo().take(prefix_len as int),
        0 <= i < v.header.children,
    ensures
        rekeyed(v, prefix_len).len() == v.header.children,
        prefix + rekeyed(v, prefix_len)[i].0 == v.full_key(i),
        rekeyed(v, prefix_len)[i].1 == v.items()[i].1,
{
    let n = prefix_len as int;
    assert(v.lo().len() == v.header.lo_len);
    assert(v.keys()[i] == v.items()[i].0);
    if prefix_len == v.header.prefix_len {
        assert(prefix == v.prefix());
    } else {
        assert(prefix =~= v.prefix().take(n));
        assert(prefix + v.full_key(i).skip(n) =~= v.full_key(i));
    }
}

/// The bounds of a joined node, and what all keys within them share.
proof fn lemma_merged_bounds(l: NodeView, r: NodeView)
    requires
        l.consistent(),
        r.consistent(),
        mergeable(l, r),
    ensures
        l.lo().take(merged_prefix_len(l, r) as int) == r.lo().take(
            merged_prefix_len(l, r) as int,
        ),
        merged_prefix_len(l, r) <= l.lo().len(),
        match r.hi() {
            Some(hi) => lex_lt(l.lo(), hi) && merged_prefix_len(l, r) <= common_prefix(l.lo(), hi),
            None => merged_prefix_len(l, r) == 0,
        },
        lex_lt(l.lo(), r.lo()),
{
    let n = merged_prefix_len(l, r) as int;
    lemma_common_prefix(l.lo(), r.lo());
    assert(l.lo().take(n) =~= r.lo().take(n));
    if let Some(hi) = r.hi() {
        lemma_lex_transitive(l.lo(), r.lo(), hi);
        lemma_common_prefix(r.lo(), hi);
        lemma_common_prefix(l.lo(), hi);
        assert(r.lo().take(n) =~= hi.take(n));
        let q = common_prefix(l.lo(), hi) as int;
        if q < n {
            assert(l.lo()[q] == l.lo().take(n)[q]);
            assert(hi[q] == hi.take(n)[q]);
        }
    }
}

/// The whole keys of a joined node are those of the left one and then those of the
/// right one.
proof fn lemma_merged_entries(l: NodeView, r: NodeView, m: NodeView)
    requires
        l.wf(),
        r.wf(),
        l.has_prefix(),
        r.has_prefix(),
        r.header.children > 0 ==> merged_prefix_len(l, r) <= common_prefix(l.lo(), r.lo()),
        m.wf(),
        m.items() == merged_items(l, r),
        m.lo() == l.lo(),
        m.header.prefix_len == merged_prefix_len(l, r),
    ensures
        m.entries() == l.entries() + r.entries(),
{
    let p = merged_prefix_len(l, r);
    let n = l.header.children as int;
    lemma_common_prefix(l.lo(), r.lo());
    assert(l.lo().len() == l.header.lo_len);
    if r.header.children > 0 {
        assert(l.lo().take(p as int) =~= r.lo().take(p as int));
    }
    let all = l.entries() + r.entries();
    assert(rekeyed(l, p).len() == n);
    assert(rekeyed(r, p).len() == r.header.children);
    assert forall|i: int| 0 <= i < m.header.children implies m.entries()[i] == all[i] by {
        assert(m.keys()[i] == m.items()[i].0);
        if i < n {
            lemma_rekeyed(l, p, m.prefix(), i);
            assert(m.items()[i] == rekeyed(l, p)[i]);
        } else {
            lemma_rekeyed(r, p, m.prefix(), i - n);
            assert(m.items()[i] == rekeyed(r, p)[i - n]);
        }
    }
    assert(m.entries() =~= all);
}

/// A merge keeps every entry, in order, between the outer bounds of the two, where the
/// two share what the joined node leaves out of its keys: where they do not, the keys
/// of the right one would change.
pub proof fn merge_joins_the_entries(l: NodeView, r: NodeView, m: NodeView)
    requires
        l.wf(),
        r.wf(),
        l.has_prefix(),
        r.has_prefix(),
        mergeable(l, r),
        r.header.children > 0 ==> merged_prefix_len(l, r) <= common_prefix(l.lo(), r.lo()),
        is_merged(l, r, m),
    ensures
        m.wf(),
        m.has_prefix(),
        settled(m),
        m.entries() == l.entries() + r.entries(),
        m.lo() == l.lo(),
        m.hi() == r.hi(),
        m.header.is_index == l.header.is_index,
        m.header.next == r.header.next,
        m.header.prefix_len == merged_prefix_len(l, r),
{
    lemma_merged(l, r, m);
    lemma_merged_entries(l, r, m);
    assert(m.lo().len() == m.header.lo_len);
    assert(l.lo().len() == l.header.lo_len);
}

/// A joined node has its keys sorted and within its bounds, where the two have, and
/// their bounds are in order.
pub proof fn merge_keeps_order(l: NodeView, r: NodeView, m: NodeView)
    requires
        l.orderly(),
        r.orderly(),
        lex_le(l.lo(), r.lo()),
        r.hi() matches Some(hi) ==> lex_le(r.lo(), hi),
        mergeable(l, r),
        r.header.children > 0 ==> merged_prefix_len(l, r) <= common_prefix(l.lo(), r.lo()),
        is_merged(l, r, m),
    ensures
        m.orderly(),
{
    merge_joins_the_entries(l, r, m);
    let n = l.header.children as int;
    assert(m.entries().len() == (l.entries() + r.entries()).len());
    assert forall|i: int| 0 <= i < m.header.children implies #[trigger] m.full_key(i) == if i < n {
        l.full_key(i)
    } else {
        r.full_key(i - n)
    } by {
        assert(m.entries()[i] == (l.entries() + r.entries())[i]);
    }
    lemma_joined_order(l, r, m);
}

/// Runs of keys whose bounds meet are sorted and within the outer bounds.
proof fn lemma_joined_order(l: NodeView, r: NodeView, m: NodeView)
    requires
        l.orderly(),
        r.orderly(),
        l.hi() == Some(r.lo()),
        lex_le(l.lo(), r.lo()),
        r.hi() matches Some(hi) ==> lex_le(r.lo(), hi),
        m.wf(),
        m.has_prefix(),
        m.lo() == l.lo(),
        m.hi() == r.hi(),
        m.header.children == l.header.children + r.header.children,
        forall|i: int|
            0 <= i < m.header.children ==> #[trigger] m.full_key(i) == if i < l.header.children {
                l.full_key(i)
            } else {
                r.full_key(i - l.header.children)
            },
    ensures
        m.orderly(),
{
    let n = l.header.children as int;
    assert forall|i: int, j: int|
        #![trigger m.full_key(i), m.full_key(j)]
        0 <= i < j < m.header.children implies lex_lt(m.full_key(i), m.full_key(j)) by {
        if j < n {
            lemma_full_keys_sorted(l, i, j);
        } else if i >= n {
            lemma_full_keys_sorted(r, i - n, j - n);
        } else {
            assert(l.in_bounds(l.full_key(i)));
            assert(r.in_bounds(r.full_key(j - n)));
            lemma_lex_lt_le(l.full_key(i), r.lo(), r.full_key(j - n));
        }
    }
    lemma_sorted_from_full(m);
    assert forall|i: int| 0 <= i < m.header.children implies m.in_bounds(
        #[trigger] m.full_key(i),
    ) by {
        if i < n {
            assert(l.in_bounds(l.full_key(i)));
            if let Some(hi) = r.hi() {
                lemma_lex_lt_le(l.full_key(i), r.lo(), hi);
            }
        } else {
            assert(r.in_bounds(r.full_key(i - n)));
            if l.lo() != r.lo() {
                lemma_lex_lt_le(l.lo(), r.lo(), r.full_key(i - n));
            }
        }
    }
}

/// Consistent neighbours make a consistent node.
pub proof fn merge_keeps_consistency(l: NodeView, r: NodeView, m: NodeView)
    requires
        l.consistent(),
        r.consistent(),
        mergeable(l, r),
        is_merged(l, r, m),
    ensures
        m.consistent(),
{
    lemma_merged_bounds(l, r);
    merge_joins_the_entries(l, r, m);
    merge_keeps_order(l, r, m);
}

/// Each key within the bounds of a joined node is found there, or not, as in the one of
/// the two within whose bounds it lies.
pub proof fn merge_joins_the_keys(l: NodeView, r: NodeView, m: NodeView, key: Seq<u8>)
    requires
        l.consistent(),
        r.consistent(),
        mergeable(l, r),
        is_merged(l, r, m),
    ensures
        m.in_bounds(key) == (l.in_bounds(key) || r.in_bounds(key)),
        !(l.in_bounds(key) && r.in_bounds(key)),
        l.in_bounds(key) ==> m.get(key) == l.get(key),
        r.in_bounds(key) ==> m.get(key) == r.get(key),
{
    merge_joins_the_entries(l, r, m);
    merge_keeps_consistency(l, r, m);
    lemma_merged_bounds(l, r);
    let n = l.header.children as int;
    lemma_lex_total(key, r.lo());
    if lex_le(r.lo(), key) {
        lemma_lex_lt_le(l.lo(), r.lo(), key);
    } else if let Some(hi) = r.hi() {
        lemma_lex_transitive(key, r.lo(), hi);
    }
    let all = l.entries() + r.entries();
    assert forall|i: int| 0 <= i < m.header.children && l.in_bounds(
        #[trigger] m.full_key(i),
    ) implies i < n by {
        if i >= n {
            assert(m.entries()[i] == all[i]);
            assert(r.in_bounds(r.full_key(i - n)));
            lemma_lex_total(r.full_key(i - n), r.lo());
        }
    }
    assert forall|i: int| 0 <= i < m.header.children && r.in_bounds(
        #[trigger] m.full_key(i),
    ) implies n <= i by {
        if i < n {
            assert(m.entries()[i] == all[i]);
            assert(l.in_bounds(l.full_key(i)));
            lemma_lex_total(l.full_key(i), r.lo());
        }
    }
    if l.in_bounds(key) {
        assert forall|i: int| 0 <= i < n implies #[trigger] l.entries()[i] == m.entries()[0 + i] by {
            assert(all[i] == l.entries()[i]);
        }
        lemma_get_within(m, l, 0, key);
    }
    if r.in_bounds(key) {
        assert forall|i: int| 0 <= i < r.header.children implies #[trigger] r.entries()[i]
            == m.entries()[n + i] by {
            assert(all[n + i] == r.entries()[i]);
        }
        lemma_get_within(m, r, n, key);
    }
}

/// Joining the two halves of a node gives back its entries, its bounds and its
/// neighbour.
pub proof fn merge_undoes_split(v: NodeView, l: NodeView, r: NodeView, m: NodeView)
    requires
        v.orderly(),
        splittable(v),
        right_keys_agree(v),
        is_left_half(v, l),
        is_right_half(v, r),
        mergeable(l, r),
        is_merged(l, r, m),
    ensures
        m.orderly(),
        v.consistent() ==> m.consistent(),
        m.entries() == v.entries(),
        m.lo() == v.lo(),
        m.hi() == v.hi(),
        m.header.next == v.header.next,
        m.header.is_index == v.header.is_index,
        m.header.rewrite_generations == v.header.rewrite_generations,
        v.header.prefix_len <= m.header.prefix_len,
{
    split_parts_the_entries(v, l, r);
    merge_joins_the_entries(l, r, m);
    lemma_split_key_between(v);
    merge_keeps_order(l, r, m);
    if v.consistent() {
        merge_keeps_consistency(l, r, m);
    }
}

/// A joined index node has a child for each key within its bounds, where the two have.
pub proof fn merge_keeps_covering(l: NodeView, r: NodeView, m: NodeView)
    requires
        l.covering(),
        r.covering(),
        mergeable(l, r),
        is_merged(l, r, m),
    ensures
        m.covering(),
{
    merge_joins_the_entries(l, r, m);
    merge_keeps_consistency(l, r, m);
    let all = l.entries() + r.entries();
    let n = l.header.children as int;
    assert(m.entries()[0] == l.entries()[0]);
    assert forall|i: int| 0 <= i < m.header.children implies (
    #[trigger] m.items()[i]).1.len() == 8 by {
        assert(m.entries()[i] == all[i]);
        if i < n {
            assert(all[i] == l.entries()[i]);
            assert(l.items()[i].1.len() == 8);
        } else {
            assert(all[i] == r.entries()[i - n]);
            assert(r.items()[i - n].1.len() == 8);
        }
    }
}

} // verus!
