//! The order of keys.

use vstd::prelude::*;
use crate::order::{common_prefix, lemma_common_prefix, lemma_common_prefix_is, lemma_lex_total, lex_le, lex_lt};

verus! {

/// Keys are ordered by their bytes as numbers: behind what two keys share, the smaller
/// byte decides, whatever follows.
pub proof fn the_smaller_byte_comes_first(p: Seq<u8>, x: u8, s: Seq<u8>, y: u8, t: Seq<u8>)
    ensures
        x < y ==> lex_lt(p + seq![x] + s, p + seq![y] + t),
        lex_lt(seq![x], seq![y]) <==> x < y,
{
    let a = p + seq![x] + s;
    let b = p + seq![y] + t;
    assert(a[p.len() as int] == x);
    assert(b[p.len() as int] == y);
    if x < y {
        assert forall|i: int| 0 <= i < p.len() implies a[i] == b[i] by {
            assert(a[i] == p[i]);
            assert(b[i] == p[i]);
        }
        lemma_common_prefix_is(a, b, p.len() as int);
    }
    if x == y {
        assert(seq![x] =~= seq![y]);
        lemma_lex_total(seq![x], seq![y]);
    } else {
        assert(seq![x][0] == x);
        assert(seq![y][0] == y);
        lemma_common_prefix_is(seq![x], seq![y], 0);
    }
}

/// A key comes before all longer keys that start with it.
pub proof fn the_shorter_key_comes_first(p: Seq<u8>, s: Seq<u8>)
    requires
        s.len() > 0,
    ensures
        lex_lt(p, p + s),
        !lex_lt(p + s, p),
{
    lemma_common_prefix_is(p, p + s, p.len() as int);
    lemma_lex_total(p, p + s);
}

/// There is no other reason for a key to come first: it has the smaller byte where the
/// two part, or it is where the other one starts.
pub proof fn what_comes_first(a: Seq<u8>, b: Seq<u8>)
    requires
        lex_lt(a, b),
    ensures
        exists|n: int|
            #![trigger a.take(n)]
            0 <= n <= a.len() && n < b.len() && a.take(n) == b.take(n) && (n == a.len() || a[n]
                < b[n]),
{
    let n = common_prefix(a, b) as int;
    lemma_common_prefix(a, b);
    assert(a.take(n) =~= b.take(n));
}

/// Keys that are equal or in order, and nothing else, are not in reverse order.
pub proof fn order_is_total(a: Seq<u8>, b: Seq<u8>)
    ensures
        lex_le(a, b) <==> !lex_lt(b, a),
        lex_le(a, b) && lex_le(b, a) ==> a == b,
{
    lemma_lex_total(a, b);
}

/// The shared prefix of two keys is all that they share.
pub proof fn shared_prefix_is_longest(a: Seq<u8>, b: Seq<u8>, n: int)
    requires
        0 <= n <= a.len(),
        n <= b.len(),
    ensures
        n <= common_prefix(a, b) <==> a.take(n) == b.take(n),
{
    lemma_common_prefix(a, b);
    let q = common_prefix(a, b) as int;
    if n <= q {
        assert(a.take(n) =~= b.take(n));
    } else {
        assert(a.take(n)[q] == a[q]);
        assert(b.take(n)[q] == b[q]);
    }
}

} // verus!
