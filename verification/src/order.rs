//! The lexicographic order of byte strings.

use vstd::prelude::*;

verus! {

/// The number of leading bytes that `a` and `b` share.
pub open spec fn common_prefix(a: Seq<u8>, b: Seq<u8>) -> nat
    decreases a.len(),
{
    if a.len() > 0 && b.len() > 0 && a[0] == b[0] {
        1 + common_prefix(a.skip(1), b.skip(1))
    } else {
        0
    }
}

/// Whether `a` comes before `b`: at the first place where they differ, `a` has
/// the smaller byte or has ended.
pub open spec fn lex_lt(a: Seq<u8>, b: Seq<u8>) -> bool {
    let p = common_prefix(a, b) as int;
    p < b.len() && (p == a.len() || a[p] < b[p])
}

/// Whether `a` comes before `b` or is equal to it.
pub open spec fn lex_le(a: Seq<u8>, b: Seq<u8>) -> bool {
    a == b || lex_lt(a, b)
}

pub proof fn lemma_common_prefix(a: Seq<u8>, b: Seq<u8>)
    ensures
        common_prefix(a, b) <= a.len(),
        common_prefix(a, b) <= b.len(),
        forall|i: int| 0 <= i < common_prefix(a, b) ==> a[i] == b[i],
        common_prefix(a, b) < a.len() && common_prefix(a, b) < b.len() ==> a[common_prefix(
            a,
            b,
        ) as int] != b[common_prefix(a, b) as int],
    decreases a.len(),
{
    if a.len() > 0 && b.len() > 0 && a[0] == b[0] {
        lemma_common_prefix(a.skip(1), b.skip(1));
        let p = common_prefix(a.skip(1), b.skip(1)) as int;
        assert forall|i: int| 0 <= i < common_prefix(a, b) implies a[i] == b[i] by {
            if i > 0 {
                assert(a.skip(1)[i - 1] == b.skip(1)[i - 1]);
            }
        }
        if p < a.skip(1).len() && p < b.skip(1).len() {
            assert(a.skip(1)[p] == a[p + 1]);
            assert(b.skip(1)[p] == b[p + 1]);
        }
    }
}

pub proof fn lemma_common_prefix_is(a: Seq<u8>, b: Seq<u8>, p: int)
    requires
        0 <= p <= a.len(),
        p <= b.len(),
        forall|i: int| 0 <= i < p ==> a[i] == b[i],
        p < a.len() && p < b.len() ==> a[p] != b[p],
    ensures
        common_prefix(a, b) == p,
{
    lemma_common_prefix(a, b);
    let q = common_prefix(a, b) as int;
    if q < p {
        assert(a[q] == b[q]);
    } else if p < q {
        assert(a[p] == b[p]);
    }
}

/// Of two byte strings, one comes first unless they are equal.
pub proof fn lemma_lex_total(a: Seq<u8>, b: Seq<u8>)
    ensures
        a == b || lex_lt(a, b) || lex_lt(b, a),
        !(a == b && lex_lt(a, b)),
        !(lex_lt(a, b) && lex_lt(b, a)),
{
    lemma_common_prefix(a, b);
    lemma_common_prefix_is(b, a, common_prefix(a, b) as int);
    let p = common_prefix(a, b);
    if p == a.len() && p == b.len() {
        assert(a =~= b);
    }
}

pub proof fn lemma_lex_transitive(a: Seq<u8>, b: Seq<u8>, c: Seq<u8>)
    requires
        lex_lt(a, b),
        lex_lt(b, c),
    ensures
        lex_lt(a, c),
{
    lemma_common_prefix(a, b);
    lemma_common_prefix(b, c);
    let p = common_prefix(a, b) as int;
    let q = common_prefix(b, c) as int;
    if p <= q {
        lemma_common_prefix_is(a, c, p);
    } else {
        lemma_common_prefix_is(a, c, q);
    }
}

pub proof fn lemma_lex_le_lt(a: Seq<u8>, b: Seq<u8>, c: Seq<u8>)
    requires
        lex_le(a, b),
        lex_lt(b, c),
    ensures
        lex_lt(a, c),
{
    if a != b {
        lemma_lex_transitive(a, b, c);
    }
}

pub proof fn lemma_lex_lt_le(a: Seq<u8>, b: Seq<u8>, c: Seq<u8>)
    requires
        lex_lt(a, b),
        lex_le(b, c),
    ensures
        lex_lt(a, c),
{
    if b != c {
        lemma_lex_transitive(a, b, c);
    }
}

/// A common prefix does not affect the order.
pub proof fn lemma_lex_same_prefix(p: Seq<u8>, a: Seq<u8>, b: Seq<u8>)
    ensures
        lex_lt(p + a, p + b) == lex_lt(a, b),
        common_prefix(p + a, p + b) == p.len() + common_prefix(a, b),
{
    lemma_common_prefix(a, b);
    let q = common_prefix(a, b) as int;
    let pa = p + a;
    let pb = p + b;
    assert forall|i: int| 0 <= i < p.len() + q implies pa[i] == pb[i] by {
        if i >= p.len() {
            assert(a[i - p.len()] == b[i - p.len()]);
        }
    }
    lemma_common_prefix_is(pa, pb, p.len() + q);
}

/// What lies between two strings starts with every prefix that the two share.
pub proof fn lemma_between_shares_prefix(lo: Seq<u8>, x: Seq<u8>, hi: Seq<u8>, n: int)
    requires
        lex_le(lo, x),
        lex_lt(x, hi),
        0 <= n <= common_prefix(lo, hi),
    ensures
        x.len() >= n,
        x.take(n) == lo.take(n),
        x.take(n) == hi.take(n),
{
    lemma_common_prefix(lo, hi);
    lemma_common_prefix(lo, x);
    lemma_common_prefix(x, hi);
    let p = common_prefix(lo, x) as int;
    let q = common_prefix(x, hi) as int;
    if lo == x {
    } else if p < n {
        // `x` leaves the shared prefix upwards at `p`, so it lies above `hi`.
        assert(p < lo.len());
        assert(lo[p] == hi[p]);
        assert(lo[p] < x[p]);
        lemma_common_prefix_is(x, hi, p);
    }
    assert(x.take(n) =~= lo.take(n));
    assert(lo.take(n) =~= hi.take(n));
}

/// How one byte string stands to another.
#[derive(Clone, Copy, Debug, PartialEq, Eq, Structural)]
pub enum Relation {
    Less,
    Equal,
    Greater,
}

/// The number of leading bytes that `a` and `b` share, counted up to `limit`.
pub fn shared_prefix(a: &[u8], b: &[u8], limit: usize) -> (r: usize)
    ensures
        r == if common_prefix(a@, b@) <= limit {
            common_prefix(a@, b@) as int
        } else {
            limit as int
        },
{
    let mut i: usize = 0;
    while i < limit && i < a.len() && i < b.len() && a[i] == b[i]
        invariant
            i <= limit,
            i <= a@.len(),
            i <= b@.len(),
            forall|j: int| 0 <= j < i ==> a@[j] == b@[j],
        decreases limit - i,
    {
        i = i + 1;
    }
    proof {
        lemma_common_prefix(a@, b@);
        let q = common_prefix(a@, b@) as int;
        if q < i {
            assert(a@[q] == b@[q]);
        } else if i < limit {
            lemma_common_prefix_is(a@, b@, i as int);
        }
    }
    i
}

/// Compares two byte strings.
pub fn relate(l: &[u8], r: &[u8]) -> (c: Relation)
    ensures
        c == Relation::Less <==> lex_lt(l@, r@),
        c == Relation::Equal <==> l@ == r@,
        c == Relation::Greater <==> lex_lt(r@, l@),
{
    let p = shared_prefix(l, r, l.len());
    proof {
        lemma_common_prefix(l@, r@);
        lemma_lex_total(l@, r@);
    }
    if p == l.len() {
        if p == r.len() {
            assert(l@ =~= r@);
            Relation::Equal
        } else {
            Relation::Less
        }
    } else if p < r.len() && l[p] < r[p] {
        Relation::Less
    } else {
        Relation::Greater
    }
}

/// Whether `l` comes before `r`.
pub fn is_lt(l: &[u8], r: &[u8]) -> (b: bool)
    ensures
        b == lex_lt(l@, r@),
{
    relate(l, r) == Relation::Less
}

/// Whether `l` comes before `r` or is equal to it.
pub fn is_le(l: &[u8], r: &[u8]) -> (b: bool)
    ensures
        b == lex_le(l@, r@),
{
    proof {
        lemma_lex_total(l@, r@);
    }
    relate(l, r) != Relation::Greater
}

/// Whether `l` and `r` hold the same bytes.
pub fn is_eq(l: &[u8], r: &[u8]) -> (b: bool)
    ensures
        b == (l@ == r@),
{
    relate(l, r) == Relation::Equal
}

} // verus!
