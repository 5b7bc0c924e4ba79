//! What the inner products come to, as real numbers.

use vstd::prelude::*;

use crate::arith;
use crate::arith::Op;
use crate::hnsw;
use crate::mask;
use crate::reals;
use crate::reals::rsum;

verus! {

/// A reading of single-precision patterns as real numbers, with the numbers
/// that occur.
pub struct Plane {
    /// The number that a pattern stands for.
    pub val: spec_fn(u32) -> real,
    /// `sums(n, x)`: the number `x` can come about as a sum of `n` products.
    pub sums: spec_fn(nat, u32) -> bool,
    /// How many products there are at most.
    pub terms: nat,
}

impl Plane {
    /// `x` can come about as a sum of `n` products.
    pub open spec fn has(self, n: nat, x: u32) -> bool {
        n <= self.terms && (self.sums)(n, x)
    }
}

/// Two sums that occur are added without rounding.
pub open spec fn adds(g: arith::Calc32, pl: Plane, i: nat, j: nat, a: u32, b: u32) -> bool {
    pl.has(i, a) && pl.has(j, b) && i + j <= pl.terms ==> (pl.val)(g(Op::Plus, a, b)) == (pl.val)(a)
        + (pl.val)(b) && pl.has(i + j, g(Op::Plus, a, b))
}

/// Nothing rounds: neither a product of two components nor a sum of such
/// products.
pub open spec fn reads(g: arith::Calc32, pl: Plane, a: Seq<u32>, b: Seq<u32>) -> bool {
    &&& a.len() == b.len() <= pl.terms
    &&& pl.has(0, 0) && (pl.val)(0) == 0 as real
    &&& forall|i: int|
        0 <= i < a.len() ==> (pl.val)(g(Op::Times, #[trigger] a[i], b[i])) == (pl.val)(a[i]) * (
        pl.val)(b[i]) && pl.has(1, g(Op::Times, a[i], b[i]))
    &&& forall|i: nat, j: nat, x: u32, y: u32| #[trigger] adds(g, pl, i, j, x, y)
}

/// The products of components.
pub open spec fn terms(pl: Plane, a: Seq<u32>, b: Seq<u32>) -> Seq<real> {
    Seq::new(a.len(), |i: int| (pl.val)(a[i]) * (pl.val)(b[i]))
}

/// The score of a key is the sum, over all components, of query times key.
pub proof fn inner_product_sums_over_all_components(
    g: arith::Calc32,
    pl: Plane,
    a: Seq<u32>,
    b: Seq<u32>,
)
    requires
        reads(g, pl, a, b),
    ensures
        (pl.val)(hnsw::product(g, a, b)) == rsum(terms(pl, a, b)),
{
    lemma_product(g, pl, a, b, a.len());
    assert(a.take(a.len() as int) =~= a);
    assert(terms(pl, a, b).take(a.len() as int) =~= terms(pl, a, b));
}

proof fn lemma_product(g: arith::Calc32, pl: Plane, a: Seq<u32>, b: Seq<u32>, n: nat)
    requires
        reads(g, pl, a, b),
        n <= a.len(),
    ensures
        (pl.val)(hnsw::product(g, a.take(n as int), b)) == rsum(terms(pl, a, b).take(n as int)),
        pl.has(n, hnsw::product(g, a.take(n as int), b)),
    decreases n,
{
    let t = terms(pl, a, b);
    if n > 0 {
        let m = (n - 1) as nat;
        lemma_product(g, pl, a, b, m);
        assert(a.take(n as int).drop_last() =~= a.take(m as int));
        assert(t.take(n as int).drop_last() =~= t.take(m as int));
        let x = hnsw::product(g, a.take(m as int), b);
        let y = g(Op::Times, a[m as int], b[m as int]);
        assert((pl.val)(y) == t[m as int]);
        assert(adds(g, pl, m, 1, x, y));
    }
}

/// The score is linear in each component of the query, with that component
/// of the key as its coefficient.
pub proof fn inner_product_is_linear_in_each_component(
    g: arith::Calc32,
    pl: Plane,
    a: Seq<u32>,
    b: Seq<u32>,
    i: int,
    x: u32,
)
    requires
        reads(g, pl, a, b),
        reads(g, pl, a.update(i, x), b),
        0 <= i < a.len(),
    ensures
        (pl.val)(hnsw::product(g, a.update(i, x), b)) - (pl.val)(hnsw::product(g, a, b)) == ((
        pl.val)(x) - (pl.val)(a[i])) * (pl.val)(b[i]),
{
    inner_product_sums_over_all_components(g, pl, a, b);
    inner_product_sums_over_all_components(g, pl, a.update(i, x), b);
    let t = terms(pl, a, b);
    let (p, q, w) = ((pl.val)(x), (pl.val)(a[i]), (pl.val)(b[i]));
    assert(terms(pl, a.update(i, x), b) =~= t.update(i, p * w));
    reals::lemma_rsum_update(t, i, p * w);
    reals::lemma_spread(p - q, q, w);
}

/// `0` in every component but `i`, and there `1`.
pub open spec fn unit(d: nat, i: int, one: u32) -> Seq<u32> {
    Seq::new(
        d,
        |j: int|
            if j == i {
                one
            } else {
                0u32
            },
    )
}

/// Against a query that is 1 in one component and 0 elsewhere, a key scores
/// that component, wherever `0 * x` adds nothing and `1 * x` is `x`.
pub proof fn unit_query_reads_the_component(
    g: arith::Calc32,
    key: Seq<u32>,
    i: int,
    one: u32,
)
    requires
        0 <= i < key.len(),
        forall|j: int|
            0 <= j < key.len() ==> g(Op::Plus, 0, g(Op::Times, 0, #[trigger] key[j])) == 0,
        forall|j: int|
            0 <= j < key.len() ==> g(Op::Plus, key[i], g(Op::Times, 0, #[trigger] key[j])) == key[i],
        g(Op::Plus, 0, g(Op::Times, one, key[i])) == key[i],
    ensures
        hnsw::product(g, unit(key.len(), i, one), key) == key[i],
{
    lemma_unit(g, key, i, one, key.len());
    let u = unit(key.len(), i, one);
    assert(u.take(key.len() as int) =~= u);
}

proof fn lemma_unit(g: arith::Calc32, key: Seq<u32>, i: int, one: u32, n: nat)
    requires
        0 <= i < key.len(),
        n <= key.len(),
        forall|j: int|
            0 <= j < key.len() ==> g(Op::Plus, 0, g(Op::Times, 0, #[trigger] key[j])) == 0,
        forall|j: int|
            0 <= j < key.len() ==> g(Op::Plus, key[i], g(Op::Times, 0, #[trigger] key[j])) == key[i],
        g(Op::Plus, 0, g(Op::Times, one, key[i])) == key[i],
    ensures
        hnsw::product(g, unit(key.len(), i, one).take(n as int), key) == (if i < n {
            key[i]
        } else {
            0
        }),
    decreases n,
{
    let u = unit(key.len(), i, one);
    if n > 0 {
        lemma_unit(g, key, i, one, (n - 1) as nat);
        assert(u.take(n as int).drop_last() =~= u.take(n - 1));
        assert(u.take(n as int)[n - 1] == u[n - 1]);
        assert(key[n - 1] == key[n - 1]);
    }
}

// ---------------------------------------------------------- four partial sums

/// Every fourth term from `lane` on.
spec fn lane_terms(t: Seq<real>, lane: int, m: nat) -> real
    decreases m,
{
    if m == 0 {
        0 as real
    } else {
        lane_terms(t, lane, (m - 1) as nat) + t[4 * (m - 1) + lane]
    }
}

proof fn lemma_lanes(t: Seq<real>, m: nat)
    requires
        4 * m <= t.len(),
    ensures
        rsum(t.take(4 * m as int)) == lane_terms(t, 0, m) + lane_terms(t, 1, m) + lane_terms(
            t,
            2,
            m,
        ) + lane_terms(t, 3, m),
    decreases m,
{
    if m > 0 {
        let n = 4 * (m - 1);
        lemma_lanes(t, (m - 1) as nat);
        assert(t.take(n + 4).drop_last() =~= t.take(n + 3));
        assert(t.take(n + 3).drop_last() =~= t.take(n + 2));
        assert(t.take(n + 2).drop_last() =~= t.take(n + 1));
        assert(t.take(n + 1).drop_last() =~= t.take(n));
        assert(t.take(n + 4).last() == t[n + 3]);
        assert(t.take(n + 3).last() == t[n + 2]);
        assert(t.take(n + 2).last() == t[n + 1]);
        assert(t.take(n + 1).last() == t[n]);
        assert(rsum(t.take(n + 1)) == rsum(t.take(n)) + t[n]);
        assert(rsum(t.take(n + 2)) == rsum(t.take(n + 1)) + t[n + 1]);
        assert(rsum(t.take(n + 3)) == rsum(t.take(n + 2)) + t[n + 2]);
        assert(rsum(t.take(n + 4)) == rsum(t.take(n + 3)) + t[n + 3]);
        assert(t[n + 0] == t[n]);
    } else {
        assert(t.take(0) =~= Seq::<real>::empty());
    }
}

proof fn lemma_lane_sum(
    g: arith::Calc32,
    pl: Plane,
    a: Seq<u32>,
    b: Seq<u32>,
    lane: int,
    m: nat,
)
    requires
        reads(g, pl, a, b),
        0 <= lane < 4,
        4 * m <= a.len(),
    ensures
        (pl.val)(mask::lane_sum(g, a, b, lane, m)) == lane_terms(terms(pl, a, b), lane, m),
        pl.has(m, mask::lane_sum(g, a, b, lane, m)),
    decreases m,
{
    if m > 0 {
        let l = (m - 1) as nat;
        lemma_lane_sum(g, pl, a, b, lane, l);
        let c = 4 * (m - 1) + lane;
        let x = mask::lane_sum(g, a, b, lane, l);
        let y = g(Op::Times, a[c], b[c]);
        assert(adds(g, pl, l, 1, x, y));
    }
}

proof fn lemma_tail_sum(
    g: arith::Calc32,
    pl: Plane,
    a: Seq<u32>,
    b: Seq<u32>,
    acc: u32,
    n: nat,
    lo: int,
    hi: int,
)
    requires
        reads(g, pl, a, b),
        0 <= lo <= hi <= a.len(),
        pl.has(n, acc),
        n + (hi - lo) <= pl.terms,
    ensures
        ({
            let t = terms(pl, a, b);
            (pl.val)(mask::tail_sum(g, a, b, acc, lo, hi)) == (pl.val)(acc) + rsum(t.take(hi))
                - rsum(t.take(lo))
        }),
        pl.has((n + (hi - lo)) as nat, mask::tail_sum(g, a, b, acc, lo, hi)),
    decreases hi - lo,
{
    let t = terms(pl, a, b);
    if lo < hi {
        lemma_tail_sum(g, pl, a, b, acc, n, lo, hi - 1);
        let x = mask::tail_sum(g, a, b, acc, lo, hi - 1);
        let y = g(Op::Times, a[hi - 1], b[hi - 1]);
        assert(adds(g, pl, (n + (hi - 1 - lo)) as nat, 1, x, y));
        assert(t.take(hi).drop_last() =~= t.take(hi - 1));
        assert(t.take(hi).last() == t[hi - 1]);
    }
}

/// The single-precision score of a row is the sum, over all components, of
/// query times key, though it is taken in four partial sums.
pub proof fn four_partial_sums_make_the_inner_product(
    g: arith::Calc32,
    pl: Plane,
    a: Seq<u32>,
    b: Seq<u32>,
)
    requires
        reads(g, pl, a, b),
    ensures
        (pl.val)(mask::dot_four(g, a, b)) == rsum(terms(pl, a, b)),
{
    let t = terms(pl, a, b);
    let n = a.len();
    let m = (n / 4) as nat;
    lemma_lanes(t, m);
    lemma_lane_sum(g, pl, a, b, 0, m);
    lemma_lane_sum(g, pl, a, b, 1, m);
    lemma_lane_sum(g, pl, a, b, 2, m);
    lemma_lane_sum(g, pl, a, b, 3, m);
    let (l0, l1, l2, l3) = (
        mask::lane_sum(g, a, b, 0, m),
        mask::lane_sum(g, a, b, 1, m),
        mask::lane_sum(g, a, b, 2, m),
        mask::lane_sum(g, a, b, 3, m),
    );
    let rest = (n - 4 * m) as nat;
    lemma_tail_sum(g, pl, a, b, l0, m, 4 * m as int, n as int);
    let first = mask::tail_sum(g, a, b, l0, 4 * m as int, n as int);
    assert(adds(g, pl, m + rest, m, first, l1));
    assert(adds(g, pl, m, m, l2, l3));
    assert(adds(g, pl, m + rest + m, m + m, g(Op::Plus, first, l1), g(Op::Plus, l2, l3)));
    assert(t.take(n as int) =~= t);
}

/// The score of each row in single precision is the inner product of the
/// query with that row's key, once widening keeps the number.
pub proof fn narrow_score_is_the_inner_product(
    k: arith::Calc,
    r: reals::Reading,
    g: arith::Calc32,
    pl: Plane,
    x: Seq<u32>,
    keys: Seq<Seq<u32>>,
    row: usize,
)
    requires
        0 <= row < keys.len(),
        reads(g, pl, x, keys[row as int]),
        forall|d: u32| (r.val)(k(Op::Widen, d as u64, 0)) == #[trigger] (pl.val)(d),
    ensures
        (r.val)(mask::narrow_scores(k, g, x, keys)(row)) == rsum(terms(pl, x, keys[row as int])),
{
    four_partial_sums_make_the_inner_product(g, pl, x, keys[row as int]);
}

} // verus!
