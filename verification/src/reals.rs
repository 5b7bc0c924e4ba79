//! What numbers stand for: patterns read as real numbers, and operations
//! that do not round.
//!
//! The laws stated over this reading hold wherever the steps of a
//! computation are precise. They say what the results mean, whatever way
//! they were computed.

use vstd::prelude::*;

use crate::arith;
use crate::arith::Op;
use crate::bits;

verus! {

/// A reading of patterns as real numbers, with the functions that the
/// operations on one number compute.
pub struct Reading {
    /// The number that a pattern stands for.
    pub val: spec_fn(u64) -> real,
    /// The exponential.
    pub exp: spec_fn(real) -> real,
    /// The logarithm.
    pub ln: spec_fn(real) -> real,
    /// The square root.
    pub sqrt: spec_fn(real) -> real,
}

/// The operation does not round on these numbers.
pub open spec fn precise(k: arith::Calc, r: Reading, op: Op, a: u64, b: u64) -> bool {
    let (x, y, z) = ((r.val)(a), (r.val)(b), (r.val)(k(op, a, b)));
    match op {
        Op::Plus => z == x + y,
        Op::Minus => z == x - y,
        Op::Times => z == x * y,
        Op::Over => y != 0 as real && z == x / y,
        Op::Exp => z == (r.exp)(x),
        Op::Ln => z == (r.ln)(x),
        Op::Sqrt => z == (r.sqrt)(x),
        Op::Whole => z == a as real,
        Op::Widen => true,
    }
}

/// Sums become products, and nothing becomes zero.
pub open spec fn turns_sums(f: spec_fn(real) -> real, x: real, y: real) -> bool {
    f(x + y) == f(x) * f(y) && f(x) > 0 as real
}

/// The exponential is one.
pub open spec fn exponential(r: Reading) -> bool {
    &&& forall|x: real, y: real| #[trigger] turns_sums(r.exp, x, y)
    &&& (r.exp)(0 as real) == 1 as real
}

/// The logarithm undoes the exponential, and the other way round.
pub open spec fn logarithm(r: Reading) -> bool {
    &&& forall|x: real| (r.ln)(#[trigger] (r.exp)(x)) == x
    &&& forall|y: real| y > 0 as real ==> (r.exp)(#[trigger] (r.ln)(y)) == y
}

/// The square root undoes the square.
pub open spec fn root(r: Reading) -> bool {
    forall|y: real|
        y >= 0 as real ==> #[trigger] (r.sqrt)(y) >= 0 as real && (r.sqrt)(y) * (r.sqrt)(y) == y
}

/// The patterns that are written out stand for their numbers, and taking
/// the sign bit over negates.
pub open spec fn constants(r: Reading) -> bool {
    &&& (r.val)(0) == 0 as real
    &&& (r.val)(0x3FF0_0000_0000_0000) == 1 as real
    &&& (r.val)(0x4000_0000_0000_0000) == 2 as real
    &&& (r.val)(0xBFE0_0000_0000_0000) * 2 as real == -(1 as real)
    &&& (r.val)(0x3FF4_0000_0000_0000) * 4 as real == 5 as real
    &&& forall|x: u64| (r.val)(#[trigger] bits::negated(x)) == -(r.val)(x)
}

/// The exponential of a sum is the product of the exponentials.
pub proof fn lemma_exp(r: Reading, x: real, y: real)
    requires
        exponential(r),
    ensures
        (r.exp)(x + y) == (r.exp)(x) * (r.exp)(y),
        (r.exp)(x) > 0 as real,
{
    assert(turns_sums(r.exp, x, y));
}

/// A product spreads over a sum.
pub proof fn lemma_spread(a: real, b: real, c: real)
    ensures
        (a + b) * c == a * c + b * c,
        c * (a + b) == c * a + c * b,
{
    assert((a + b) * c == a * c + b * c) by (nonlinear_arith);
    assert(c * (a + b) == c * a + c * b) by (nonlinear_arith);
}

/// Products regroup and swap.
pub proof fn lemma_regroup(a: real, b: real, c: real)
    ensures
        (a * b) * c == a * (b * c),
        a * b == b * a,
{
    assert((a * b) * c == a * (b * c)) by (nonlinear_arith);
    assert(a * b == b * a) by (nonlinear_arith);
}

/// Products with one and zero.
pub proof fn lemma_units(a: real)
    ensures
        a * 1 as real == a,
        1 as real * a == a,
        a * 0 as real == 0 as real,
        0 as real * a == 0 as real,
{
    assert(a * 1 as real == a) by (nonlinear_arith);
    assert(1 as real * a == a) by (nonlinear_arith);
    assert(a * 0 as real == 0 as real) by (nonlinear_arith);
    assert(0 as real * a == 0 as real) by (nonlinear_arith);
}

/// A product of positive numbers is positive.
pub proof fn lemma_positive(a: real, b: real)
    requires
        a > 0 as real,
        b > 0 as real,
    ensures
        a * b > 0 as real,
{
    assert(a * b > 0 as real) by (nonlinear_arith)
        requires
            a > 0 as real,
            b > 0 as real,
    ;
}

/// The quotient is the number that the divisor multiplies to the dividend.
pub proof fn lemma_quotient(a: real, b: real, q: real)
    requires
        b != 0 as real,
    ensures
        (a / b) * b == a,
        q * b == a ==> q == a / b,
{
    assert((a / b) * b == a) by (nonlinear_arith)
        requires
            b != 0 as real,
    ;
    if q * b == a {
        assert(q == a / b) by (nonlinear_arith)
            requires
                b != 0 as real,
                q * b == a,
        ;
    }
}

/// A quotient does not change where both its parts take a factor.
pub proof fn lemma_factor(a: real, b: real, c: real)
    requires
        b != 0 as real,
        b * c != 0 as real,
    ensures
        a / b == (a * c) / (b * c),
{
    let q = a / b;
    lemma_quotient(a, b, q);
    lemma_regroup(q, b, c);
    lemma_quotient(a * c, b * c, q);
}

// ----------------------------------------------------------------- weights

/// The steps of weighing do not round.
pub open spec fn weighs_precisely(k: arith::Calc, r: Reading, s: u64, m: u64, eps: u64) -> bool {
    let d = k(Op::Minus, s, m);
    let q = k(Op::Over, d, eps);
    precise(k, r, Op::Minus, s, m) && precise(k, r, Op::Over, d, eps) && precise(
        k,
        r,
        Op::Exp,
        q,
        0,
    )
}

/// The weight of a score is the exponential of its distance from the
/// anchor, measured in temperatures.
pub proof fn weight_is_the_exponential_of_the_distance(
    k: arith::Calc,
    r: Reading,
    s: u64,
    m: u64,
    eps: u64,
)
    requires
        weighs_precisely(k, r, s, m, eps),
    ensures
        (r.val)(arith::weight(k, s, m, eps)) == (r.exp)(
            ((r.val)(s) - (r.val)(m)) / (r.val)(eps),
        ),
{
}

/// A score one temperature below the anchor weighs `e^-1`, at every
/// temperature.
pub proof fn one_temperature_below_weighs_an_eth(
    k: arith::Calc,
    r: Reading,
    s: u64,
    m: u64,
    eps: u64,
)
    requires
        weighs_precisely(k, r, s, m, eps),
        (r.val)(s) + (r.val)(eps) == (r.val)(m),
    ensures
        (r.val)(arith::weight(k, s, m, eps)) == (r.exp)(-(1 as real)),
{
    let e = (r.val)(eps);
    assert((-e) / e == -(1 as real)) by (nonlinear_arith)
        requires
            e != 0 as real,
    ;
    assert((r.val)(s) - (r.val)(m) == -e);
}

/// Two scores whose distances from their anchors come to the same number of
/// their temperatures weigh the same. It takes no exact arithmetic.
pub proof fn weight_depends_on_the_ratio_alone(
    k: arith::Calc,
    s: u64,
    m: u64,
    eps: u64,
    s2: u64,
    m2: u64,
    eps2: u64,
)
    requires
        k(Op::Over, k(Op::Minus, s, m), eps) == k(Op::Over, k(Op::Minus, s2, m2), eps2),
    ensures
        arith::weight(k, s, m, eps) == arith::weight(k, s2, m2, eps2),
{
}

/// Weights compose: what a score weighs under a second anchor is what it
/// weighs under the first, times what the first weighs under the second.
pub proof fn weights_compose(k: arith::Calc, r: Reading, s: u64, m: u64, t: u64, eps: u64)
    requires
        exponential(r),
        weighs_precisely(k, r, s, m, eps),
        weighs_precisely(k, r, m, t, eps),
        weighs_precisely(k, r, s, t, eps),
    ensures
        (r.val)(arith::weight(k, s, t, eps)) == (r.val)(arith::weight(k, s, m, eps)) * (r.val)(
            arith::weight(k, m, t, eps),
        ),
{
    let (a, b, c, e) = ((r.val)(s), (r.val)(m), (r.val)(t), (r.val)(eps));
    assert((a - c) / e == (a - b) / e + (b - c) / e) by (nonlinear_arith)
        requires
            e != 0 as real,
    ;
    lemma_exp(r, (a - b) / e, (b - c) / e);
}

// ------------------------------------------------------------------- sums

/// The sum of real numbers.
pub open spec fn rsum(xs: Seq<real>) -> real
    decreases xs.len(),
{
    if xs.len() == 0 {
        0 as real
    } else {
        rsum(xs.drop_last()) + xs.last()
    }
}

/// Sums of lists one after the other.
pub proof fn lemma_rsum_add(a: Seq<real>, b: Seq<real>)
    ensures
        rsum(a + b) == rsum(a) + rsum(b),
    decreases b.len(),
{
    if b.len() == 0 {
        assert(a + b =~= a);
    } else {
        lemma_rsum_add(a, b.drop_last());
        assert((a + b).drop_last() =~= a + b.drop_last());
    }
}

/// A common factor comes out of a sum.
pub proof fn lemma_rsum_times(xs: Seq<real>, c: real)
    ensures
        rsum(Seq::new(xs.len(), |i: int| xs[i] * c)) == rsum(xs) * c,
    decreases xs.len(),
{
    let ys = Seq::new(xs.len(), |i: int| xs[i] * c);
    if xs.len() == 0 {
        assert(0 as real * c == 0 as real) by (nonlinear_arith);
    } else {
        let zs = xs.drop_last();
        lemma_rsum_times(zs, c);
        assert(ys.drop_last() =~= Seq::new(zs.len(), |i: int| zs[i] * c));
        let (p, q) = (rsum(zs), xs.last());
        assert((p + q) * c == p * c + q * c) by (nonlinear_arith);
    }
}

/// A sum with one number changed.
pub proof fn lemma_rsum_update(xs: Seq<real>, i: int, y: real)
    requires
        0 <= i < xs.len(),
    ensures
        rsum(xs.update(i, y)) == rsum(xs) + (y - xs[i]),
    decreases xs.len(),
{
    let ys = xs.update(i, y);
    if i == xs.len() - 1 {
        assert(ys.drop_last() =~= xs.drop_last());
    } else {
        lemma_rsum_update(xs.drop_last(), i, y);
        assert(ys.drop_last() =~= xs.drop_last().update(i, y));
    }
}

} // verus!
