//! What the privacy mechanisms' noise comes to, as real numbers.

use vstd::prelude::*;

use crate::arith;
use crate::arith::Op;
use crate::bits;
use crate::dp;
use crate::dp::DpBudget;
use crate::reals;
use crate::reals::Reading;

verus! {

// ------------------------------------------------------------------ Gaussian

/// The steps to the standard deviation do not round, and the slack is small
/// enough to have one.
pub open spec fn deviates(k: arith::Calc, r: Reading, l2: u64, b: DpBudget) -> bool {
    let q = k(Op::Over, dp::ONE_AND_A_QUARTER, b.delta);
    let l = k(Op::Ln, q, 0);
    let t = k(Op::Times, arith::TWO, l);
    let s = k(Op::Sqrt, t, 0);
    let p = k(Op::Over, l2, b.epsilon);
    &&& reals::constants(r)
    &&& reals::precise(k, r, Op::Over, dp::ONE_AND_A_QUARTER, b.delta)
    &&& reals::precise(k, r, Op::Ln, q, 0)
    &&& reals::precise(k, r, Op::Times, arith::TWO, l)
    &&& reals::precise(k, r, Op::Sqrt, t, 0)
    &&& reals::precise(k, r, Op::Over, l2, b.epsilon)
    &&& reals::precise(k, r, Op::Times, p, s)
}

/// Standard deviation times privacy loss.
spec fn unit_deviation(k: arith::Calc, r: Reading, l2: u64, b: DpBudget) -> real {
    (r.val)(dp::deviation(k, l2, b)) * (r.val)(b.epsilon)
}

/// `dev * epsilon == l2 * root`, with a root that the slack alone decides.
proof fn lemma_unit(k: arith::Calc, r: Reading, l2: u64, b: DpBudget) -> (root: real)
    requires
        deviates(k, r, l2, b),
    ensures
        root == (r.sqrt)(2 as real * (r.ln)((r.val)(dp::ONE_AND_A_QUARTER) / (r.val)(b.delta))),
        unit_deviation(k, r, l2, b) == (r.val)(l2) * root,
{
    let root = (r.sqrt)(2 as real * (r.ln)((r.val)(dp::ONE_AND_A_QUARTER) / (r.val)(b.delta)));
    let (x, e) = ((r.val)(l2), (r.val)(b.epsilon));
    // ((x / e) * root) * e == ((x / e) * e) * root
    reals::lemma_quotient(x, e, x / e);
    reals::lemma_regroup(x / e, root, e);
    reals::lemma_regroup(x / e, e, root);
    reals::lemma_regroup(root, e, x / e);
    root
}

/// Standard deviation times privacy loss does not depend on the privacy
/// loss.
pub proof fn deviation_times_loss_is_fixed(
    k: arith::Calc,
    r: Reading,
    l2: u64,
    b: DpBudget,
    b2: DpBudget,
)
    requires
        deviates(k, r, l2, b),
        deviates(k, r, l2, b2),
        b.delta == b2.delta,
    ensures
        (r.val)(dp::deviation(k, l2, b)) * (r.val)(b.epsilon) == (r.val)(dp::deviation(k, l2, b2))
            * (r.val)(b2.epsilon),
{
    lemma_unit(k, r, l2, b);
    lemma_unit(k, r, l2, b2);
}

/// Half the privacy loss takes twice the deviation.
pub proof fn half_the_loss_takes_twice_the_deviation(
    k: arith::Calc,
    r: Reading,
    l2: u64,
    b: DpBudget,
    b2: DpBudget,
)
    requires
        deviates(k, r, l2, b),
        deviates(k, r, l2, b2),
        b.delta == b2.delta,
        2 as real * (r.val)(b2.epsilon) == (r.val)(b.epsilon),
    ensures
        (r.val)(dp::deviation(k, l2, b2)) == 2 as real * (r.val)(dp::deviation(k, l2, b)),
{
    deviation_times_loss_is_fixed(k, r, l2, b, b2);
    let (x, y, e) = (
        (r.val)(dp::deviation(k, l2, b)),
        (r.val)(dp::deviation(k, l2, b2)),
        (r.val)(b2.epsilon),
    );
    // x * (2 * e) == y * e
    reals::lemma_regroup(x, 2 as real, e);
    reals::lemma_quotient(y * e, e, y);
    reals::lemma_quotient(y * e, e, x * 2 as real);
}

/// Twice the sensitivity takes twice the deviation, and in general the
/// deviation is in proportion to the sensitivity.
pub proof fn deviation_is_in_proportion_to_sensitivity(
    k: arith::Calc,
    r: Reading,
    l2: u64,
    m2: u64,
    b: DpBudget,
)
    requires
        deviates(k, r, l2, b),
        deviates(k, r, m2, b),
    ensures
        (r.val)(dp::deviation(k, l2, b)) * (r.val)(m2) == (r.val)(dp::deviation(k, m2, b)) * (
        r.val)(l2),
{
    let w = lemma_unit(k, r, l2, b);
    lemma_unit(k, r, m2, b);
    let (x, y, e) = ((r.val)(l2), (r.val)(m2), (r.val)(b.epsilon));
    let (p, q) = ((r.val)(dp::deviation(k, l2, b)), (r.val)(dp::deviation(k, m2, b)));
    // (p * e) * y == (x * w) * y == (y * w) * x == (q * e) * x
    reals::lemma_regroup(x, w, y);
    reals::lemma_regroup(w, y, x);
    reals::lemma_regroup(y, w, x);
    reals::lemma_regroup(p, e, y);
    reals::lemma_regroup(e, y, p);
    reals::lemma_regroup(p, y, e);
    reals::lemma_regroup(q, e, x);
    reals::lemma_regroup(e, x, q);
    reals::lemma_regroup(q, x, e);
    reals::lemma_regroup(w, x, y);
    reals::lemma_quotient(p * y * e, e, p * y);
    reals::lemma_quotient(p * y * e, e, q * x);
}

/// The deviation is the one that the privacy guarantee takes: with `t`
/// standing for `sigma * epsilon / sensitivity`, `1.25 * e^(-t^2 / 2)` is
/// the slack.
pub proof fn deviation_meets_the_slack(k: arith::Calc, r: Reading, l2: u64, b: DpBudget, t: real)
    requires
        deviates(k, r, l2, b),
        reals::exponential(r),
        reals::logarithm(r),
        reals::root(r),
        (r.val)(l2) != 0 as real,
        (r.val)(b.delta) > 0 as real,
        4 as real * (r.val)(b.delta) <= 5 as real,
        (r.ln)((r.val)(dp::ONE_AND_A_QUARTER) / (r.val)(b.delta)) >= 0 as real,
        t * (r.val)(l2) == (r.val)(dp::deviation(k, l2, b)) * (r.val)(b.epsilon),
    ensures
        4 as real * (r.val)(b.delta) * (r.exp)(t * t / 2 as real) == 5 as real,
{
    let w = lemma_unit(k, r, l2, b);
    let (x, d, a) = ((r.val)(l2), (r.val)(b.delta), (r.val)(dp::ONE_AND_A_QUARTER));
    reals::lemma_regroup(x, w, x);
    reals::lemma_quotient(x * w, x, t);
    reals::lemma_quotient(x * w, x, w);
    let l = (r.ln)(a / d);
    assert(w * w == 2 as real * l);
    assert((2 as real * l) / 2 as real == l);
    reals::lemma_quotient(a, d, a / d);
    let y = a / d;
    assert(y > 0 as real) by (nonlinear_arith)
        requires
            y * d == a,
            d > 0 as real,
            a > 0 as real,
    ;
    assert((r.exp)(l) == y);
    reals::lemma_regroup(y, d, 4 as real);
    assert(4 as real * d * y == 4 as real * (y * d)) by (nonlinear_arith);
}

// ------------------------------------------------------------------- Laplace

/// The steps to the noise do not round.
pub open spec fn draws(k: arith::Calc, r: Reading, l1: u64, epsilon: u64, u: u64) -> bool {
    let b = k(Op::Over, l1, epsilon);
    let d = k(Op::Times, arith::TWO, dp::absolute(u));
    let tail = k(Op::Minus, arith::ONE, d);
    let l = k(Op::Ln, tail, 0);
    let s = k(Op::Times, bits::negated(b), dp::sign_of(u));
    &&& reals::constants(r)
    &&& !bits::nan(u)
    &&& reals::precise(k, r, Op::Over, l1, epsilon)
    &&& reals::precise(k, r, Op::Times, arith::TWO, dp::absolute(u))
    &&& reals::precise(k, r, Op::Minus, arith::ONE, d)
    &&& reals::precise(k, r, Op::Ln, tail, 0)
    &&& reals::precise(k, r, Op::Times, bits::negated(b), dp::sign_of(u))
    &&& reals::precise(k, r, Op::Times, s, l)
}

proof fn lemma_laplace(k: arith::Calc, r: Reading, l1: u64, epsilon: u64, u: u64)
    requires
        draws(k, r, l1, epsilon, u),
    ensures
        u < bits::SIGN ==> (r.val)(dp::laplace_noise(k, l1, epsilon, u)) == -((r.val)(l1) / (r.val)(
            epsilon,
        )) * (r.ln)(1 as real - 2 as real * (r.val)(u)),
        u >= bits::SIGN ==> (r.val)(dp::laplace_noise(k, l1, epsilon, u)) == ((r.val)(l1) / (r.val)(
            epsilon,
        )) * (r.ln)(1 as real + 2 as real * (r.val)(u)),
{
    let q = (r.val)(l1) / (r.val)(epsilon);
    reals::lemma_units(-q);
    assert((-q) * (-(1 as real)) == q) by (nonlinear_arith);
    if u >= bits::SIGN {
        assert(bits::negated(dp::absolute(u)) == u);
        let x = (r.val)(dp::absolute(u));
        assert((r.val)(u) == -x);
    } else {
        assert(dp::absolute(u) == u);
    }
}

/// The noise falls off exponentially on both sides: a positive draw `u`
/// gives the noise beyond which `1/2 - u` is left, so that
/// `e^(-noise * epsilon / sensitivity)` is `1 - 2 u`; a negative one likewise
/// on the other side.
pub proof fn laplace_noise_meets_its_tail(
    k: arith::Calc,
    r: Reading,
    l1: u64,
    epsilon: u64,
    u: u64,
    t: real,
)
    requires
        draws(k, r, l1, epsilon, u),
        reals::logarithm(r),
        (r.val)(l1) != 0 as real,
        t * (r.val)(l1) == (r.val)(dp::laplace_noise(k, l1, epsilon, u)) * (r.val)(epsilon),
    ensures
        u < bits::SIGN && 2 as real * (r.val)(u) < 1 as real ==> (r.exp)(-t) == 1 as real
            - 2 as real * (r.val)(u),
        u >= bits::SIGN && 2 as real * (r.val)(u) > -(1 as real) ==> (r.exp)(t) == 1 as real
            + 2 as real * (r.val)(u),
{
    lemma_laplace(k, r, l1, epsilon, u);
    let (a, e) = ((r.val)(l1), (r.val)(epsilon));
    let q = a / e;
    reals::lemma_quotient(a, e, q);
    let x = if u < bits::SIGN {
        -(r.ln)(1 as real - 2 as real * (r.val)(u))
    } else {
        (r.ln)(1 as real + 2 as real * (r.val)(u))
    };
    let y = (r.ln)(1 as real - 2 as real * (r.val)(u));
    assert((-q) * y == q * (-y)) by (nonlinear_arith);
    // (q * x) * e == (q * e) * x == a * x
    reals::lemma_regroup(q, x, e);
    reals::lemma_regroup(x, e, q);
    reals::lemma_regroup(q, e, x);
    reals::lemma_regroup(a, x, e);
    reals::lemma_regroup(x, a, e);
    reals::lemma_quotient(a * x, a, t);
    reals::lemma_quotient(a * x, a, x);
}

/// The opposite draw gives the opposite noise.
pub proof fn laplace_noise_is_odd(k: arith::Calc, r: Reading, l1: u64, epsilon: u64, u: u64)
    requires
        u < bits::SIGN,
        draws(k, r, l1, epsilon, u),
        draws(k, r, l1, epsilon, bits::negated(u)),
    ensures
        (r.val)(dp::laplace_noise(k, l1, epsilon, bits::negated(u))) == -(r.val)(
            dp::laplace_noise(k, l1, epsilon, u),
        ),
{
    lemma_laplace(k, r, l1, epsilon, u);
    lemma_laplace(k, r, l1, epsilon, bits::negated(u));
    let q = (r.val)(l1) / (r.val)(epsilon);
    let y = (r.ln)(1 as real - 2 as real * (r.val)(u));
    assert((-q) * y == -(q * y)) by (nonlinear_arith);
}

/// Noise times privacy loss does not depend on the privacy loss.
pub proof fn laplace_noise_times_loss_is_fixed(
    k: arith::Calc,
    r: Reading,
    l1: u64,
    epsilon: u64,
    epsilon2: u64,
    u: u64,
)
    requires
        draws(k, r, l1, epsilon, u),
        draws(k, r, l1, epsilon2, u),
    ensures
        (r.val)(dp::laplace_noise(k, l1, epsilon, u)) * (r.val)(epsilon) == (r.val)(
            dp::laplace_noise(k, l1, epsilon2, u),
        ) * (r.val)(epsilon2),
{
    lemma_laplace(k, r, l1, epsilon, u);
    lemma_laplace(k, r, l1, epsilon2, u);
    let x = if u < bits::SIGN {
        -(r.ln)(1 as real - 2 as real * (r.val)(u))
    } else {
        (r.ln)(1 as real + 2 as real * (r.val)(u))
    };
    lemma_scaled(r, l1, epsilon, x);
    lemma_scaled(r, l1, epsilon2, x);
}

proof fn lemma_scaled(r: Reading, l1: u64, epsilon: u64, x: real)
    requires
        (r.val)(epsilon) != 0 as real,
    ensures
        ((r.val)(l1) / (r.val)(epsilon) * x) * (r.val)(epsilon) == (r.val)(l1) * x,
        (-((r.val)(l1) / (r.val)(epsilon)) * (-x)) * (r.val)(epsilon) == (r.val)(l1) * x,
{
    let (a, e) = ((r.val)(l1), (r.val)(epsilon));
    let q = a / e;
    reals::lemma_quotient(a, e, q);
    reals::lemma_regroup(q, x, e);
    reals::lemma_regroup(x, e, q);
    reals::lemma_regroup(q, e, x);
    assert((-q) * (-x) == q * x) by (nonlinear_arith);
}

/// What is released is the value with its own noise added: the difference
/// is the noise, in every place.
pub proof fn release_adds_the_noise(
    k: arith::Calc,
    r: Reading,
    v: Seq<u64>,
    noise: Seq<u64>,
    i: int,
)
    requires
        0 <= i < v.len(),
        noise.len() == v.len(),
        reals::precise(k, r, Op::Plus, v[i], noise[i]),
    ensures
        dp::noised(k, v, noise).len() == v.len(),
        (r.val)(dp::noised(k, v, noise)[i]) - (r.val)(v[i]) == (r.val)(noise[i]),
{
}

} // verus!
