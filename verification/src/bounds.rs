//! What the bounds on smoothing come to, as real numbers.

use vstd::prelude::*;

use crate::arith;
use crate::arith::Op;
use crate::bits;
use crate::fold;
use crate::reals;
use crate::reals::{rsum, Reading};
use crate::semiring;
use crate::totals;
use crate::types::Eps;

verus! {

/// The steps to the bound that holds at every temperature do not round.
pub open spec fn bounds_precisely(k: arith::Calc, r: Reading, v_max: u64, n: nat, kappa: nat) -> bool {
    let a = k(Op::Times, arith::TWO, v_max);
    let b = k(Op::Whole, (n - kappa) as u64, 0);
    let c = k(Op::Times, a, b);
    let d = k(Op::Whole, kappa as u64, 0);
    &&& reals::constants(r)
    &&& 0 < kappa <= n <= u64::MAX
    &&& reals::precise(k, r, Op::Times, arith::TWO, v_max)
    &&& reals::precise(k, r, Op::Whole, (n - kappa) as u64, 0)
    &&& reals::precise(k, r, Op::Times, a, b)
    &&& reals::precise(k, r, Op::Whole, kappa as u64, 0)
    &&& reals::precise(k, r, Op::Over, c, d)
}

/// The bound that holds at every temperature, times the number of rows at
/// the largest score, is twice the largest value for each row below.
pub proof fn trivial_bound_counts_the_rows_below(
    k: arith::Calc,
    r: Reading,
    v_max: u64,
    n: nat,
    kappa: nat,
)
    requires
        bounds_precisely(k, r, v_max, n, kappa),
    ensures
        (r.val)(semiring::trivial_bound(k, v_max, n, kappa)) * kappa as real == 2 as real * (r.val)(
            v_max,
        ) * (n - kappa) as real,
{
    let x = 2 as real * (r.val)(v_max) * (n - kappa) as real;
    let d = k(Op::Whole, kappa as u64, 0);
    assert((kappa as u64) as real == kappa as real);
    assert(((n - kappa) as u64) as real == (n - kappa) as real);
    reals::lemma_quotient(x, kappa as real, x / kappa as real);
}

/// At the certified temperature the bound is exactly what was asked for:
/// the bound that always holds is `delta * e^(gap / eps)`.
pub proof fn certified_temperature_meets_the_target(
    k: arith::Calc,
    r: Reading,
    delta: u64,
    gap: u64,
    v_max: u64,
    n: nat,
    kappa: nat,
)
    requires
        reals::logarithm(r),
        ({
            let t = semiring::trivial_bound(k, v_max, n, kappa);
            let q = k(Op::Over, t, delta);
            let l = k(Op::Ln, q, 0);
            &&& (r.val)(t) > 0 as real
            &&& (r.val)(delta) > 0 as real
            &&& (r.val)(gap) != 0 as real
            &&& reals::precise(k, r, Op::Over, t, delta)
            &&& reals::precise(k, r, Op::Ln, q, 0)
            &&& reals::precise(k, r, Op::Over, gap, l)
        }),
    ensures
        (r.val)(delta) * (r.exp)(
            (r.val)(gap) / (r.val)(semiring::critical(k, delta, gap, v_max, n, kappa)),
        ) == (r.val)(semiring::trivial_bound(k, v_max, n, kappa)),
{
    let t = (r.val)(semiring::trivial_bound(k, v_max, n, kappa));
    let (d, g) = ((r.val)(delta), (r.val)(gap));
    let q = t / d;
    reals::lemma_quotient(t, d, q);
    assert(q > 0 as real) by (nonlinear_arith)
        requires
            q * d == t,
            t > 0 as real,
            d > 0 as real,
    ;
    let l = (r.ln)(q);
    let e = g / l;
    reals::lemma_quotient(g, l, e);
    if e == 0 as real {
        reals::lemma_units(l);
    }
    // l * e == g, so g / e == l
    reals::lemma_regroup(e, l, d);
    reals::lemma_quotient(g, e, l);
    assert((r.exp)(l) == q);
    reals::lemma_regroup(q, d, d);
}

// ---------------------------------------------------------------- soft bound

proof fn lemma_below(s: Seq<u64>, m: u64)
    ensures
        forall|i: int|
            0 <= i < s.len() && bits::num_lt(#[trigger] s[i], m) ==> semiring::below(s, m).contains(
                s[i],
            ),
        forall|j: int|
            0 <= j < semiring::below(s, m).len() ==> s.contains(
                #[trigger] semiring::below(s, m)[j],
            ) && bits::num_lt(semiring::below(s, m)[j], m),
    decreases s.len(),
{
    if s.len() > 0 {
        let f = s.drop_last();
        let b = semiring::below(s, m);
        let c = semiring::below(f, m);
        lemma_below(f, m);
        assert forall|i: int| 0 <= i < s.len() && bits::num_lt(#[trigger] s[i], m) implies b.contains(
            s[i],
        ) by {
            if i < f.len() {
                assert(f[i] == s[i]);
                assert(c.contains(f[i]));
                let j = choose|j: int| 0 <= j < c.len() && c[j] == f[i];
                assert(b[j] == s[i]);
            } else {
                assert(b[b.len() - 1] == s[i]);
            }
        }
        assert forall|j: int| 0 <= j < b.len() implies s.contains(#[trigger] b[j]) && bits::num_lt(
            b[j],
            m,
        ) by {
            if j < c.len() {
                assert(b[j] == c[j]);
                assert(f.contains(c[j]));
                let i = choose|i: int| 0 <= i < f.len() && f[i] == c[j];
                assert(s[i] == b[j]);
            } else {
                assert(s[s.len() - 1] == b[j]);
            }
        }
    }
}

/// `next` is the largest score below `m`.
pub open spec fn next_below(s: Seq<u64>, m: u64, next: u64) -> bool {
    &&& s.contains(next)
    &&& bits::num_lt(next, m)
    &&& forall|i: int|
        0 <= i < s.len() && bits::num_lt(#[trigger] s[i], m) ==> bits::rank(s[i]) <= bits::rank(next)
}

proof fn lemma_some_below(s: Seq<u64>, m: u64)
    requires
        semiring::count_at(s, m) < s.len(),
        !bits::nan(m),
        forall|i: int|
            0 <= i < s.len() ==> !bits::nan(#[trigger] s[i]) && bits::rank(s[i]) <= bits::rank(m),
    ensures
        semiring::below(s, m).len() > 0,
    decreases s.len(),
{
    if s.len() > 0 {
        let f = s.drop_last();
        assert forall|i: int| 0 <= i < f.len() implies !bits::nan(#[trigger] f[i]) && bits::rank(f[i])
            <= bits::rank(m) by {
            assert(f[i] == s[i]);
        }
        assert(s[s.len() - 1] == s.last());
        if bits::num_eq(s.last(), m) {
            lemma_some_below(f, m);
        }
    }
}

/// The bound is the one for the distance between the largest score and the
/// next below: times `e^(distance / eps)` it is the bound that always holds.
pub proof fn soft_bound_falls_off_with_the_gap(
    k: arith::Calc,
    r: Reading,
    s: Seq<u64>,
    v_max: u64,
    eps: Eps,
) -> (next: u64)
    requires
        fold::tempered(eps),
        s.len() > 0,
        reals::constants(r),
        reals::exponential(r),
        forall|i: int| 0 <= i < s.len() ==> bits::finite(#[trigger] s[i]),
        semiring::count_at(s, semiring::peak(s)) < s.len(),
        ({
            let m = semiring::peak(s);
            let kappa = semiring::count_at(s, m);
            let t = semiring::trivial_bound(k, v_max, s.len(), kappa);
            let gap = k(Op::Minus, m, semiring::peak(semiring::below(s, m)));
            let q = k(Op::Over, bits::negated(gap), eps.0);
            &&& reals::precise(k, r, Op::Minus, m, semiring::peak(semiring::below(s, m)))
            &&& reals::precise(k, r, Op::Over, bits::negated(gap), eps.0)
            &&& reals::precise(k, r, Op::Exp, q, 0)
            &&& reals::precise(k, r, Op::Times, t, k(Op::Exp, q, 0))
        }),
    ensures
        next_below(s, semiring::peak(s), next),
        ({
            let m = semiring::peak(s);
            let kappa = semiring::count_at(s, m);
            (r.val)(semiring::soft_bound(k, s, v_max, eps)) * (r.exp)(
                ((r.val)(m) - (r.val)(next)) / (r.val)(eps.0),
            ) == (r.val)(semiring::trivial_bound(k, v_max, s.len(), kappa))
        }),
{
    let m = semiring::peak(s);
    let b = semiring::below(s, m);
    assert forall|i: int| 0 <= i < s.len() implies !bits::nan(#[trigger] s[i]) && bits::rank(s[i])
        <= bits::rank(m) by {
        semiring::peak_is_the_largest_score(s, i);
    }
    semiring::lemma_peak(s);
    assert(bits::finite(s[0]));
    lemma_some_below(s, m);
    lemma_below(s, m);
    assert forall|j: int| 0 <= j < b.len() implies !bits::nan(#[trigger] b[j]) by {
        assert(s.contains(b[j]));
    }
    semiring::lemma_peak(b);
    let next = semiring::peak(b);
    assert(b.contains(next)) by {
        assert(s.contains(b[0]));
        semiring::peak_is_the_largest_score(b, 0);
    }
    assert forall|i: int| 0 <= i < s.len() && bits::num_lt(#[trigger] s[i], m) implies bits::rank(
        s[i],
    ) <= bits::rank(next) by {
        let j = choose|j: int| 0 <= j < b.len() && b[j] == s[i];
        semiring::peak_is_the_largest_score(b, j);
    }
    let (g, e) = ((r.val)(m) - (r.val)(next), (r.val)(eps.0));
    assert((-g) / e == -(g / e)) by (nonlinear_arith)
        requires
            e != 0 as real,
    ;
    reals::lemma_exp(r, -(g / e), g / e);
    let t = (r.val)(semiring::trivial_bound(k, v_max, s.len(), semiring::count_at(s, m)));
    reals::lemma_regroup(t, (r.exp)(-(g / e)), (r.exp)(g / e));
    reals::lemma_units(t);
    next
}

/// The bound is zero where nothing is lost: in the tropical limit, and where
/// all scores tie.
pub proof fn soft_bound_vanishes(k: arith::Calc, s: Seq<u64>, v_max: u64, eps: Eps)
    requires
        eps.tropical() || forall|i: int|
            0 <= i < s.len() ==> bits::num_eq(#[trigger] s[i], semiring::peak(s)),
    ensures
        semiring::soft_bound(k, s, v_max, eps) == arith::ZERO,
{
    if !eps.tropical() {
        lemma_all_at(s, semiring::peak(s));
    }
}

proof fn lemma_all_at(s: Seq<u64>, m: u64)
    requires
        forall|i: int| 0 <= i < s.len() ==> bits::num_eq(#[trigger] s[i], m),
    ensures
        semiring::count_at(s, m) == s.len(),
    decreases s.len(),
{
    if s.len() > 0 {
        let f = s.drop_last();
        assert forall|i: int| 0 <= i < f.len() implies bits::num_eq(#[trigger] f[i], m) by {
            assert(f[i] == s[i]);
        }
        lemma_all_at(f, m);
        assert(s[s.len() - 1] == s.last());
    }
}

/// In the uniform limit the bound is the one that always holds.
pub proof fn soft_bound_is_trivial_in_the_uniform_limit(
    k: arith::Calc,
    s: Seq<u64>,
    v_max: u64,
    eps: Eps,
)
    requires
        eps.uniform(),
        !eps.tropical(),
        s.len() > 0,
        bits::finite(semiring::peak(s)),
        semiring::count_at(s, semiring::peak(s)) < s.len(),
    ensures
        semiring::soft_bound(k, s, v_max, eps) == semiring::trivial_bound(
            k,
            v_max,
            s.len(),
            semiring::count_at(s, semiring::peak(s)),
        ),
{
}

// ------------------------------------------------------------- dequantization

/// The scores are read in their order, and the exponential rises.
pub open spec fn ordered(r: Reading, s: Seq<u64>, m: u64, next: u64) -> bool {
    &&& forall|i: int|
        0 <= i < s.len() && bits::num_eq(#[trigger] s[i], m) ==> (r.val)(s[i]) == (r.val)(m)
    &&& forall|i: int|
        0 <= i < s.len() && !bits::num_eq(#[trigger] s[i], m) ==> (r.val)(s[i]) <= (r.val)(next)
    &&& forall|x: real, y: real|
        #![trigger (r.exp)(x), (r.exp)(y)]
        x <= y ==> (r.exp)(x) <= (r.exp)(y)
}

/// The sum of the values at `m`.
pub open spec fn top_sum(r: Reading, s: Seq<u64>, v: Seq<u64>, m: u64) -> real
    decreases s.len(),
{
    if s.len() == 0 {
        0 as real
    } else {
        top_sum(r, s.drop_last(), v, m) + (if bits::num_eq(s.last(), m) {
            (r.val)(v[s.len() - 1])
        } else {
            0 as real
        })
    }
}

/// What a score counts, relative to the anchor.
spec fn relative(r: Reading, s: u64, m: u64, eps: Eps) -> real {
    (r.exp)(((r.val)(s) - (r.val)(m)) / (r.val)(eps.0))
}

spec fn low_counts(r: Reading, s: Seq<u64>, m: u64, eps: Eps) -> real
    decreases s.len(),
{
    if s.len() == 0 {
        0 as real
    } else {
        low_counts(r, s.drop_last(), m, eps) + (if bits::num_eq(s.last(), m) {
            0 as real
        } else {
            relative(r, s.last(), m, eps)
        })
    }
}

spec fn low_portions(r: Reading, s: Seq<u64>, v: Seq<u64>, m: u64, eps: Eps) -> real
    decreases s.len(),
{
    if s.len() == 0 {
        0 as real
    } else {
        low_portions(r, s.drop_last(), v, m, eps) + (if bits::num_eq(s.last(), m) {
            0 as real
        } else {
            relative(r, s.last(), m, eps) * (r.val)(v[s.len() - 1])
        })
    }
}

/// `-b <= a <= b`.
spec fn within(a: real, b: real) -> bool {
    -b <= a <= b
}

proof fn lemma_within_product(x: real, a: real, b: real)
    requires
        x >= 0 as real,
        within(a, b),
    ensures
        within(x * a, x * b),
{
    assert(x * a <= x * b) by (nonlinear_arith)
        requires
            x >= 0 as real,
            a <= b,
    ;
    assert(x * (-b) <= x * a) by (nonlinear_arith)
        requires
            x >= 0 as real,
            -b <= a,
    ;
    assert(x * (-b) == -(x * b)) by (nonlinear_arith);
}

proof fn lemma_parts(
    r: Reading,
    s: Seq<u64>,
    v: Seq<u64>,
    m: u64,
    next: u64,
    big: real,
    eps: Eps,
)
    requires
        reals::exponential(r),
        ordered(r, s, m, next),
        bits::finite(m),
        forall|i: int| 0 <= i < s.len() ==> bits::finite(#[trigger] s[i]),
        (r.val)(eps.0) > 0 as real,
        v.len() >= s.len(),
        forall|i: int| 0 <= i < s.len() ==> within((r.val)(#[trigger] v[i]), big),
    ensures
        ({
            let c = totals::count_of(r, m, eps);
            let kappa = semiring::count_at(s, m) as real;
            let e = relative(r, next, m, eps);
            let low = low_counts(r, s, m, eps);
            &&& semiring::count_at(s, m) <= s.len()
            &&& rsum(totals::counts(r, s, eps)) == c * (kappa + low)
            &&& rsum(totals::portions(r, s, v, eps)) == c * (top_sum(r, s, v, m) + low_portions(
                r,
                s,
                v,
                m,
                eps,
            ))
            &&& 0 as real <= low <= (s.len() - semiring::count_at(s, m)) as real * e
            &&& within(low_portions(r, s, v, m, eps), low * big)
            &&& within(top_sum(r, s, v, m), kappa * big)
        }),
    decreases s.len(),
{
    let c = totals::count_of(r, m, eps);
    let e = relative(r, next, m, eps);
    if s.len() == 0 {
        reals::lemma_units(c);
        reals::lemma_units(e);
        reals::lemma_units(big);
    } else {
        let f = s.drop_last();
        let n = f.len();
        let p = s.last();
        assert(s[n as int] == p);
        assert forall|i: int| 0 <= i < f.len() implies #[trigger] f[i] == s[i] by {}
        lemma_parts(r, f, v, m, next, big, eps);
        let y = (r.val)(v[n as int]);
        assert(within(y, big));
        assert(totals::counts(r, s, eps).drop_last() =~= totals::counts(r, f, eps));
        assert(totals::portions(r, s, v, eps).drop_last() =~= totals::portions(r, f, v, eps));
        let x = relative(r, p, m, eps);
        let (a, b, d) = ((r.val)(p), (r.val)(m), (r.val)(eps.0));
        assert((a - b) / d + b / d == a / d) by (nonlinear_arith)
            requires
                d != 0 as real,
        ;
        reals::lemma_exp(r, (a - b) / d, b / d);
        reals::lemma_regroup(x, c, y);
        // what the row counts is c * x
        assert(totals::count_of(r, p, eps) == c * x);
        reals::lemma_regroup(c, x, y);
        let kappa = semiring::count_at(f, m) as real;
        let low = low_counts(r, f, m, eps);
        let (t, q) = (top_sum(r, f, v, m), low_portions(r, f, v, m, eps));
        reals::lemma_spread(kappa + low, 1 as real, c);
        reals::lemma_spread(kappa + low, x, c);
        reals::lemma_spread(t + q, y, c);
        reals::lemma_spread(t + q, x * y, c);
        reals::lemma_spread(kappa, 1 as real, big);
        reals::lemma_spread(low, x, big);
        reals::lemma_units(big);
        reals::lemma_units(c);
        reals::lemma_units(y);
        let rest = (f.len() - semiring::count_at(f, m)) as real;
        reals::lemma_spread(rest, 1 as real, e);
        reals::lemma_units(e);
        if bits::num_eq(p, m) {
            assert(a == b);
            assert(0 as real / d == 0 as real) by (nonlinear_arith)
                requires
                    d != 0 as real,
            ;
            assert(x == 1 as real);
            assert((semiring::count_at(s, m)) as real == kappa + 1 as real);
            assert((s.len() - semiring::count_at(s, m)) as real == rest);
        } else {
            assert(a <= (r.val)(next));
            let z = (r.val)(next);
            assert((a - b) / d <= (z - b) / d) by (nonlinear_arith)
                requires
                    d > 0 as real,
                    a <= z,
            ;
            assert(x <= e);
            lemma_within_product(x, y, big);
            assert((s.len() - semiring::count_at(s, m)) as real == rest + 1 as real);
        }
    }
}

/// Twice `b` at most.
proof fn lemma_gap(
    soft: real,
    hard: real,
    kappa: real,
    low: real,
    t: real,
    q: real,
    big: real,
    most: real,
)
    requires
        kappa > 0 as real,
        0 as real <= low <= most,
        big >= 0 as real,
        soft * (kappa + low) == t + q,
        hard * kappa == t,
        within(q, low * big),
        within(t, kappa * big),
    ensures
        within((soft - hard) * kappa, 2 as real * (most * big)),
{
    // |hard| <= big
    assert(hard <= big) by (nonlinear_arith)
        requires
            kappa > 0 as real,
            hard * kappa <= kappa * big,
    ;
    assert(hard >= -big) by (nonlinear_arith)
        requires
            kappa > 0 as real,
            hard * kappa >= -(kappa * big),
    ;
    lemma_within_product(low, hard, big);
    let d = soft - hard;
    reals::lemma_spread(soft, -hard, kappa + low);
    reals::lemma_spread(kappa, low, hard);
    reals::lemma_regroup(hard, kappa, low);
    reals::lemma_regroup(hard, low, low);
    assert((-hard) * (kappa + low) == -(hard * (kappa + low))) by (nonlinear_arith);
    assert(d * (kappa + low) == q - low * hard);
    let w = low * big;
    assert(within(d * (kappa + low), 2 as real * w));
    assert(low * big <= most * big) by (nonlinear_arith)
        requires
            low <= most,
            big >= 0 as real,
    ;
    reals::lemma_spread(kappa, low, d);
    reals::lemma_regroup(d, kappa, low);
    reals::lemma_regroup(d, low, low);
    if d >= 0 as real {
        assert(d * low >= 0 as real) by (nonlinear_arith)
            requires
                d >= 0 as real,
                low >= 0 as real,
        ;
        assert(d * kappa >= 0 as real) by (nonlinear_arith)
            requires
                d >= 0 as real,
                kappa > 0 as real,
        ;
    } else {
        assert(d * low <= 0 as real) by (nonlinear_arith)
            requires
                d < 0 as real,
                low >= 0 as real,
        ;
        assert(d * kappa <= 0 as real) by (nonlinear_arith)
            requires
                d < 0 as real,
                kappa > 0 as real,
        ;
    }
    assert(most * big >= 0 as real) by (nonlinear_arith)
        requires
            most >= 0 as real,
            big >= 0 as real,
    ;
}

/// The soft answer is within the bound of the tropical one. `soft` is the
/// mean of the values weighted by `e^(score / eps)`, `hard` the plain mean
/// of those at the largest score.
pub proof fn soft_answer_is_within_the_bound(
    k: arith::Calc,
    r: Reading,
    s: Seq<u64>,
    v: Seq<u64>,
    v_max: u64,
    eps: Eps,
    soft: real,
    hard: real,
)
    requires
        fold::tempered(eps),
        0 < s.len() == v.len(),
        reals::constants(r),
        reals::exponential(r),
        (r.val)(eps.0) > 0 as real,
        forall|i: int| 0 <= i < s.len() ==> bits::finite(#[trigger] s[i]),
        0 < semiring::count_at(s, semiring::peak(s)) < s.len(),
        forall|i: int|
            0 <= i < v.len() ==> -(r.val)(v_max) <= (r.val)(#[trigger] v[i]) <= (r.val)(v_max),
        (r.val)(v_max) >= 0 as real,
        ({
            let m = semiring::peak(s);
            let kappa = semiring::count_at(s, m);
            let t = semiring::trivial_bound(k, v_max, s.len(), kappa);
            let next = semiring::peak(semiring::below(s, m));
            let gap = k(Op::Minus, m, next);
            let q = k(Op::Over, bits::negated(gap), eps.0);
            &&& bounds_precisely(k, r, v_max, s.len(), kappa)
            &&& reals::precise(k, r, Op::Minus, m, next)
            &&& reals::precise(k, r, Op::Over, bits::negated(gap), eps.0)
            &&& reals::precise(k, r, Op::Exp, q, 0)
            &&& reals::precise(k, r, Op::Times, t, k(Op::Exp, q, 0))
            &&& ordered(r, s, m, next)
            &&& hard * kappa as real == top_sum(r, s, v, m)
        }),
        soft * rsum(totals::counts(r, s, eps)) == rsum(totals::portions(r, s, v, eps)),
    ensures
        -(r.val)(semiring::soft_bound(k, s, v_max, eps)) <= soft - hard <= (r.val)(
            semiring::soft_bound(k, s, v_max, eps),
        ),
{
    let m = semiring::peak(s);
    let count = semiring::count_at(s, m);
    let kappa = count as real;
    let next = semiring::peak(semiring::below(s, m));
    let big = (r.val)(v_max);
    assert(bits::finite(s[0]));
    totals::lemma_top(s);
    lemma_parts(r, s, v, m, next, big, eps);
    let c = totals::count_of(r, m, eps);
    let low = low_counts(r, s, m, eps);
    let (t, q) = (top_sum(r, s, v, m), low_portions(r, s, v, m, eps));
    reals::lemma_exp(r, (r.val)(m) / (r.val)(eps.0), 0 as real);
    // soft * (c * x) == c * y, so soft * x == y
    let (x, y) = (kappa + low, t + q);
    reals::lemma_regroup(soft, c, x);
    reals::lemma_regroup(c, soft, x);
    reals::lemma_regroup(c, soft * x, 1 as real);
    reals::lemma_regroup(c, y, 1 as real);
    reals::lemma_quotient(y * c, c, y);
    reals::lemma_quotient(y * c, c, soft * x);
    let rest = (s.len() - count) as real;
    let e = relative(r, next, m, eps);
    let most = rest * e;
    lemma_gap(soft, hard, kappa, low, t, q, big, most);
    // the bound
    totals::lemma_top(s);
    trivial_bound_counts_the_rows_below(k, r, v_max, s.len(), count);
    let bound = (r.val)(semiring::soft_bound(k, s, v_max, eps));
    let all = (r.val)(semiring::trivial_bound(k, v_max, s.len(), count));
    let (g, d) = ((r.val)(m) - (r.val)(next), (r.val)(eps.0));
    assert((-g) / d == ((r.val)(next) - (r.val)(m)) / d);
    assert(bound == all * e);
    // bound * kappa == (all * kappa) * e == 2 * (most * big)
    reals::lemma_regroup(all, e, kappa);
    reals::lemma_regroup(e, kappa, all);
    reals::lemma_regroup(all, kappa, e);
    assert(bound * kappa == (all * kappa) * e);
    reals::lemma_regroup(2 as real * big, rest, e);
    reals::lemma_regroup(2 as real, big, rest * e);
    reals::lemma_regroup(big, rest * e, e);
    let b = soft - hard;
    assert(within(b * kappa, bound * kappa));
    assert(b <= bound) by (nonlinear_arith)
        requires
            kappa > 0 as real,
            b * kappa <= bound * kappa,
    ;
    assert(b >= -bound) by (nonlinear_arith)
        requires
            kappa > 0 as real,
            b * kappa >= -(bound * kappa),
    ;
}

/// A certified temperature is given exactly for positive numbers, a number
/// of rows at the maximum from one up to all but one, and a target below the
/// bound that always holds.
pub proof fn certified_temperature_is_given_below_the_trivial_bound(
    k: arith::Calc,
    sh: semiring::Shown,
    delta: u64,
    gap: u64,
    v_max: u64,
    n: nat,
    kappa: nat,
)
    requires
        !bits::nan(semiring::trivial_bound(k, v_max, n, kappa)),
    ensures
        semiring::eps_star_error(k, sh, delta, gap, v_max, n, kappa) is None <==> bits::finite(delta)
            && bits::finite(gap) && bits::finite(v_max) && bits::num_lt(0, delta) && bits::num_lt(
            0,
            gap,
        ) && bits::num_lt(0, v_max) && 1 <= kappa < n && bits::num_lt(
            delta,
            semiring::trivial_bound(k, v_max, n, kappa),
        ),
{
}

} // verus!
