//! The log-semiring (softmax) and the tropical semiring (max-plus).

use vstd::prelude::*;

use crate::arith;
use crate::arith::{apply_op, max, weigh, Op};
use crate::bits;
use crate::bits::{eq, is_finite, lt, neg};
use crate::error;
use crate::error::BruceError;
use crate::text;
use crate::text::push_dec;
use crate::types::Eps;

verus! {

/// The largest score; minus infinity where there is none. NaNs are passed
/// over.
pub open spec fn peak(s: Seq<u64>) -> u64
    decreases s.len(),
{
    if s.len() == 0 {
        bits::NEG_INF
    } else {
        arith::larger(peak(s.drop_last()), s.last())
    }
}

/// How many scores equal `m`.
pub open spec fn count_at(s: Seq<u64>, m: u64) -> nat
    decreases s.len(),
{
    if s.len() == 0 {
        0
    } else {
        count_at(s.drop_last(), m) + (if bits::num_eq(s.last(), m) {
            1nat
        } else {
            0nat
        })
    }
}

/// How many scores are finite.
pub open spec fn count_finite(s: Seq<u64>) -> nat
    decreases s.len(),
{
    if s.len() == 0 {
        0
    } else {
        count_finite(s.drop_last()) + (if bits::finite(s.last()) {
            1nat
        } else {
            0nat
        })
    }
}

/// The weights of scores under an anchor.
pub open spec fn weights(k: arith::Calc, s: Seq<u64>, m: u64, eps: Eps) -> Seq<u64> {
    Seq::new(s.len(), |i: int| arith::weight(k, s[i], m, eps.0))
}

/// The sum, taken in order.
pub open spec fn total(k: arith::Calc, s: Seq<u64>) -> u64
    decreases s.len(),
{
    if s.len() == 0 {
        arith::ZERO
    } else {
        k(Op::Plus, total(k, s.drop_last()), s.last())
    }
}

/// The largest score.
pub fn peak_of(s: &[u64]) -> (m: u64)
    ensures
        m == peak(s@),
{
    let mut m: u64 = bits::NEG_INF;
    let mut i: usize = 0;
    while i < s.len()
        invariant
            i <= s@.len(),
            m == peak(s@.take(i as int)),
        decreases s.len() - i,
    {
        assert(s@.take(i + 1).drop_last() =~= s@.take(i as int));
        m = max(m, s[i]);
        i += 1;
    }
    assert(s@.take(i as int) =~= s@);
    m
}

/// How many scores equal `m`.
pub fn count_of(s: &[u64], m: u64) -> (n: usize)
    ensures
        n == count_at(s@, m),
        n <= s@.len(),
{
    let mut n: usize = 0;
    let mut i: usize = 0;
    while i < s.len()
        invariant
            i <= s@.len(),
            n <= i,
            n == count_at(s@.take(i as int), m),
        decreases s.len() - i,
    {
        assert(s@.take(i + 1).drop_last() =~= s@.take(i as int));
        if eq(s[i], m) {
            n += 1;
        }
        i += 1;
    }
    assert(s@.take(i as int) =~= s@);
    n
}

fn finite_of(s: &[u64]) -> (n: usize)
    ensures
        n == count_finite(s@),
{
    let mut n: usize = 0;
    let mut i: usize = 0;
    while i < s.len()
        invariant
            i <= s@.len(),
            n <= i,
            n == count_finite(s@.take(i as int)),
        decreases s.len() - i,
    {
        assert(s@.take(i + 1).drop_last() =~= s@.take(i as int));
        if is_finite(s[i]) {
            n += 1;
        }
        i += 1;
    }
    assert(s@.take(i as int) =~= s@);
    n
}

/// The weights of scores under an anchor, and their sum.
pub fn weigh_all<F: Fn(Op, u64, u64) -> u64>(s: &[u64], m: u64, eps: Eps, f: &F) -> (r: (
    Vec<u64>,
    u64,
))
    requires
        arith::steady(*f),
    ensures
        r.0@ == weights(arith::computes(*f), s@, m, eps),
        r.1 == total(arith::computes(*f), r.0@),
{
    let ghost k = arith::computes(*f);
    let ghost want = weights(k, s@, m, eps);
    let mut w: Vec<u64> = Vec::new();
    let mut z: u64 = arith::ZERO;
    let mut i: usize = 0;
    while i < s.len()
        invariant
            i <= s@.len(),
            arith::steady(*f),
            k == arith::computes(*f),
            want == weights(k, s@, m, eps),
            w@ == want.take(i as int),
            z == total(k, w@),
        decreases s.len() - i,
    {
        let x: u64 = weigh(f, s[i], m, eps.0);
        let ghost before = w@;
        w.push(x);
        assert(w@.drop_last() =~= before);
        z = apply_op(f, Op::Plus, z, x);
        i += 1;
        assert(w@ =~= want.take(i as int));
    }
    assert(w@ =~= want);
    (w, z)
}

/// `eps * ln(sum of e^(x / eps))`, shifted by the largest score: the largest
/// score itself in the tropical limit or where it is infinite.
pub open spec fn logsumexp(k: arith::Calc, s: Seq<u64>, eps: Eps) -> u64 {
    let m = peak(s);
    if s.len() == 0 || eps.tropical() || !bits::finite(m) {
        m
    } else {
        k(
            Op::Plus,
            m,
            k(Op::Times, eps.0, k(Op::Ln, total(k, weights(k, s, m, eps)), 0)),
        )
    }
}

/// Numerically stable log-sum-exp at a temperature.
pub fn logsumexp_eps<F: Fn(Op, u64, u64) -> u64>(scores: &[u64], eps: Eps, f: &F) -> (r: u64)
    requires
        arith::steady(*f),
    ensures
        r == logsumexp(arith::computes(*f), scores@, eps),
{
    if scores.len() == 0 {
        return bits::NEG_INF;
    }
    let m: u64 = peak_of(scores);
    if eps.is_zero() || !is_finite(m) {
        return m;
    }
    let (_w, z) = weigh_all(scores, m, eps, f);
    let l: u64 = apply_op(f, Op::Ln, z, 0);
    let t: u64 = apply_op(f, Op::Times, eps.0, l);
    apply_op(f, Op::Plus, m, t)
}

/// Softmax weights at a temperature. In the tropical limit they are uniform
/// over the rows at the maximum. Where the weights do not sum to a positive
/// finite number they are uniform over the finite scores.
pub open spec fn softmax(k: arith::Calc, s: Seq<u64>, eps: Eps) -> Seq<u64> {
    let m = peak(s);
    if eps.tropical() {
        let share = k(Op::Over, arith::ONE, k(Op::Whole, count_at(s, m) as u64, 0));
        Seq::new(
            s.len(),
            |i: int|
                if bits::num_eq(s[i], m) {
                    share
                } else {
                    arith::ZERO
                },
        )
    } else {
        let w = weights(k, s, m, eps);
        let z = total(k, w);
        if bits::num_eq(z, arith::ZERO) || !bits::finite(z) {
            let share = k(Op::Over, arith::ONE, k(Op::Whole, count_finite(s) as u64, 0));
            Seq::new(
                s.len(),
                |i: int|
                    if bits::finite(s[i]) {
                        share
                    } else {
                        arith::ZERO
                    },
            )
        } else {
            Seq::new(s.len(), |i: int| k(Op::Over, w[i], z))
        }
    }
}

/// Softmax weights at a temperature.
pub fn softmax_eps<F: Fn(Op, u64, u64) -> u64>(scores: &[u64], eps: Eps, f: &F) -> (r: Vec<u64>)
    requires
        arith::steady(*f),
    ensures
        r@ == softmax(arith::computes(*f), scores@, eps),
{
    let ghost k = arith::computes(*f);
    let ghost want = softmax(k, scores@, eps);
    let n: usize = scores.len();
    let mut r: Vec<u64> = Vec::new();
    if n == 0 {
        assert(r@ =~= want);
        return r;
    }
    let m: u64 = peak_of(scores);
    if eps.is_zero() {
        let c: u64 = apply_op(f, Op::Whole, count_of(scores, m) as u64, 0);
        let share: u64 = apply_op(f, Op::Over, arith::ONE, c);
        let mut i: usize = 0;
        while i < n
            invariant
                i <= n == scores@.len(),
                r@.len() == i,
                want.len() == n,
                forall|t: int|
                    0 <= t < n ==> #[trigger] want[t] == (if bits::num_eq(scores@[t], m) {
                        share
                    } else {
                        arith::ZERO
                    }),
                r@ == want.take(i as int),
            decreases n - i,
        {
            let x: u64 = if eq(scores[i], m) {
                share
            } else {
                arith::ZERO
            };
            assert(want[i as int] == x);
            r.push(x);
            i += 1;
            assert(r@ =~= want.take(i as int));
        }
        assert(r@ =~= want);
        return r;
    }
    let (w, z) = weigh_all(scores, m, eps, f);
    if eq(z, arith::ZERO) || !is_finite(z) {
        let c: u64 = apply_op(f, Op::Whole, finite_of(scores) as u64, 0);
        let share: u64 = apply_op(f, Op::Over, arith::ONE, c);
        let mut i: usize = 0;
        while i < n
            invariant
                i <= n == scores@.len(),
                r@.len() == i,
                want.len() == n,
                forall|t: int|
                    0 <= t < n ==> #[trigger] want[t] == (if bits::finite(scores@[t]) {
                        share
                    } else {
                        arith::ZERO
                    }),
                r@ == want.take(i as int),
            decreases n - i,
        {
            let x: u64 = if is_finite(scores[i]) {
                share
            } else {
                arith::ZERO
            };
            assert(want[i as int] == x);
            r.push(x);
            i += 1;
            assert(r@ =~= want.take(i as int));
        }
        assert(r@ =~= want);
        return r;
    }
    let mut i: usize = 0;
    while i < n
        invariant
            i <= n == w@.len(),
            arith::steady(*f),
            k == arith::computes(*f),
            r@.len() == i,
            want.len() == n,
            forall|t: int| 0 <= t < n ==> #[trigger] want[t] == k(Op::Over, w@[t], z),
            r@ == want.take(i as int),
        decreases n - i,
    {
        let x: u64 = apply_op(f, Op::Over, w[i], z);
        assert(want[i as int] == x);
        r.push(x);
        i += 1;
        assert(r@ =~= want.take(i as int));
    }
    assert(r@ =~= want);
    r
}

/// The values of the rows at `m`, summed in order.
pub open spec fn sum_at(k: arith::Calc, s: Seq<u64>, v: Seq<u64>, m: u64) -> u64
    decreases s.len(),
{
    if s.len() == 0 {
        arith::ZERO
    } else {
        let a = sum_at(k, s.drop_last(), v, m);
        if bits::num_eq(s.last(), m) {
            k(Op::Plus, a, v[s.len() - 1])
        } else {
            a
        }
    }
}

/// The weighted values, summed in order.
pub open spec fn weighted_sum(k: arith::Calc, s: Seq<u64>, v: Seq<u64>, m: u64, eps: Eps) -> u64
    decreases s.len(),
{
    if s.len() == 0 {
        arith::ZERO
    } else {
        k(
            Op::Plus,
            weighted_sum(k, s.drop_last(), v, m, eps),
            k(Op::Times, arith::weight(k, s.last(), m, eps.0), v[s.len() - 1]),
        )
    }
}

/// The unnormalised sum `sum of w * v`: over the rows at the maximum in the
/// tropical limit, else with the weights `e^(s / eps)`.
pub open spec fn raw_sum(k: arith::Calc, s: Seq<u64>, v: Seq<u64>, eps: Eps) -> u64 {
    let m = peak(s);
    if s.len() == 0 {
        arith::ZERO
    } else if eps.tropical() {
        sum_at(k, s, v, m)
    } else {
        k(
            Op::Times,
            weighted_sum(k, s, v, m, eps),
            k(Op::Exp, k(Op::Over, m, eps.0), 0),
        )
    }
}

/// Sum aggregator at a temperature.
pub fn sum_eps<F: Fn(Op, u64, u64) -> u64>(
    scores: &[u64],
    values: &[u64],
    eps: Eps,
    f: &F,
) -> (r: u64)
    requires
        arith::steady(*f),
        scores@.len() == values@.len(),
    ensures
        r == raw_sum(arith::computes(*f), scores@, values@, eps),
{
    let ghost k = arith::computes(*f);
    if scores.len() == 0 {
        return arith::ZERO;
    }
    let m: u64 = peak_of(scores);
    let mut acc: u64 = arith::ZERO;
    let mut i: usize = 0;
    if eps.is_zero() {
        while i < scores.len()
            invariant
                i <= scores@.len(),
                scores@.len() == values@.len(),
                arith::steady(*f),
                k == arith::computes(*f),
                acc == sum_at(k, scores@.take(i as int), values@, m),
            decreases scores.len() - i,
        {
            assert(scores@.take(i + 1).drop_last() =~= scores@.take(i as int));
            if eq(scores[i], m) {
                acc = apply_op(f, Op::Plus, acc, values[i]);
            }
            i += 1;
        }
        assert(scores@.take(i as int) =~= scores@);
        return acc;
    }
    while i < scores.len()
        invariant
            i <= scores@.len(),
            scores@.len() == values@.len(),
            arith::steady(*f),
            k == arith::computes(*f),
            acc == weighted_sum(k, scores@.take(i as int), values@, m, eps),
        decreases scores.len() - i,
    {
        assert(scores@.take(i + 1).drop_last() =~= scores@.take(i as int));
        let w: u64 = weigh(f, scores[i], m, eps.0);
        let x: u64 = apply_op(f, Op::Times, w, values[i]);
        acc = apply_op(f, Op::Plus, acc, x);
        i += 1;
    }
    assert(scores@.take(i as int) =~= scores@);
    let q: u64 = apply_op(f, Op::Over, m, eps.0);
    let e: u64 = apply_op(f, Op::Exp, q, 0);
    apply_op(f, Op::Times, acc, e)
}

// ------------------------------------------------------ smoothing bounds

/// How numbers are written in messages.
pub type Shown = spec_fn(u64) -> Seq<char>;

/// How `show` writes each number.
pub open spec fn shows<D: Fn(u64) -> String>(show: D) -> Shown {
    |x: u64| choose|t: Seq<char>| writes(show, x, t)
}

/// `show` may write `x` as `t`.
pub open spec fn writes<D: Fn(u64) -> String>(show: D, x: u64, t: Seq<char>) -> bool {
    exists|s: String| #[trigger] call_ensures(show, (x,), s) && s@ == t
}

/// `show` writes every number, and the same number always the same.
pub open spec fn steady_shown<D: Fn(u64) -> String>(show: D) -> bool {
    &&& forall|x: u64| #[trigger] call_requires(show, (x,))
    &&& forall|x: u64, s: String, t: String|
        #[trigger] call_ensures(show, (x,), s) && #[trigger] call_ensures(show, (x,), t) ==> s@
            == t@
}

/// A number as `show` writes it.
pub fn shown<D: Fn(u64) -> String>(show: &D, x: u64) -> (s: String)
    requires
        steady_shown(*show),
    ensures
        s@ == shows(*show)(x),
{
    let s = show(x);
    assert(writes(*show, x, s@));
    s
}

/// Positive and finite.
pub open spec fn positive(x: u64) -> bool {
    bits::finite(x) && bits::num_lt(arith::ZERO, x)
}

fn is_positive(x: u64) -> (r: bool)
    ensures
        r == positive(x),
{
    is_finite(x) && lt(arith::ZERO, x)
}

/// The bound that holds at every temperature: `2 * v_max * (n - kappa) /
/// kappa`.
pub open spec fn trivial_bound(k: arith::Calc, v_max: u64, n: nat, kappa: nat) -> u64 {
    k(
        Op::Over,
        k(
            Op::Times,
            k(Op::Times, arith::TWO, v_max),
            k(Op::Whole, (n - kappa) as u64, 0),
        ),
        k(Op::Whole, kappa as u64, 0),
    )
}

fn bound_of<F: Fn(Op, u64, u64) -> u64>(v_max: u64, n: usize, kappa: usize, f: &F) -> (r: u64)
    requires
        arith::steady(*f),
        kappa <= n,
    ensures
        r == trivial_bound(arith::computes(*f), v_max, n as nat, kappa as nat),
{
    let a: u64 = apply_op(f, Op::Times, arith::TWO, v_max);
    let b: u64 = apply_op(f, Op::Whole, (n - kappa) as u64, 0);
    let c: u64 = apply_op(f, Op::Times, a, b);
    let d: u64 = apply_op(f, Op::Whole, kappa as u64, 0);
    apply_op(f, Op::Over, c, d)
}

/// What is wrong with a request for a certified temperature, if anything.
pub open spec fn eps_star_error(
    k: arith::Calc,
    sh: Shown,
    delta: u64,
    gap: u64,
    v_max: u64,
    n: nat,
    kappa: nat,
) -> Option<Seq<char>> {
    if !positive(delta) || !positive(gap) || !positive(v_max) {
        Some(
            "eps_star needs delta, gap, v_max > 0 (got "@ + sh(delta) + ", "@ + sh(gap) + ", "@
                + sh(v_max) + ")"@,
        )
    } else if kappa == 0 || kappa >= n {
        Some(
            "eps_star needs 1 <= kappa < n (got kappa = "@ + text::dec(kappa) + ", n = "@
                + text::dec(n) + ")"@,
        )
    } else {
        let t = trivial_bound(k, v_max, n, kappa);
        if bits::num_lt(t, delta) || bits::num_eq(delta, t) {
            Some(
                "delta = "@ + sh(delta) + " is at/above the trivial bound "@ + sh(t)
                    + "; any eps works"@,
            )
        } else {
            None
        }
    }
}

/// `gap / ln(2 v_max (n - kappa) / (kappa delta))`.
pub open spec fn critical(
    k: arith::Calc,
    delta: u64,
    gap: u64,
    v_max: u64,
    n: nat,
    kappa: nat,
) -> u64 {
    k(Op::Over, gap, k(Op::Ln, k(Op::Over, trivial_bound(k, v_max, n, kappa), delta), 0))
}

/// Certified-smoothing temperature: the largest that keeps the soft answer
/// within `delta` of the tropical one on every input with a score gap of at
/// least `gap`, at least `kappa` rows at the maximum, at most `n` rows and
/// values within `v_max`: `gap / ln(2 v_max (n - kappa) / (kappa delta))`.
pub fn eps_star<F: Fn(Op, u64, u64) -> u64, D: Fn(u64) -> String>(
    delta: u64,
    gap: u64,
    v_max: u64,
    n: usize,
    kappa: usize,
    f: &F,
    show: &D,
) -> (r: Result<u64, BruceError>)
    requires
        arith::steady(*f),
        steady_shown(*show),
    ensures
        match eps_star_error(
            arith::computes(*f),
            shows(*show),
            delta,
            gap,
            v_max,
            n as nat,
            kappa as nat,
        ) {
            Some(t) => error::fails(r, error::BruceErrorView::InvalidArgument(t)),
            None => r == Ok::<u64, BruceError>(
                critical(arith::computes(*f), delta, gap, v_max, n as nat, kappa as nat),
            ),
        },
{
    if !is_positive(delta) || !is_positive(gap) || !is_positive(v_max) {
        let mut s = String::from_str("eps_star needs delta, gap, v_max > 0 (got ");
        s.append(shown(show, delta).as_str());
        s.append(", ");
        s.append(shown(show, gap).as_str());
        s.append(", ");
        s.append(shown(show, v_max).as_str());
        s.append(")");
        return Err(BruceError::InvalidArgument(s));
    }
    if kappa == 0 || kappa >= n {
        let mut s = String::from_str("eps_star needs 1 <= kappa < n (got kappa = ");
        push_dec(&mut s, kappa as u64);
        s.append(", n = ");
        push_dec(&mut s, n as u64);
        s.append(")");
        return Err(BruceError::InvalidArgument(s));
    }
    let t: u64 = bound_of(v_max, n, kappa, f);
    if lt(t, delta) || eq(delta, t) {
        let mut s = String::from_str("delta = ");
        s.append(shown(show, delta).as_str());
        s.append(" is at/above the trivial bound ");
        s.append(shown(show, t).as_str());
        s.append("; any eps works");
        return Err(BruceError::InvalidArgument(s));
    }
    let q: u64 = apply_op(f, Op::Over, t, delta);
    let l: u64 = apply_op(f, Op::Ln, q, 0);
    Ok(apply_op(f, Op::Over, gap, l))
}

/// The scores below `m`.
pub open spec fn below(s: Seq<u64>, m: u64) -> Seq<u64>
    decreases s.len(),
{
    if s.len() == 0 {
        Seq::empty()
    } else {
        let r = below(s.drop_last(), m);
        if bits::num_lt(s.last(), m) {
            r.push(s.last())
        } else {
            r
        }
    }
}

/// The bound on how far the soft answer is from the tropical one:
/// `2 v_max (n - kappa) / kappa * e^(-gap / eps)`, with the multiplicity
/// `kappa` of the largest score and the gap to the next. Zero where all
/// scores tie, or in the tropical limit.
pub open spec fn soft_bound(k: arith::Calc, s: Seq<u64>, v_max: u64, eps: Eps) -> u64 {
    let m = peak(s);
    let kappa = count_at(s, m);
    if s.len() == 0 || eps.tropical() || !bits::finite(m) || kappa == s.len() {
        arith::ZERO
    } else {
        let t = trivial_bound(k, v_max, s.len(), kappa);
        let gap = k(Op::Minus, m, peak(below(s, m)));
        if eps.uniform() {
            t
        } else {
            k(Op::Times, t, k(Op::Exp, k(Op::Over, bits::negated(gap), eps.0), 0))
        }
    }
}

/// The bound on how far the soft answer is from the tropical one.
pub fn dequantization_bound<F: Fn(Op, u64, u64) -> u64>(
    scores: &[u64],
    v_max: u64,
    eps: Eps,
    f: &F,
) -> (r: u64)
    requires
        arith::steady(*f),
    ensures
        r == soft_bound(arith::computes(*f), scores@, v_max, eps),
{
    if scores.len() == 0 || eps.is_zero() {
        return arith::ZERO;
    }
    let m: u64 = peak_of(scores);
    if !is_finite(m) {
        return arith::ZERO;
    }
    let kappa: usize = count_of(scores, m);
    let n: usize = scores.len();
    if kappa == n {
        return arith::ZERO;
    }
    let mut rest: Vec<u64> = Vec::new();
    let mut i: usize = 0;
    while i < n
        invariant
            i <= n == scores@.len(),
            rest@ == below(scores@.take(i as int), m),
        decreases n - i,
    {
        assert(scores@.take(i + 1).drop_last() =~= scores@.take(i as int));
        if lt(scores[i], m) {
            rest.push(scores[i]);
        }
        i += 1;
    }
    assert(scores@.take(i as int) =~= scores@);
    let second: u64 = peak_of(rest.as_slice());
    let gap: u64 = apply_op(f, Op::Minus, m, second);
    let t: u64 = bound_of(v_max, n, kappa, f);
    if eps.is_inf() {
        return t;
    }
    let q: u64 = apply_op(f, Op::Over, neg(gap), eps.0);
    let e: u64 = apply_op(f, Op::Exp, q, 0);
    apply_op(f, Op::Times, t, e)
}

// ------------------------------------------------------------------ laws

/// No score exceeds the peak, and the peak is a score where any is a
/// number.
pub proof fn peak_is_the_largest_score(s: Seq<u64>, i: int)
    requires
        0 <= i < s.len(),
        !bits::nan(s[i]),
    ensures
        !bits::nan(peak(s)),
        bits::rank(s[i]) <= bits::rank(peak(s)),
        s.contains(peak(s)) || peak(s) == bits::NEG_INF,
    decreases s.len(),
{
    let r = s.drop_last();
    lemma_peak(s);
    if i < r.len() {
        assert(r[i] == s[i]);
        peak_is_the_largest_score(r, i);
    }
    lemma_peak(r);
}

/// The peak is a number, and a score unless there is none.
pub proof fn lemma_peak(s: Seq<u64>)
    ensures
        !bits::nan(peak(s)),
        s.contains(peak(s)) || peak(s) == bits::NEG_INF,
    decreases s.len(),
{
    if s.len() > 0 {
        let r = s.drop_last();
        lemma_peak(r);
        if bits::num_lt(peak(r), s.last()) {
            assert(s[s.len() - 1] == peak(s));
        } else if r.contains(peak(r)) {
            assert(s[r.index_of(peak(r))] == peak(s));
        }
    }
}

/// In the tropical limit every row at the maximum has the same share, and
/// every other row none.
pub proof fn tropical_softmax_is_uniform_over_the_maximum(
    k: arith::Calc,
    s: Seq<u64>,
    eps: Eps,
    i: int,
    j: int,
)
    requires
        eps.tropical(),
        0 <= i < s.len(),
        0 <= j < s.len(),
    ensures
        bits::num_eq(s[i], peak(s)) && bits::num_eq(s[j], peak(s)) ==> softmax(k, s, eps)[i]
            == softmax(k, s, eps)[j],
        !bits::num_eq(s[i], peak(s)) ==> softmax(k, s, eps)[i] == arith::ZERO,
{
}

/// In the tropical limit the log-sum-exp is the largest score.
pub proof fn tropical_logsumexp_is_the_peak(k: arith::Calc, s: Seq<u64>, eps: Eps)
    requires
        eps.tropical(),
    ensures
        logsumexp(k, s, eps) == peak(s),
{
}

} // verus!
