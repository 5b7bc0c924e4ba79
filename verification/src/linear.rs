//! What a fuzzy-join sketch holds and answers, as real numbers: the values
//! weighted by the inner products of features.

use vstd::prelude::*;

use crate::arith;
use crate::arith::Op;
use crate::averages;
use crate::bits;
use crate::monoid::Range;
use crate::reals;
use crate::reals::{rsum, Reading};
use crate::sketch;
use crate::sketch::FeatureMap;
use crate::types::Eps;

verus! {

/// The sum of `f(0), f(1), ...`, `n` numbers in all.
pub open spec fn series(n: nat, f: spec_fn(int) -> real) -> real {
    rsum(Seq::new(n, f))
}

proof fn lemma_series_step(n: nat, f: spec_fn(int) -> real)
    ensures
        series(0, f) == 0 as real,
        series(n + 1, f) == series(n, f) + f(n as int),
{
    let s = Seq::new(n + 1, f);
    assert(s.drop_last() =~= Seq::new(n, f));
    assert(Seq::new(0, f) =~= Seq::empty());
}

proof fn lemma_series_add(n: nat, f: spec_fn(int) -> real, g: spec_fn(int) -> real)
    ensures
        series(n, |i: int| f(i) + g(i)) == series(n, f) + series(n, g),
    decreases n,
{
    let h = |i: int| f(i) + g(i);
    if n > 0 {
        let m = (n - 1) as nat;
        lemma_series_add(m, f, g);
        lemma_series_step(m, f);
        lemma_series_step(m, g);
        lemma_series_step(m, h);
    } else {
        lemma_series_step(0, f);
        lemma_series_step(0, g);
        lemma_series_step(0, h);
    }
}

proof fn lemma_series_times(n: nat, f: spec_fn(int) -> real, c: real)
    ensures
        series(n, |i: int| c * f(i)) == c * series(n, f),
    decreases n,
{
    let h = |i: int| c * f(i);
    if n > 0 {
        let m = (n - 1) as nat;
        lemma_series_times(m, f, c);
        lemma_series_step(m, f);
        lemma_series_step(m, h);
        reals::lemma_spread(series(m, f), f(m as int), c);
    } else {
        lemma_series_step(0, f);
        lemma_series_step(0, h);
        reals::lemma_units(c);
    }
}

proof fn lemma_series_same(n: nat, f: spec_fn(int) -> real, g: spec_fn(int) -> real)
    requires
        forall|i: int| 0 <= i < n ==> #[trigger] f(i) == g(i),
    ensures
        series(n, f) == series(n, g),
{
    assert(Seq::new(n, f) =~= Seq::new(n, g));
}

/// Sums of sums swap.
proof fn lemma_series_swap(n: nat, m: nat, f: spec_fn(int, int) -> real)
    ensures
        series(n, |a: int| series(m, |i: int| f(a, i))) == series(
            m,
            |i: int| series(n, |a: int| f(a, i)),
        ),
    decreases m,
{
    let g = |a: int| series(m, |i: int| f(a, i));
    let h = |i: int| series(n, |a: int| f(a, i));
    if m > 0 {
        let l = (m - 1) as nat;
        lemma_series_swap(n, l, f);
        let g1 = |a: int| series(l, |i: int| f(a, i));
        let last = |a: int| f(a, l as int);
        let both = |a: int| g1(a) + last(a);
        assert forall|a: int| 0 <= a < n implies #[trigger] g(a) == both(a) by {
            lemma_series_step(l, |i: int| f(a, i));
        }
        lemma_series_same(n, g, both);
        lemma_series_add(n, g1, last);
        lemma_series_step(l, h);
        lemma_series_same(n, last, |a: int| f(a, l as int));
    } else {
        lemma_series_step(0, h);
        let zero = |a: int| 0 as real;
        assert forall|a: int| 0 <= a < n implies #[trigger] g(a) == zero(a) by {
            lemma_series_step(0, |i: int| f(a, i));
        }
        lemma_series_same(n, g, zero);
        lemma_series_zero(n);
    }
}

proof fn lemma_series_zero(n: nat)
    ensures
        series(n, |a: int| 0 as real) == 0 as real,
    decreases n,
{
    let zero = |a: int| 0 as real;
    if n > 0 {
        lemma_series_zero((n - 1) as nat);
        lemma_series_step((n - 1) as nat, zero);
    } else {
        lemma_series_step(0, zero);
    }
}

// ------------------------------------------------------------------ features

/// The features of `elu(x) + 1`: above zero `x + 1`, elsewhere `e^x`. Both
/// are positive.
pub proof fn features_are_positive(k: arith::Calc, r: Reading, x: u64)
    requires
        reals::constants(r),
        reals::exponential(r),
        bits::num_lt(arith::ZERO, x) <==> (r.val)(x) > 0 as real,
        reals::precise(k, r, Op::Plus, x, arith::ONE),
        reals::precise(k, r, Op::Exp, x, 0),
    ensures
        (r.val)(sketch::feature(k, FeatureMap::EluPlus1, x)) > 0 as real,
        (r.val)(x) > 0 as real ==> (r.val)(sketch::feature(k, FeatureMap::EluPlus1, x)) - (r.val)(x)
            == 1 as real,
        (r.val)(x) <= 0 as real ==> (r.val)(sketch::feature(k, FeatureMap::EluPlus1, x)) * (r.exp)(
            -(r.val)(x),
        ) == 1 as real,
        sketch::feature(k, FeatureMap::Identity, x) == x,
{
    let y = (r.val)(x);
    reals::lemma_exp(r, y, -y);
}

// ------------------------------------------------------------------- sketch

/// Feature `a` of row `i`.
pub open spec fn phi_of(
    k: arith::Calc,
    r: Reading,
    keys: Seq<Seq<u64>>,
    phi: FeatureMap,
    i: int,
    a: int,
) -> real {
    (r.val)(sketch::feature(k, phi, keys[i][a]))
}

/// Nothing rounds where the sketch is built: neither a feature times a value
/// nor a sum of those, nor of features.
pub open spec fn builds(
    k: arith::Calc,
    r: Reading,
    g: Range,
    keys: Seq<Seq<u64>>,
    v: Seq<Seq<u64>>,
    phi: FeatureMap,
    a: int,
    b: int,
) -> bool {
    forall|i: int|
        0 <= i < keys.len() ==> {
            let p = sketch::feature(k, phi, #[trigger] keys[i][a]);
            &&& g.has(1, p)
            &&& reals::precise(k, r, Op::Times, p, v[i][b])
            &&& g.has(1, k(Op::Times, p, v[i][b]))
        }
}

/// A sketch holds, for each feature, the sum of that feature over the rows
/// and, for each component, the sum of the feature times the value.
pub proof fn sketch_holds_the_feature_sums(
    k: arith::Calc,
    r: Reading,
    g: Range,
    eps: Eps,
    keys: Seq<Seq<u64>>,
    v: Seq<Seq<u64>>,
    d_phi: nat,
    d_v: nat,
    phi: FeatureMap,
    n: nat,
    a: int,
    b: int,
)
    requires
        averages::reads(k, r, g, eps),
        n <= keys.len() == v.len(),
        n <= g.rows,
        0 <= a < d_phi,
        0 <= b < d_v,
        forall|i: int| 0 <= i < keys.len() ==> (#[trigger] keys[i]).len() == d_phi,
        builds(k, r, g, keys, v, phi, a, b),
    ensures
        ({
            let s = sketch::sketch_of(k, keys, v, d_phi, d_v, phi, n);
            &&& s.num.len() == d_phi && s.den.len() == d_phi && s.num[a].len() == d_v
            &&& s.phi == phi
            &&& s.n == n
            &&& g.has(n, s.den[a]) && g.has(n, s.num[a][b])
            &&& (r.val)(s.den[a]) == series(n, |i: int| phi_of(k, r, keys, phi, i, a))
            &&& (r.val)(s.num[a][b]) == series(
                n,
                |i: int| phi_of(k, r, keys, phi, i, a) * (r.val)(v[i][b]),
            )
        }),
    decreases n,
{
    let f = |i: int| phi_of(k, r, keys, phi, i, a);
    let h = |i: int| phi_of(k, r, keys, phi, i, a) * (r.val)(v[i][b]);
    if n > 0 {
        let m = (n - 1) as nat;
        sketch_holds_the_feature_sums(k, r, g, eps, keys, v, d_phi, d_v, phi, m, a, b);
        lemma_series_step(m, f);
        lemma_series_step(m, h);
        let s = sketch::sketch_of(k, keys, v, d_phi, d_v, phi, m);
        assert(keys[m as int].len() == d_phi);
        let p = sketch::feature(k, phi, keys[m as int][a]);
        assert(averages::adds(k, r, g, m, 1, s.den[a], p));
        assert(averages::adds(k, r, g, m, 1, s.num[a][b], k(Op::Times, p, v[m as int][b])));
    } else {
        lemma_series_step(0, f);
        lemma_series_step(0, h);
    }
}

/// How close row `i` is to a query: the inner product of their features.
pub open spec fn closeness(
    k: arith::Calc,
    r: Reading,
    keys: Seq<Seq<u64>>,
    phi: FeatureMap,
    p: Seq<u64>,
    d_phi: nat,
    i: int,
) -> real {
    series(d_phi, |a: int| (r.val)(p[a]) * phi_of(k, r, keys, phi, i, a))
}

/// A query is answered with the mean of the values, weighted by the inner
/// products of the query's features `p` with the rows', wherever the inner
/// products with the sketch's columns do not round either.
pub proof fn sketch_answers_the_weighted_mean(
    k: arith::Calc,
    r: Reading,
    g: Range,
    eps: Eps,
    keys: Seq<Seq<u64>>,
    v: Seq<Seq<u64>>,
    d_phi: nat,
    d_v: nat,
    phi: FeatureMap,
    p: Seq<u64>,
    dots: (Seq<u64>, u64),
    b: int,
)
    requires
        averages::reads(k, r, g, eps),
        keys.len() == v.len() <= g.rows,
        0 <= b < d_v == dots.0.len(),
        forall|i: int| 0 <= i < keys.len() ==> (#[trigger] keys[i]).len() == d_phi,
        forall|a: int| 0 <= a < d_phi ==> #[trigger] builds(k, r, g, keys, v, phi, a, b),
        ({
            let s = sketch::sketch_of(k, keys, v, d_phi, d_v, phi, keys.len());
            &&& (r.val)(dots.0[b]) == series(d_phi, |a: int| (r.val)(p[a]) * (r.val)(s.num[a][b]))
            &&& (r.val)(dots.1) == series(d_phi, |a: int| (r.val)(p[a]) * (r.val)(s.den[a]))
        }),
        !bits::num_eq(dots.1, arith::ZERO),
        reals::precise(k, r, Op::Over, dots.0[b], dots.1),
    ensures
        (r.val)(sketch::quotient(k, dots.0, dots.1)[b]) * series(
            keys.len(),
            |i: int| closeness(k, r, keys, phi, p, d_phi, i),
        ) == series(
            keys.len(),
            |i: int| closeness(k, r, keys, phi, p, d_phi, i) * (r.val)(v[i][b]),
        ),
{
    let n = keys.len();
    let s = sketch::sketch_of(k, keys, v, d_phi, d_v, phi, n);
    let x = |a: int, i: int| (r.val)(p[a]) * phi_of(k, r, keys, phi, i, a);
    let y = |a: int, i: int| x(a, i) * (r.val)(v[i][b]);
    // the denominator
    let den = |a: int| (r.val)(p[a]) * (r.val)(s.den[a]);
    let den2 = |a: int| series(n, |i: int| x(a, i));
    let num = |a: int| (r.val)(p[a]) * (r.val)(s.num[a][b]);
    let num2 = |a: int| series(n, |i: int| y(a, i));
    assert forall|a: int| 0 <= a < d_phi implies #[trigger] den(a) == den2(a) && num(a) == num2(a) by {
        assert(builds(k, r, g, keys, v, phi, a, b));
        sketch_holds_the_feature_sums(k, r, g, eps, keys, v, d_phi, d_v, phi, n, a, b);
        let f = |i: int| phi_of(k, r, keys, phi, i, a);
        let h = |i: int| phi_of(k, r, keys, phi, i, a) * (r.val)(v[i][b]);
        let c = (r.val)(p[a]);
        lemma_series_times(n, f, c);
        lemma_series_times(n, h, c);
        lemma_series_same(n, |i: int| c * f(i), |i: int| x(a, i));
        let ch = |i: int| c * h(i);
        let ya = |i: int| y(a, i);
        assert forall|i: int| 0 <= i < n implies #[trigger] ch(i) == ya(i) by {
            reals::lemma_regroup(c, phi_of(k, r, keys, phi, i, a), (r.val)(v[i][b]));
        }
        lemma_series_same(n, ch, ya);
    }
    lemma_series_same(d_phi, den, den2);
    assert forall|a: int| 0 <= a < d_phi implies #[trigger] num(a) == num2(a) by {
        assert(den(a) == den2(a));
    }
    lemma_series_same(d_phi, num, num2);
    lemma_series_swap(d_phi, n, x);
    lemma_series_swap(d_phi, n, y);
    let close = |i: int| closeness(k, r, keys, phi, p, d_phi, i);
    let scaled = |i: int| closeness(k, r, keys, phi, p, d_phi, i) * (r.val)(v[i][b]);
    let close2 = |i: int| series(d_phi, |a: int| x(a, i));
    let scaled2 = |i: int| series(d_phi, |a: int| y(a, i));
    assert forall|i: int| 0 <= i < n implies #[trigger] close(i) == close2(i) by {
        lemma_series_same(
            d_phi,
            |a: int| (r.val)(p[a]) * phi_of(k, r, keys, phi, i, a),
            |a: int| x(a, i),
        );
    }
    lemma_series_same(n, close, close2);
    assert forall|i: int| 0 <= i < n implies #[trigger] scaled(i) == scaled2(i) by {
        let w = (r.val)(v[i][b]);
        let f = |a: int| x(a, i);
        lemma_series_times(d_phi, f, w);
        let wf = |a: int| w * f(a);
        let yi = |a: int| y(a, i);
        assert forall|a: int| 0 <= a < d_phi implies #[trigger] wf(a) == yi(a) by {
            reals::lemma_regroup(w, x(a, i), 1 as real);
        }
        lemma_series_same(d_phi, wf, yi);
        lemma_series_same(
            d_phi,
            |a: int| (r.val)(p[a]) * phi_of(k, r, keys, phi, i, a),
            f,
        );
        reals::lemma_regroup(w, series(d_phi, f), 1 as real);
    }
    lemma_series_same(n, scaled, scaled2);
    reals::lemma_quotient((r.val)(dots.0[b]), (r.val)(dots.1), 0 as real);
}

/// A query with nothing close is answered with zeros.
pub proof fn nothing_close_answers_zeros(k: arith::Calc, num: Seq<u64>, den: u64, b: int)
    requires
        bits::num_eq(den, arith::ZERO),
        0 <= b < num.len(),
    ensures
        sketch::quotient(k, num, den).len() == num.len(),
        sketch::quotient(k, num, den)[b] == arith::ZERO,
{
}

/// A sketch counts its rows.
pub proof fn sketch_counts_its_rows(
    k: arith::Calc,
    keys: Seq<Seq<u64>>,
    v: Seq<Seq<u64>>,
    d_phi: nat,
    d_v: nat,
    phi: FeatureMap,
    n: nat,
)
    ensures
        sketch::sketch_of(k, keys, v, d_phi, d_v, phi, n).n == n,
    decreases n,
{
    if n > 0 {
        sketch_counts_its_rows(k, keys, v, d_phi, d_v, phi, (n - 1) as nat);
    }
}

} // verus!
