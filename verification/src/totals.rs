//! What sums, softmax weights, attention and log-sum-exp come to, as real
//! numbers: a row with score `s` counts `e^(s / eps)`.

use vstd::prelude::*;

use crate::arith;
use crate::arith::Op;
use crate::averages;
use crate::bits;
use crate::fold;
use crate::monoid;
use crate::monoid::Range;
use crate::operator;
use crate::reals;
use crate::reals::{rsum, Reading};
use crate::semiring;
use crate::tree;
use crate::types::Eps;

verus! {

/// A score that is weighed, or minus infinity.
pub open spec fn rated(g: Range, p: u64) -> bool {
    p == bits::NEG_INF || (g.scores.contains(p) && bits::finite(p))
}

/// Minus infinity weighs nothing.
pub open spec fn vanishes(k: arith::Calc, r: Reading, g: Range, m: u64, eps: Eps, x: u64) -> bool {
    let w = arith::weight(k, bits::NEG_INF, m, eps.0);
    g.scores.contains(m) && bits::finite(m) && g.has(1, x) ==> (r.val)(w) == 0 as real && g.has(1, w)
        && (r.val)(k(Op::Times, w, x)) == 0 as real && g.has(1, k(Op::Times, w, x))
}

/// Some score is finite.
pub open spec fn some_finite(s: Seq<u64>) -> bool {
    exists|i: int| 0 <= i < s.len() && bits::finite(#[trigger] s[i])
}

/// Nothing rounds where scores `s` are weighed under each other and values
/// are summed, and every score is finite or minus infinity.
pub open spec fn reads(k: arith::Calc, r: Reading, g: Range, s: Seq<u64>, eps: Eps) -> bool {
    &&& averages::reads(k, r, g, eps)
    &&& fold::tempered(eps)
    &&& s.len() <= g.rows
    &&& forall|i: int| 0 <= i < s.len() ==> rated(g, #[trigger] s[i])
    &&& forall|m: u64, x: u64| #[trigger] vanishes(k, r, g, m, eps, x)
}

/// Nothing rounds where a sum is taken from under the anchor `m`.
pub open spec fn lifts(k: arith::Calc, r: Reading, g: Range, m: u64, eps: Eps, n: nat, a: u64) -> bool {
    let q = k(Op::Over, m, eps.0);
    g.scores.contains(m) && bits::finite(m) && g.has(n, a) ==> reals::precise(
        k,
        r,
        Op::Over,
        m,
        eps.0,
    ) && reals::precise(k, r, Op::Exp, q, 0) && reals::precise(
        k,
        r,
        Op::Times,
        a,
        k(Op::Exp, q, 0),
    )
}

/// What a row with score `s` counts: `e^(s / eps)`, and nothing at minus
/// infinity.
pub open spec fn count_of(r: Reading, s: u64, eps: Eps) -> real {
    if s == bits::NEG_INF {
        0 as real
    } else {
        (r.exp)((r.val)(s) / (r.val)(eps.0))
    }
}

/// What each row counts.
pub open spec fn counts(r: Reading, s: Seq<u64>, eps: Eps) -> Seq<real> {
    Seq::new(s.len(), |i: int| count_of(r, s[i], eps))
}

/// What each row counts, times its value.
pub open spec fn portions(r: Reading, s: Seq<u64>, v: Seq<u64>, eps: Eps) -> Seq<real> {
    Seq::new(s.len(), |i: int| count_of(r, s[i], eps) * (r.val)(v[i]))
}

/// Component `c` of each row.
pub open spec fn component(v: Seq<Seq<u64>>, c: int) -> Seq<u64> {
    Seq::new(v.len(), |i: int| v[i][c])
}

// -------------------------------------------------------------------- lemmas

/// The largest score is finite where one is.
pub proof fn lemma_top(s: Seq<u64>)
    requires
        some_finite(s),
        forall|i: int|
            0 <= i < s.len() ==> #[trigger] s[i] == bits::NEG_INF || bits::finite(s[i]),
    ensures
        bits::finite(semiring::peak(s)),
        s.contains(semiring::peak(s)),
        forall|i: int|
            0 <= i < s.len() ==> bits::rank(#[trigger] s[i]) <= bits::rank(semiring::peak(s)),
{
    assert forall|i: int| 0 <= i < s.len() implies !bits::nan(#[trigger] s[i]) by {}
    semiring::lemma_peak(s);
    assert forall|i: int| 0 <= i < s.len() implies bits::rank(#[trigger] s[i]) <= bits::rank(
        semiring::peak(s),
    ) by {
        semiring::peak_is_the_largest_score(s, i);
    }
    let t = choose|t: int| 0 <= t < s.len() && bits::finite(#[trigger] s[t]);
    assert(bits::rank(s[t]) <= bits::rank(semiring::peak(s)));
    let m = semiring::peak(s);
    if s.contains(m) {
        let u = choose|u: int| 0 <= u < s.len() && s[u] == m;
        assert(s[u] == bits::NEG_INF || bits::finite(s[u]));
    }
}

/// The anchor that scores are weighed under is one of them.
pub proof fn lemma_anchor(k: arith::Calc, r: Reading, g: Range, s: Seq<u64>, eps: Eps)
    requires
        reads(k, r, g, s, eps),
        some_finite(s),
    ensures
        bits::finite(semiring::peak(s)),
        g.upward(semiring::peak(s), semiring::peak(s)),
        forall|i: int|
            0 <= i < s.len() ==> #[trigger] s[i] == bits::NEG_INF || g.upward(
                s[i],
                semiring::peak(s),
            ),
{
    assert forall|i: int| 0 <= i < s.len() implies #[trigger] s[i] == bits::NEG_INF
        || bits::finite(s[i]) by {
        assert(rated(g, s[i]));
    }
    lemma_top(s);
    let m = semiring::peak(s);
    let u = choose|u: int| 0 <= u < s.len() && s[u] == m;
    assert(rated(g, s[u]));
    assert forall|i: int| 0 <= i < s.len() implies #[trigger] s[i] == bits::NEG_INF || g.upward(
        s[i],
        m,
    ) by {
        assert(rated(g, s[i]));
    }
}

/// Where no score is finite, nothing counts.
proof fn lemma_none(r: Reading, s: Seq<u64>, v: Seq<u64>, eps: Eps)
    requires
        !some_finite(s),
        forall|i: int|
            0 <= i < s.len() ==> #[trigger] s[i] == bits::NEG_INF || bits::finite(s[i]),
    ensures
        semiring::peak(s) == bits::NEG_INF,
        rsum(portions(r, s, v, eps)) == 0 as real,
    decreases s.len(),
{
    if s.len() > 0 {
        let f = s.drop_last();
        assert forall|i: int| 0 <= i < f.len() implies #[trigger] f[i] == bits::NEG_INF
            || bits::finite(f[i]) by {
            assert(f[i] == s[i]);
        }
        assert(!some_finite(f)) by {
            if some_finite(f) {
                let i = choose|i: int| 0 <= i < f.len() && bits::finite(#[trigger] f[i]);
                assert(bits::finite(s[i]));
            }
        }
        lemma_none(r, f, v, eps);
        assert(s[s.len() - 1] == s.last());
        assert(portions(r, s, v, eps).drop_last() =~= portions(r, f, v, eps));
        reals::lemma_units((r.val)(v[s.len() - 1]));
    }
}

/// A weight under an anchor, taken from under it.
pub proof fn lemma_weight(k: arith::Calc, r: Reading, g: Range, s: u64, m: u64, eps: Eps)
    requires
        averages::reads(k, r, g, eps),
        fold::tempered(eps),
        g.upward(s, m),
        bits::finite(s),
        bits::finite(m),
    ensures
        g.has(1, arith::weight(k, s, m, eps.0)),
        (r.val)(arith::weight(k, s, m, eps.0)) * count_of(r, m, eps) == count_of(r, s, eps),
        count_of(r, m, eps) > 0 as real,
        count_of(r, s, eps) > 0 as real,
{
    assert(averages::weighs(k, r, g, s, m, eps));
    reals::weight_is_the_exponential_of_the_distance(k, r, s, m, eps.0);
    let (a, b, e) = ((r.val)(s), (r.val)(m), (r.val)(eps.0));
    assert((a - b) / e + b / e == a / e) by (nonlinear_arith)
        requires
            e != 0 as real,
    ;
    reals::lemma_exp(r, (a - b) / e, b / e);
    reals::lemma_exp(r, b / e, 0 as real);
    reals::lemma_exp(r, a / e, 0 as real);
}

/// The sum of weights under an anchor, taken from under it.
pub proof fn lemma_total(k: arith::Calc, r: Reading, g: Range, s: Seq<u64>, m: u64, eps: Eps)
    requires
        reads(k, r, g, s, eps),
        forall|i: int|
            0 <= i < s.len() ==> #[trigger] s[i] == bits::NEG_INF || g.upward(s[i], m),
        s.len() > 0 ==> bits::finite(m) && g.scores.contains(m),
    ensures
        ({
            let z = semiring::total(k, semiring::weights(k, s, m, eps));
            &&& g.has(s.len(), z)
            &&& (r.val)(z) * count_of(r, m, eps) == rsum(counts(r, s, eps))
            &&& rsum(counts(r, s, eps)) >= 0 as real
            &&& some_finite(s) ==> rsum(counts(r, s, eps)) > 0 as real
        }),
    decreases s.len(),
{
    let e = count_of(r, m, eps);
    if s.len() == 0 {
        reals::lemma_units(e);
    } else {
        let f = s.drop_last();
        let n = f.len();
        assert forall|i: int| 0 <= i < f.len() implies (#[trigger] f[i] == bits::NEG_INF
            || g.upward(f[i], m)) && rated(g, f[i]) by {
            assert(f[i] == s[i]);
        }
        lemma_total(k, r, g, f, m, eps);
        assert(s[s.len() - 1] == s.last());
        assert(rated(g, s.last()));
        assert(vanishes(k, r, g, m, eps, arith::ONE));
        reals::lemma_units(e);
        if s.last() != bits::NEG_INF {
            lemma_weight(k, r, g, s.last(), m, eps);
        }
        if some_finite(s) {
            let t = choose|t: int| 0 <= t < s.len() && bits::finite(#[trigger] s[t]);
            if t < n {
                assert(bits::finite(f[t]));
            }
        }
        let w = semiring::weights(k, s, m, eps);
        assert(w.drop_last() =~= semiring::weights(k, f, m, eps));
        let (a, b) = (semiring::total(k, w.drop_last()), w.last());
        assert(b == arith::weight(k, s.last(), m, eps.0));
        assert(averages::adds(k, r, g, n, 1, a, b));
        reals::lemma_spread((r.val)(a), (r.val)(b), e);
        assert(counts(r, s, eps).drop_last() =~= counts(r, f, eps));
    }
}

/// The weighted values under an anchor, summed and taken from under it.
pub proof fn lemma_weighted(
    k: arith::Calc,
    r: Reading,
    g: Range,
    s: Seq<u64>,
    v: Seq<u64>,
    m: u64,
    eps: Eps,
)
    requires
        reads(k, r, g, s, eps),
        v.len() >= s.len(),
        forall|i: int| 0 <= i < s.len() ==> g.has(1, #[trigger] v[i]),
        forall|i: int|
            0 <= i < s.len() ==> #[trigger] s[i] == bits::NEG_INF || g.upward(s[i], m),
        s.len() > 0 ==> bits::finite(m) && g.scores.contains(m),
    ensures
        g.has(s.len(), semiring::weighted_sum(k, s, v, m, eps)),
        (r.val)(semiring::weighted_sum(k, s, v, m, eps)) * count_of(r, m, eps) == rsum(
            portions(r, s, v, eps),
        ),
    decreases s.len(),
{
    let e = count_of(r, m, eps);
    if s.len() == 0 {
        reals::lemma_units(e);
    } else {
        let f = s.drop_last();
        let n = f.len();
        assert forall|i: int| 0 <= i < f.len() implies (#[trigger] f[i] == bits::NEG_INF
            || g.upward(f[i], m)) && rated(g, f[i]) by {
            assert(f[i] == s[i]);
        }
        lemma_weighted(k, r, g, f, v, m, eps);
        let p = s.last();
        assert(s[s.len() - 1] == p);
        assert(rated(g, p));
        if p != bits::NEG_INF {
            lemma_weight(k, r, g, p, m, eps);
        }
        let a = semiring::weighted_sum(k, f, v, m, eps);
        let w = arith::weight(k, p, m, eps.0);
        let x = v[n as int];
        assert(g.has(1, v[n as int]));
        assert(averages::scales(k, r, g, 1, x, p, m, eps));
        assert(vanishes(k, r, g, m, eps, x));
        let b = k(Op::Times, w, x);
        assert(averages::adds(k, r, g, n, 1, a, b));
        reals::lemma_spread((r.val)(a), (r.val)(b), e);
        let (y, z) = ((r.val)(w), (r.val)(x));
        reals::lemma_units(e);
        reals::lemma_units(z);
        // (y * z) * e == (y * e) * z
        reals::lemma_regroup(y, z, e);
        reals::lemma_regroup(y, e, z);
        reals::lemma_regroup(z, e, y);
        assert(portions(r, s, v, eps).drop_last() =~= portions(r, f, v, eps));
    }
}

proof fn lemma_rows_are_columns(
    k: arith::Calc,
    s: Seq<u64>,
    v: Seq<Seq<u64>>,
    m: u64,
    d: nat,
    eps: Eps,
    c: int,
)
    requires
        0 <= c < d,
        s.len() <= v.len(),
    ensures
        operator::weighted_rows(k, s, v, m, d, eps).len() == d,
        operator::weighted_rows(k, s, v, m, d, eps)[c] == semiring::weighted_sum(
            k,
            s,
            component(v, c),
            m,
            eps,
        ),
    decreases s.len(),
{
    if s.len() > 0 {
        lemma_rows_are_columns(k, s.drop_last(), v, m, d, eps, c);
    }
}

// ---------------------------------------------------------------------- sums

/// Between the limits, the unnormalised sum of rows is, in each component,
/// the sum of `e^(score / eps)` times the value, whatever the largest score
/// is.
pub proof fn sum_is_the_weighted_total(
    k: arith::Calc,
    r: Reading,
    g: Range,
    s: Seq<u64>,
    v: Seq<Seq<u64>>,
    d: nat,
    eps: Eps,
    c: int,
)
    requires
        reads(k, r, g, s, eps),
        s.len() == v.len(),
        0 <= c < d,
        forall|i: int| 0 <= i < v.len() ==> g.has(1, (#[trigger] v[i])[c]),
        forall|m: u64, n: nat, a: u64| #[trigger] lifts(k, r, g, m, eps, n, a),
    ensures
        operator::summed(k, s, v, d, eps).len() == d,
        (r.val)(operator::summed(k, s, v, d, eps)[c]) == rsum(
            portions(r, s, component(v, c), eps),
        ),
{
    let col = component(v, c);
    if !some_finite(s) {
        assert forall|i: int| 0 <= i < s.len() implies #[trigger] s[i] == bits::NEG_INF
            || bits::finite(s[i]) by {
            assert(rated(g, s[i]));
        }
        lemma_none(r, s, col, eps);
    } else {
        let m = semiring::peak(s);
        lemma_anchor(k, r, g, s, eps);
        assert forall|i: int| 0 <= i < s.len() implies g.has(1, #[trigger] col[i]) by {
            assert(g.has(1, v[i][c]));
        }
        lemma_weighted(k, r, g, s, col, m, eps);
        lemma_rows_are_columns(k, s, v, m, d, eps, c);
        assert(lifts(k, r, g, m, eps, s.len(), semiring::weighted_sum(k, s, col, m, eps)));
    }
}

/// The sum of one row is `e^(score / eps)` times the row, whatever the score
/// is.
pub proof fn sum_of_one_row(
    k: arith::Calc,
    r: Reading,
    g: Range,
    score: u64,
    v: Seq<u64>,
    eps: Eps,
    c: int,
)
    requires
        reads(k, r, g, seq![score], eps),
        bits::finite(score),
        0 <= c < v.len(),
        g.has(1, v[c]),
        forall|m: u64, n: nat, a: u64| #[trigger] lifts(k, r, g, m, eps, n, a),
    ensures
        (r.val)(operator::summed(k, seq![score], seq![v], v.len(), eps)[c]) == (r.exp)(
            (r.val)(score) / (r.val)(eps.0),
        ) * (r.val)(v[c]),
{
    sum_is_the_weighted_total(k, r, g, seq![score], seq![v], v.len(), eps, c);
    let p = portions(r, seq![score], component(seq![v], c), eps);
    assert(p.drop_last() =~= Seq::empty());
    assert(rsum(p) == rsum(p.drop_last()) + p.last());
}

/// The sum over two sets of rows is the sum of their sums.
pub proof fn sums_add_over_sets_of_rows(
    k: arith::Calc,
    r: Reading,
    g: Range,
    s: Seq<u64>,
    v: Seq<Seq<u64>>,
    s2: Seq<u64>,
    v2: Seq<Seq<u64>>,
    d: nat,
    eps: Eps,
    c: int,
)
    requires
        reads(k, r, g, s + s2, eps),
        s.len() == v.len(),
        s2.len() == v2.len(),
        0 <= c < d,
        forall|i: int| 0 <= i < v.len() ==> g.has(1, (#[trigger] v[i])[c]),
        forall|i: int| 0 <= i < v2.len() ==> g.has(1, (#[trigger] v2[i])[c]),
        forall|m: u64, n: nat, a: u64| #[trigger] lifts(k, r, g, m, eps, n, a),
    ensures
        (r.val)(operator::summed(k, s + s2, v + v2, d, eps)[c]) == (r.val)(
            operator::summed(k, s, v, d, eps)[c],
        ) + (r.val)(operator::summed(k, s2, v2, d, eps)[c]),
{
    assert forall|i: int| 0 <= i < s.len() implies rated(g, #[trigger] s[i]) by {
        assert((s + s2)[i] == s[i]);
    }
    assert forall|i: int| 0 <= i < s2.len() implies rated(g, #[trigger] s2[i]) by {
        assert((s + s2)[s.len() + i] == s2[i]);
    }
    assert forall|i: int| 0 <= i < (v + v2).len() implies g.has(1, (#[trigger] (v + v2)[i])[c]) by {
        if i < v.len() {
            assert((v + v2)[i] == v[i]);
        } else {
            assert((v + v2)[i] == v2[i - v.len()]);
        }
    }
    sum_is_the_weighted_total(k, r, g, s + s2, v + v2, d, eps, c);
    sum_is_the_weighted_total(k, r, g, s, v, d, eps, c);
    sum_is_the_weighted_total(k, r, g, s2, v2, d, eps, c);
    let (a, b) = (portions(r, s, component(v, c), eps), portions(r, s2, component(v2, c), eps));
    assert(portions(r, s + s2, component(v + v2, c), eps) =~= a + b);
    reals::lemma_rsum_add(a, b);
}

/// The sum aggregator on plain values says the same.
pub proof fn raw_sum_is_the_weighted_total(
    k: arith::Calc,
    r: Reading,
    g: Range,
    s: Seq<u64>,
    v: Seq<u64>,
    eps: Eps,
)
    requires
        reads(k, r, g, s, eps),
        s.len() == v.len(),
        s.len() == 0 || some_finite(s),
        forall|i: int| 0 <= i < v.len() ==> g.has(1, #[trigger] v[i]),
        forall|m: u64, n: nat, a: u64| #[trigger] lifts(k, r, g, m, eps, n, a),
    ensures
        (r.val)(semiring::raw_sum(k, s, v, eps)) == rsum(portions(r, s, v, eps)),
{
    if s.len() > 0 {
        let m = semiring::peak(s);
        lemma_anchor(k, r, g, s, eps);
        lemma_weighted(k, r, g, s, v, m, eps);
        assert(lifts(k, r, g, m, eps, s.len(), semiring::weighted_sum(k, s, v, m, eps)));
    }
}

// ------------------------------------------------------------------- softmax

/// The numbers that occur are finite, and a weight is divided by a sum of
/// weights without rounding.
pub open spec fn shares(k: arith::Calc, r: Reading, g: Range, n: nat, w: u64, z: u64) -> bool {
    g.has(1, w) && g.has(n, z) ==> bits::finite(z) && ((r.val)(z) != 0 as real ==> reals::precise(
        k,
        r,
        Op::Over,
        w,
        z,
    ))
}

/// Softmax weights are the counts, each divided by the sum of all.
pub proof fn softmax_divides_the_counts(
    k: arith::Calc,
    r: Reading,
    g: Range,
    s: Seq<u64>,
    eps: Eps,
    i: int,
)
    requires
        reads(k, r, g, s, eps),
        some_finite(s),
        0 <= i < s.len(),
        forall|n: nat, w: u64, z: u64| #[trigger] shares(k, r, g, n, w, z),
    ensures
        semiring::softmax(k, s, eps).len() == s.len(),
        (r.val)(semiring::softmax(k, s, eps)[i]) * rsum(counts(r, s, eps)) == count_of(
            r,
            s[i],
            eps,
        ),
        rsum(counts(r, s, eps)) > 0 as real,
{
    let m = semiring::peak(s);
    lemma_anchor(k, r, g, s, eps);
    lemma_total(k, r, g, s, m, eps);
    assert(rated(g, s[i]));
    assert(vanishes(k, r, g, m, eps, arith::ONE));
    lemma_weight(k, r, g, m, m, eps);
    if s[i] != bits::NEG_INF {
        lemma_weight(k, r, g, s[i], m, eps);
    }
    let w = semiring::weights(k, s, m, eps);
    let z = semiring::total(k, w);
    let e = count_of(r, m, eps);
    let (a, b) = ((r.val)(w[i]), (r.val)(z));
    reals::lemma_units(e);
    assert(b != 0 as real);
    assert(averages::tells_zero(r, g, s.len(), z));
    assert(shares(k, r, g, s.len(), w[i], z));
    // (a / b) * (b * e) == a * e
    reals::lemma_quotient(a, b, a / b);
    reals::lemma_regroup(a / b, b, e);
}

/// Softmax weights add up to one.
pub proof fn softmax_adds_up_to_one(k: arith::Calc, r: Reading, g: Range, s: Seq<u64>, eps: Eps)
    requires
        reads(k, r, g, s, eps),
        some_finite(s),
        forall|n: nat, w: u64, z: u64| #[trigger] shares(k, r, g, n, w, z),
    ensures
        rsum(
            Seq::new(s.len(), |i: int| (r.val)(semiring::softmax(k, s, eps)[i])),
        ) == 1 as real,
{
    let p = Seq::new(s.len(), |i: int| (r.val)(semiring::softmax(k, s, eps)[i]));
    let q = counts(r, s, eps);
    let t = rsum(q);
    assert forall|i: int| 0 <= i < s.len() implies #[trigger] p[i] * t == q[i] && t > 0 as real by {
        softmax_divides_the_counts(k, r, g, s, eps, i);
    }
    assert(p[0] * t == q[0]);
    reals::lemma_rsum_times(p, t);
    assert(Seq::new(p.len(), |i: int| p[i] * t) =~= q);
    let x = rsum(p);
    reals::lemma_units(t);
    reals::lemma_quotient(t, t, x);
    reals::lemma_quotient(t, t, 1 as real);
}

/// A value is weighted by its share without rounding, and so are sums of
/// such values.
pub open spec fn mixes(
    k: arith::Calc,
    r: Reading,
    g: Range,
    w: Seq<u64>,
    v: Seq<u64>,
) -> bool {
    forall|i: int|
        0 <= i < w.len() ==> reals::precise(k, r, Op::Times, #[trigger] w[i], v[i]) && g.has(
            1,
            k(Op::Times, w[i], v[i]),
        ) && (bits::num_eq(w[i], arith::ZERO) ==> (r.val)(w[i]) == 0 as real)
}

proof fn lemma_mixture(
    k: arith::Calc,
    r: Reading,
    g: Range,
    w: Seq<u64>,
    rows: Seq<Seq<u64>>,
    d: nat,
    c: int,
    eps: Eps,
)
    requires
        averages::reads(k, r, g, eps),
        w.len() <= g.rows,
        w.len() <= rows.len(),
        0 <= c < d,
        mixes(k, r, g, w, component(rows, c)),
    ensures
        tree::mixture(k, w, rows, d).len() == d,
        g.has(w.len(), tree::mixture(k, w, rows, d)[c]),
        (r.val)(tree::mixture(k, w, rows, d)[c]) == rsum(
            Seq::new(w.len(), |i: int| (r.val)(w[i]) * (r.val)(rows[i][c])),
        ),
    decreases w.len(),
{
    let t = Seq::new(w.len(), |i: int| (r.val)(w[i]) * (r.val)(rows[i][c]));
    if w.len() > 0 {
        let f = w.drop_last();
        let n = f.len();
        let col = component(rows, c);
        assert forall|i: int| 0 <= i < f.len() implies reals::precise(
            k,
            r,
            Op::Times,
            #[trigger] f[i],
            col[i],
        ) && g.has(1, k(Op::Times, f[i], col[i])) && (bits::num_eq(f[i], arith::ZERO) ==> (r.val)(
            f[i],
        ) == 0 as real) by {
            assert(f[i] == w[i]);
        }
        lemma_mixture(k, r, g, f, rows, d, c, eps);
        assert(t.drop_last() =~= Seq::new(f.len(), |i: int| (r.val)(f[i]) * (r.val)(rows[i][c])));
        let a = tree::mixture(k, f, rows, d)[c];
        let b = k(Op::Times, w[n as int], col[n as int]);
        assert(averages::adds(k, r, g, n, 1, a, b));
        assert(monoid::grows(g, n, n + 1, a));
        reals::lemma_units((r.val)(rows[n as int][c]));
    }
}

/// A mixture is the sum of its rows, each times its weight.
pub proof fn mixture_is_the_weighted_sum(
    k: arith::Calc,
    r: Reading,
    g: Range,
    w: Seq<u64>,
    rows: Seq<Seq<u64>>,
    d: nat,
    c: int,
    eps: Eps,
)
    requires
        averages::reads(k, r, g, eps),
        w.len() <= g.rows,
        w.len() <= rows.len(),
        0 <= c < d,
        mixes(k, r, g, w, component(rows, c)),
    ensures
        (r.val)(tree::mixture(k, w, rows, d)[c]) == rsum(
            Seq::new(w.len(), |i: int| (r.val)(w[i]) * (r.val)(rows[i][c])),
        ),
{
    lemma_mixture(k, r, g, w, rows, d, c, eps);
}

/// Rows mixed by softmax weights.
pub proof fn lemma_soft_mixture(
    k: arith::Calc,
    r: Reading,
    g: Range,
    s: Seq<u64>,
    v: Seq<Seq<u64>>,
    d: nat,
    eps: Eps,
    c: int,
)
    requires
        reads(k, r, g, s, eps),
        some_finite(s),
        s.len() == v.len(),
        0 <= c < d,
        forall|n: nat, w: u64, z: u64| #[trigger] shares(k, r, g, n, w, z),
        mixes(k, r, g, semiring::softmax(k, s, eps), component(v, c)),
    ensures
        (r.val)(tree::mixture(k, semiring::softmax(k, s, eps), v, d)[c]) * rsum(counts(r, s, eps))
            == rsum(portions(r, s, component(v, c), eps)),
        rsum(counts(r, s, eps)) > 0 as real,
{
    let w = semiring::softmax(k, s, eps);
    softmax_divides_the_counts(k, r, g, s, eps, 0);
    lemma_mixture(k, r, g, w, v, d, c, eps);
    let x = Seq::new(w.len(), |i: int| (r.val)(w[i]) * (r.val)(v[i][c]));
    let t = rsum(counts(r, s, eps));
    reals::lemma_rsum_times(x, t);
    let y = Seq::new(x.len(), |i: int| x[i] * t);
    let p = portions(r, s, component(v, c), eps);
    assert forall|i: int| 0 <= i < s.len() implies #[trigger] y[i] == p[i] by {
        softmax_divides_the_counts(k, r, g, s, eps, i);
        let (a, b) = ((r.val)(w[i]), (r.val)(v[i][c]));
        // (a * b) * t == (a * t) * b
        reals::lemma_regroup(a, b, t);
        reals::lemma_regroup(a, t, b);
        reals::lemma_regroup(b, t, a);
    }
    assert(y =~= p);
}

/// Attention is the mean of the rows, weighted by `e^(score / eps)`.
pub proof fn attention_is_the_weighted_mean(
    k: arith::Calc,
    r: Reading,
    g: Range,
    s: Seq<u64>,
    v: Seq<Seq<u64>>,
    d: nat,
    eps: Eps,
    c: int,
)
    requires
        reads(k, r, g, s, eps),
        some_finite(s),
        s.len() == v.len(),
        s.len() <= usize::MAX,
        0 <= c < d,
        forall|n: nat, w: u64, z: u64| #[trigger] shares(k, r, g, n, w, z),
        mixes(k, r, g, semiring::softmax(k, s, eps), component(v, c)),
    ensures
        (r.val)(operator::attended(k, s, v, d, eps)[c]) * rsum(counts(r, s, eps)) == rsum(
            portions(r, s, component(v, c), eps),
        ),
        rsum(counts(r, s, eps)) > 0 as real,
{
    assert(tree::picked(v, operator::first_rows(s.len())) =~= v);
    lemma_soft_mixture(k, r, g, s, v, d, eps, c);
}

// --------------------------------------------------------------- log-sum-exp

/// The log-sum-exp, divided by the temperature, is the logarithm of the sum
/// of the counts: `e^(lse / eps)` is that sum.
pub proof fn logsumexp_is_the_logarithm_of_the_counts(
    k: arith::Calc,
    r: Reading,
    g: Range,
    s: Seq<u64>,
    eps: Eps,
)
    requires
        reads(k, r, g, s, eps),
        some_finite(s),
        reals::logarithm(r),
        ({
            let m = semiring::peak(s);
            let z = semiring::total(k, semiring::weights(k, s, m, eps));
            let l = k(Op::Ln, z, 0);
            let p = k(Op::Times, eps.0, l);
            reals::precise(k, r, Op::Ln, z, 0) && reals::precise(k, r, Op::Times, eps.0, l)
                && reals::precise(k, r, Op::Plus, m, p)
        }),
    ensures
        (r.exp)((r.val)(semiring::logsumexp(k, s, eps)) / (r.val)(eps.0)) == rsum(
            counts(r, s, eps),
        ),
{
    let m = semiring::peak(s);
    lemma_anchor(k, r, g, s, eps);
    lemma_total(k, r, g, s, m, eps);
    lemma_weight(k, r, g, m, m, eps);
    let z = semiring::total(k, semiring::weights(k, s, m, eps));
    let (a, e, y) = ((r.val)(m), (r.val)(eps.0), (r.val)(z));
    let c = count_of(r, m, eps);
    assert(averages::weighs(k, r, g, m, m, eps));
    assert(y > 0 as real) by (nonlinear_arith)
        requires
            y * c > 0 as real,
            c > 0 as real,
    ;
    let l = (r.ln)(y);
    assert((a + e * l) / e == a / e + l) by (nonlinear_arith)
        requires
            e != 0 as real,
    ;
    reals::lemma_exp(r, a / e, l);
    assert((r.exp)(l) == y);
    reals::lemma_regroup(c, y, 1 as real);
}

// --------------------------------------------------------------------- count

proof fn lemma_above_zero(w: Seq<u64>, s: Seq<u64>)
    requires
        w.len() == s.len(),
        forall|i: int|
            0 <= i < w.len() ==> (bits::num_lt(arith::ZERO, #[trigger] w[i]) <==> bits::finite(s[i])),
    ensures
        operator::above_zero(w) == semiring::count_finite(s),
    decreases w.len(),
{
    if w.len() > 0 {
        let (f, t) = (w.drop_last(), s.drop_last());
        assert forall|i: int| 0 <= i < f.len() implies (bits::num_lt(arith::ZERO, #[trigger] f[i])
            <==> bits::finite(t[i])) by {
            assert(f[i] == w[i] && t[i] == s[i]);
        }
        lemma_above_zero(f, t);
        assert(w[w.len() - 1] == w.last());
    }
}

/// Between the limits every row with a finite score counts, however low the
/// score is, and no other.
pub proof fn every_finite_row_counts(k: arith::Calc, r: Reading, g: Range, s: Seq<u64>, eps: Eps)
    requires
        reads(k, r, g, s, eps),
        some_finite(s),
        forall|n: nat, w: u64, z: u64| #[trigger] shares(k, r, g, n, w, z),
        forall|i: int|
            0 <= i < s.len() ==> (bits::num_lt(
                arith::ZERO,
                #[trigger] semiring::softmax(k, s, eps)[i],
            ) <==> (r.val)(semiring::softmax(k, s, eps)[i]) > 0 as real),
    ensures
        operator::counted(k, s, eps) == semiring::count_finite(s),
{
    let w = semiring::softmax(k, s, eps);
    assert(w.len() == s.len());
    lemma_anchor(k, r, g, s, eps);
    assert forall|i: int| 0 <= i < w.len() implies (bits::num_lt(arith::ZERO, #[trigger] w[i])
        <==> bits::finite(s[i])) by {
        softmax_divides_the_counts(k, r, g, s, eps, i);
        assert(rated(g, s[i]));
        let (x, t) = ((r.val)(w[i]), rsum(counts(r, s, eps)));
        reals::lemma_units(t);
        if bits::finite(s[i]) {
            lemma_weight(k, r, g, s[i], semiring::peak(s), eps);
            assert(x > 0 as real) by (nonlinear_arith)
                requires
                    x * t > 0 as real,
                    t > 0 as real,
            ;
        } else {
            assert(x == 0 as real) by (nonlinear_arith)
                requires
                    x * t == 0 as real,
                    t > 0 as real,
            ;
        }
    }
    lemma_above_zero(w, s);
}

} // verus!
