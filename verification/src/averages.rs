//! What the folds answer, as real numbers: the mean of the values, weighted
//! by `e^(score / eps)`, and its limits at temperature zero and infinity.

use vstd::prelude::*;

use crate::arith;
use crate::arith::Op;
use crate::bits;
use crate::fold;
use crate::fold::Acc;
use crate::mask;
use crate::mask::{PairScore, RowScore};
use crate::matrix;
use crate::monoid;
use crate::monoid::Range;
use crate::partition;
use crate::reals;
use crate::reals::Reading;
use crate::softavg;
use crate::types::Eps;

verus! {

/// Two numbers that occur are added without rounding.
pub open spec fn adds(k: arith::Calc, r: Reading, g: Range, i: nat, j: nat, a: u64, b: u64) -> bool {
    g.has(i, a) && g.has(j, b) && i + j <= g.rows ==> reals::precise(k, r, Op::Plus, a, b)
        && g.has(i + j, k(Op::Plus, a, b))
}

/// A score that occurs is weighed without rounding.
pub open spec fn weighs(k: arith::Calc, r: Reading, g: Range, p: u64, m: u64, eps: Eps) -> bool {
    g.upward(p, m) && bits::finite(p) && bits::finite(m) ==> reals::weighs_precisely(
        k,
        r,
        p,
        m,
        eps.0,
    ) && g.has(1, arith::weight(k, p, m, eps.0))
}

/// A number that occurs is multiplied by a weight without rounding.
pub open spec fn scales(
    k: arith::Calc,
    r: Reading,
    g: Range,
    i: nat,
    a: u64,
    p: u64,
    m: u64,
    eps: Eps,
) -> bool {
    let w = arith::weight(k, p, m, eps.0);
    g.has(i, a) && g.upward(p, m) && bits::finite(p) && bits::finite(m) ==> reals::precise(
        k,
        r,
        Op::Times,
        a,
        w,
    ) && reals::precise(k, r, Op::Times, w, a) && g.has(i, k(Op::Times, a, w)) && g.has(
        i,
        k(Op::Times, w, a),
    )
}

/// Only zeros stand for zero.
pub open spec fn tells_zero(r: Reading, g: Range, i: nat, a: u64) -> bool {
    g.has(i, a) ==> (bits::num_eq(a, arith::ZERO) <==> (r.val)(a) == 0 as real)
}

/// The numbers that occur are read as real numbers, and nothing that is done
/// with them rounds.
pub open spec fn reads(k: arith::Calc, r: Reading, g: Range, eps: Eps) -> bool {
    &&& reals::constants(r)
    &&& reals::exponential(r)
    &&& g.has(0, arith::ZERO)
    &&& 1 <= g.rows ==> g.has(1, arith::ONE)
    &&& forall|i: nat, j: nat, a: u64| #[trigger] monoid::grows(g, i, j, a)
    &&& forall|i: nat, a: u64| #[trigger] tells_zero(r, g, i, a)
    &&& forall|i: nat, j: nat, a: u64, b: u64| #[trigger] adds(k, r, g, i, j, a, b)
    &&& fold::tempered(eps) ==> {
        &&& forall|p: u64, m: u64| #[trigger] weighs(k, r, g, p, m, eps)
        &&& forall|i: nat, a: u64, p: u64, m: u64| #[trigger] scales(k, r, g, i, a, p, m, eps)
    }
}

/// How much a row with score `s` pulls where `top` is the largest score:
/// `e^(s / eps)`; alike for all rows in the uniform limit; and for the rows
/// at the largest score alone in the tropical limit, or where that score is
/// plus infinity.
pub open spec fn pull(r: Reading, s: u64, top: u64, eps: Eps) -> real {
    if eps.uniform() {
        1 as real
    } else if s == bits::NEG_INF {
        0 as real
    } else if eps.tropical() || top == bits::POS_INF {
        if bits::num_eq(s, top) {
            1 as real
        } else {
            0 as real
        }
    } else {
        (r.exp)((r.val)(s) / (r.val)(eps.0))
    }
}

/// All that rows pull.
pub open spec fn mass(r: Reading, rows: Seq<(u64, Seq<u64>)>, top: u64, eps: Eps) -> real
    decreases rows.len(),
{
    if rows.len() == 0 {
        0 as real
    } else {
        mass(r, rows.drop_last(), top, eps) + pull(r, rows.last().0, top, eps)
    }
}

/// The values that rows pull, each times how much, in component `c`.
pub open spec fn load(r: Reading, rows: Seq<(u64, Seq<u64>)>, c: int, top: u64, eps: Eps) -> real
    decreases rows.len(),
{
    if rows.len() == 0 {
        0 as real
    } else {
        load(r, rows.drop_last(), c, top, eps) + pull(r, rows.last().0, top, eps) * (r.val)(
            rows.last().1[c],
        )
    }
}

/// `top` is the largest score of rows, and none is NaN.
pub open spec fn topped(rows: Seq<(u64, Seq<u64>)>, top: u64) -> bool {
    &&& fold::scored(rows)
    &&& forall|i: int| 0 <= i < rows.len() ==> bits::rank((#[trigger] rows[i]).0) <= bits::rank(top)
    &&& exists|i: int| 0 <= i < rows.len() && (#[trigger] rows[i]).0 == top
}

/// How much of a row's pull is left once the anchor's is divided out.
spec fn left(r: Reading, m: u64, eps: Eps) -> real {
    if fold::tempered(eps) && bits::finite(m) {
        (r.exp)((r.val)(m) / (r.val)(eps.0))
    } else {
        1 as real
    }
}

/// An accumulator and the rows that it holds, weighed under its anchor.
spec fn stands_for(
    r: Reading,
    g: Range,
    a: Acc,
    rows: Seq<(u64, Seq<u64>)>,
    d: nat,
    eps: Eps,
) -> bool {
    let n = rows.len();
    &&& a.u.len() == d
    &&& g.has(n, a.z)
    &&& forall|c: int| 0 <= c < d ==> g.has(n, #[trigger] a.u[c])
    &&& !bits::nan(a.mu)
    &&& bits::finite(a.mu) ==> g.scores.contains(a.mu)
    &&& eps.uniform() || forall|i: int|
        0 <= i < n ==> bits::rank((#[trigger] rows[i]).0) <= bits::rank(a.mu)
    &&& eps.uniform() || a.mu == bits::NEG_INF || exists|i: int|
        0 <= i < n && (#[trigger] rows[i]).0 == a.mu
    &&& (r.val)(a.z) * left(r, a.mu, eps) == mass(r, rows, a.mu, eps)
    &&& forall|c: int|
        0 <= c < d ==> (r.val)(#[trigger] a.u[c]) * left(r, a.mu, eps) == load(
            r,
            rows,
            c,
            a.mu,
            eps,
        )
    &&& (a.mu == bits::NEG_INF && !eps.uniform()) ==> a == fold::vacant(d)
    &&& (a.mu != bits::NEG_INF || (eps.uniform() && n > 0)) ==> (r.val)(a.z) >= 1 as real
}

/// With no row at the largest score before, nothing pulls.
proof fn lemma_below(r: Reading, rows: Seq<(u64, Seq<u64>)>, c: int, top: u64, eps: Eps)
    requires
        !eps.uniform(),
        eps.tropical() || top == bits::POS_INF,
        forall|i: int|
            0 <= i < rows.len() ==> (#[trigger] rows[i]).0 == bits::NEG_INF || !bits::num_eq(
                rows[i].0,
                top,
            ),
    ensures
        mass(r, rows, top, eps) == 0 as real,
        load(r, rows, c, top, eps) == 0 as real,
    decreases rows.len(),
{
    if rows.len() > 0 {
        let f = rows.drop_last();
        assert forall|i: int| 0 <= i < f.len() implies (#[trigger] f[i]).0 == bits::NEG_INF
            || !bits::num_eq(f[i].0, top) by {
            assert(f[i] == rows[i]);
        }
        lemma_below(r, f, c, top, eps);
        assert(rows.last() == rows[rows.len() - 1]);
        let y = (r.val)(rows.last().1[c]);
        reals::lemma_units(y);
    }
}

/// What rows pull is the same under two anchors that are equal, or both
/// finite between the limits.
proof fn lemma_same_pull(r: Reading, rows: Seq<(u64, Seq<u64>)>, c: int, p: u64, q: u64, eps: Eps)
    requires
        eps.uniform() || bits::num_eq(p, q) || (fold::tempered(eps) && p != bits::POS_INF && q
            != bits::POS_INF),
    ensures
        mass(r, rows, p, eps) == mass(r, rows, q, eps),
        load(r, rows, c, p, eps) == load(r, rows, c, q, eps),
    decreases rows.len(),
{
    if rows.len() > 0 {
        lemma_same_pull(r, rows.drop_last(), c, p, q, eps);
        assert(p == bits::POS_INF && bits::num_eq(p, q) ==> q == bits::POS_INF);
        assert(q == bits::POS_INF && bits::num_eq(p, q) ==> p == bits::POS_INF);
    }
}

/// Rows at minus infinity pull nothing.
proof fn lemma_nothing(r: Reading, rows: Seq<(u64, Seq<u64>)>, c: int, top: u64, eps: Eps)
    requires
        !eps.uniform(),
        forall|i: int| 0 <= i < rows.len() ==> (#[trigger] rows[i]).0 == bits::NEG_INF,
    ensures
        mass(r, rows, top, eps) == 0 as real,
        load(r, rows, c, top, eps) == 0 as real,
    decreases rows.len(),
{
    if rows.len() > 0 {
        let f = rows.drop_last();
        assert forall|i: int| 0 <= i < f.len() implies (#[trigger] f[i]).0 == bits::NEG_INF by {
            assert(f[i] == rows[i]);
        }
        lemma_nothing(r, f, c, top, eps);
        assert(rows.last() == rows[rows.len() - 1]);
        let y = (r.val)(rows.last().1[c]);
        reals::lemma_units(y);
    }
}

/// One more row.
#[verifier::rlimit(60)]
proof fn lemma_absorbed(
    k: arith::Calc,
    r: Reading,
    g: Range,
    a: Acc,
    rows: Seq<(u64, Seq<u64>)>,
    d: nat,
    eps: Eps,
)
    requires
        reads(k, r, g, eps),
        rows.len() > 0,
        rows.len() <= g.rows,
        monoid::row_fits(rows.last(), d, g),
        fold::scored(rows),
        stands_for(r, g, a, rows.drop_last(), d, eps),
    ensures
        stands_for(r, g, fold::absorbed(k, a, rows.last().0, rows.last().1, eps), rows, d, eps),
{
    let f = rows.drop_last();
    let (s, v) = rows.last();
    let n = f.len();
    let b = fold::absorbed(k, a, s, v, eps);
    assert(rows[rows.len() - 1] == rows.last());
    assert(!bits::nan(s));
    assert(bits::magnitude(s) <= bits::POS_INF);
    assert(bits::magnitude(a.mu) <= bits::POS_INF);
    assert(tells_zero(r, g, n, a.z));
    assert(monoid::grows(g, n, n + 1, a.z));
    assert(monoid::grows(g, 1, n + 1, arith::ONE));
    assert(adds(k, r, g, n, 1, a.z, arith::ONE));
    assert forall|c: int| 0 <= c < d implies g.has(n + 1, a.u[c]) && g.has(1, v[c]) && g.has(
        n + 1,
        v[c],
    ) && adds(k, r, g, n, 1, a.u[c], v[c]) by {
        assert(monoid::grows(g, n, n + 1, a.u[c]));
        assert(monoid::grows(g, 1, n + 1, v[c]));
    }
    assert forall|i: int| 0 <= i < rows.len() implies (b.mu == a.mu || b.mu == s) && (
    eps.uniform() || bits::rank((#[trigger] rows[i]).0) <= bits::rank(b.mu)) by {
        if i < n {
            assert(f[i] == rows[i]);
        }
    }
    if !eps.uniform() && b.mu != bits::NEG_INF {
        if b.mu == s {
            assert(rows[rows.len() - 1].0 == b.mu);
        } else {
            let i = choose|i: int| 0 <= i < n && (#[trigger] f[i]).0 == a.mu;
            assert(rows[i] == f[i]);
        }
    }
    let e = (r.val)(eps.0);
    if s == bits::NEG_INF && !eps.uniform() {
        assert(b == a);
        assert forall|c: int| 0 <= c < d implies load(r, rows, c, b.mu, eps) == load(
            r,
            f,
            c,
            a.mu,
            eps,
        ) by {
            reals::lemma_units((r.val)(v[c]));
        }
    } else if !eps.uniform() && bits::num_lt(s, a.mu) && (eps.tropical() || a.mu == bits::POS_INF) {
        // a lower row under an anchor that takes all
        assert(b == a);
        assert forall|c: int| 0 <= c < d implies load(r, rows, c, b.mu, eps) == load(
            r,
            f,
            c,
            a.mu,
            eps,
        ) by {
            reals::lemma_units((r.val)(v[c]));
        }
    } else if eps.uniform() || (bits::num_eq(s, a.mu) && (eps.tropical() || s == bits::POS_INF)) {
        assert(b == fold::counted(k, a, v));
        assert(left(r, a.mu, eps) == 1 as real);
        assert(pull(r, s, a.mu, eps) == 1 as real);
        let z = (r.val)(a.z);
        reals::lemma_units(z);
        reals::lemma_units(z + 1 as real);
        if n == 0 && eps.uniform() {
            assert(mass(r, f, a.mu, eps) == 0 as real);
        }
        assert forall|c: int| 0 <= c < d implies (r.val)(#[trigger] b.u[c]) * left(r, b.mu, eps)
            == load(r, rows, c, b.mu, eps) && g.has(n + 1, b.u[c]) by {
            assert(adds(k, r, g, n, 1, a.u[c], v[c]));
            let (x, y) = ((r.val)(a.u[c]), (r.val)(v[c]));
            reals::lemma_units(x);
            reals::lemma_units(y);
            reals::lemma_units(x + y);
        }
    } else if eps.tropical() || s == bits::POS_INF || a.mu == bits::NEG_INF {
        // the first row of weight, or one that takes all
        assert(b == fold::single(s, v));
        if a.mu == bits::NEG_INF {
            assert forall|i: int| 0 <= i < f.len() implies (#[trigger] f[i]).0 == bits::NEG_INF by {
                assert(!bits::nan(rows[i].0));
                assert(rows[i] == f[i]);
                assert(bits::magnitude(f[i].0) <= bits::POS_INF);
            }
            lemma_nothing(r, f, 0, s, eps);
        } else {
            assert forall|i: int| 0 <= i < f.len() implies (#[trigger] f[i]).0 == bits::NEG_INF
                || !bits::num_eq(f[i].0, s) by {}
            lemma_below(r, f, 0, s, eps);
        }
        let p = pull(r, s, s, eps);
        assert(p == left(r, s, eps));
        reals::lemma_units(p);
        assert forall|c: int| 0 <= c < d implies (r.val)(#[trigger] b.u[c]) * left(r, b.mu, eps)
            == load(r, rows, c, b.mu, eps) && g.has(n + 1, b.u[c]) by {
            if a.mu == bits::NEG_INF {
                lemma_nothing(r, f, c, s, eps);
            } else {
                lemma_below(r, f, c, s, eps);
            }
            reals::lemma_regroup(p, (r.val)(v[c]), p);
        }
    } else {
        assert(fold::tempered(eps) && bits::finite(s) && bits::finite(a.mu));
        lemma_reweighed(k, r, g, a, rows, d, eps);
    }
}

/// One more row of finite score between the limits.
proof fn lemma_reweighed(
    k: arith::Calc,
    r: Reading,
    g: Range,
    a: Acc,
    rows: Seq<(u64, Seq<u64>)>,
    d: nat,
    eps: Eps,
)
    requires
        reads(k, r, g, eps),
        fold::tempered(eps),
        rows.len() > 0,
        rows.len() <= g.rows,
        monoid::row_fits(rows.last(), d, g),
        fold::scored(rows),
        stands_for(r, g, a, rows.drop_last(), d, eps),
        bits::finite(rows.last().0),
        bits::finite(a.mu),
    ensures
        ({
            let b = fold::reweighed(k, a, rows.last().0, rows.last().1, eps);
            &&& b.u.len() == d
            &&& g.has(rows.len(), b.z)
            &&& forall|c: int| 0 <= c < d ==> g.has(rows.len(), #[trigger] b.u[c])
            &&& (r.val)(b.z) * left(r, b.mu, eps) == mass(r, rows, b.mu, eps)
            &&& forall|c: int|
                0 <= c < d ==> (r.val)(#[trigger] b.u[c]) * left(r, b.mu, eps) == load(
                    r,
                    rows,
                    c,
                    b.mu,
                    eps,
                )
            &&& (r.val)(b.z) >= 1 as real
        }),
{
    let f = rows.drop_last();
    let (s, v) = rows.last();
    let n = f.len();
    let b = fold::reweighed(k, a, s, v, eps);
    let m = arith::larger(a.mu, s);
    assert(m == a.mu || m == s);
    assert(g.upward(a.mu, m) && g.upward(s, m) && bits::finite(m));
    assert(weighs(k, r, g, a.mu, m, eps));
    assert(weighs(k, r, g, s, m, eps));
    let (p, q) = (arith::weight(k, a.mu, m, eps.0), arith::weight(k, s, m, eps.0));
    assert(scales(k, r, g, n, a.z, a.mu, m, eps));
    assert(adds(k, r, g, n, 1, k(Op::Times, a.z, p), q));
    reals::weight_is_the_exponential_of_the_distance(k, r, a.mu, m, eps.0);
    reals::weight_is_the_exponential_of_the_distance(k, r, s, m, eps.0);
    let (x, y, t, e) = ((r.val)(a.mu), (r.val)(s), (r.val)(m), (r.val)(eps.0));
    let (vp, vq) = ((r.val)(p), (r.val)(q));
    let (lx, ly, lt) = ((r.exp)(x / e), (r.exp)(y / e), (r.exp)(t / e));
    assert(e != 0 as real);
    lemma_moved(r, x, t, e);
    lemma_moved(r, y, t, e);
    assert(vp * lt == lx && vq * lt == ly && vp > 0 as real && vq > 0 as real);
    let z = (r.val)(a.z);
    reals::lemma_spread(z * vp, vq, lt);
    reals::lemma_regroup(z, vp, lt);
    lemma_same_pull(r, f, 0, a.mu, m, eps);
    assert((r.val)(b.z) == z * vp + vq);
    lemma_zero_moved(r, t, e);
    reals::lemma_units(z);
    reals::lemma_positive(z, vp);
    assert(z * vp + vq >= 1 as real);
    assert forall|c: int| 0 <= c < d implies (r.val)(#[trigger] b.u[c]) * left(r, b.mu, eps) == load(
        r,
        rows,
        c,
        b.mu,
        eps,
    ) && g.has(rows.len(), b.u[c]) by {
        assert(g.has(1, v[c]));
        assert(scales(k, r, g, n, a.u[c], a.mu, m, eps));
        assert(scales(k, r, g, 1, v[c], s, m, eps));
        assert(adds(k, r, g, n, 1, k(Op::Times, a.u[c], p), k(Op::Times, q, v[c])));
        lemma_same_pull(r, f, c, a.mu, m, eps);
        let (o, w) = ((r.val)(a.u[c]), (r.val)(v[c]));
        reals::lemma_spread(o * vp, vq * w, lt);
        reals::lemma_regroup(o, vp, lt);
        reals::lemma_regroup(vq, w, lt);
        reals::lemma_regroup(w, lt, vq);
        reals::lemma_regroup(vq, lt, w);
    }
}

/// A weight under an anchor, moved to no anchor.
proof fn lemma_moved(r: Reading, x: real, t: real, e: real)
    requires
        reals::exponential(r),
        e != 0 as real,
    ensures
        (r.exp)((x - t) / e) * (r.exp)(t / e) == (r.exp)(x / e),
        (r.exp)((x - t) / e) > 0 as real,
{
    assert((x - t) / e + t / e == x / e) by (nonlinear_arith)
        requires
            e != 0 as real,
    ;
    reals::lemma_exp(r, (x - t) / e, t / e);
}

proof fn lemma_zero_moved(r: Reading, t: real, e: real)
    requires
        reals::exponential(r),
        e != 0 as real,
    ensures
        (r.exp)((t - t) / e) == 1 as real,
{
    assert((t - t) / e == 0 as real) by (nonlinear_arith)
        requires
            e != 0 as real,
    ;
}

/// What a run of rows leaves stands for them.
proof fn lemma_folded(
    k: arith::Calc,
    r: Reading,
    g: Range,
    d: nat,
    rows: Seq<(u64, Seq<u64>)>,
    eps: Eps,
)
    requires
        reads(k, r, g, eps),
        rows.len() <= g.rows,
        monoid::rows_fit(rows, d, g),
    ensures
        stands_for(r, g, fold::folded(k, d, rows, eps), rows, d, eps),
    decreases rows.len(),
{
    if rows.len() == 0 {
        let l = left(r, bits::NEG_INF, eps);
        reals::lemma_units(l);
    } else {
        let f = rows.drop_last();
        assert forall|i: int| 0 <= i < f.len() implies monoid::row_fits(#[trigger] f[i], d, g) by {
            assert(f[i] == rows[i]);
        }
        lemma_folded(k, r, g, d, f, eps);
        assert(rows[rows.len() - 1] == rows.last());
        assert(monoid::row_fits(rows[rows.len() - 1], d, g));
        assert forall|i: int| 0 <= i < rows.len() implies !bits::nan((#[trigger] rows[i]).0) by {
            assert(monoid::row_fits(rows[i], d, g));
        }
        lemma_absorbed(k, r, g, fold::folded(k, d, f, eps), rows, d, eps);
    }
}

/// The soft average of rows is the mean of their values, each weighted by
/// `e^(score / eps)`: plainly in the uniform limit, and over the rows at the
/// largest score in the tropical limit or where that score is plus
/// infinity. It asks that no step rounds, the last division included.
pub proof fn soft_average_is_the_weighted_mean(
    k: arith::Calc,
    r: Reading,
    g: Range,
    d: nat,
    rows: Seq<(u64, Seq<u64>)>,
    top: u64,
    eps: Eps,
)
    requires
        reads(k, r, g, eps),
        rows.len() <= g.rows,
        monoid::rows_fit(rows, d, g),
        topped(rows, top),
        eps.uniform() || top != bits::NEG_INF,
        ({
            let a = fold::folded(k, d, rows, eps);
            forall|c: int| 0 <= c < d ==> reals::precise(k, r, Op::Over, #[trigger] a.u[c], a.z)
        }),
    ensures
        mass(r, rows, top, eps) > 0 as real,
        fold::output(k, fold::folded(k, d, rows, eps)) matches Some(o) && o.len() == d && forall|
            c: int,
        |
            0 <= c < d ==> (r.val)(#[trigger] o[c]) == load(r, rows, c, top, eps) / mass(
                r,
                rows,
                top,
                eps,
            ),
{
    lemma_folded(k, r, g, d, rows, eps);
    let a = fold::folded(k, d, rows, eps);
    let i = choose|i: int| 0 <= i < rows.len() && (#[trigger] rows[i]).0 == top;
    assert(!bits::nan(rows[i].0));
    assert(bits::magnitude(top) <= bits::POS_INF);
    assert(bits::magnitude(a.mu) <= bits::POS_INF);
    if !eps.uniform() {
        assert(bits::rank(rows[i].0) <= bits::rank(a.mu));
        let j = choose|j: int| 0 <= j < rows.len() && (#[trigger] rows[j]).0 == a.mu;
        assert(bits::rank(rows[j].0) <= bits::rank(top));
        assert(bits::num_eq(a.mu, top));
    }
    assert(tells_zero(r, g, rows.len(), a.z));
    let o = fold::output(k, a)->0;
    let (z, l) = ((r.val)(a.z), left(r, a.mu, eps));
    if fold::tempered(eps) && bits::finite(a.mu) {
        reals::lemma_exp(r, (r.val)(a.mu) / (r.val)(eps.0), 0 as real);
    }
    assert(l > 0 as real);
    reals::lemma_positive(z, l);
    lemma_same_pull(r, rows, 0, a.mu, top, eps);
    assert forall|c: int| 0 <= c < d implies (r.val)(#[trigger] o[c]) == load(r, rows, c, top, eps)
        / mass(r, rows, top, eps) by {
        lemma_same_pull(r, rows, c, a.mu, top, eps);
        assert(reals::precise(k, r, Op::Over, a.u[c], a.z));
        let u = (r.val)(a.u[c]);
        reals::lemma_factor(u, z, l);
    }
}

// ------------------------------------------------------------------ groups

/// No component is NaN.
pub open spec fn whole_value(v: Seq<u64>) -> bool {
    forall|c: int| 0 <= c < v.len() ==> !bits::nan(#[trigger] v[c])
}

/// Row `i` is averaged in group `grp`: it is of that group, the filter lets
/// it pass, and neither its score nor its value holds a NaN.
pub open spec fn taken(
    sc: RowScore,
    v: Seq<Seq<u64>>,
    gid: Seq<u32>,
    sel: Option<Seq<bool>>,
    grp: int,
    i: int,
) -> bool {
    &&& gid[i] == grp
    &&& match sel {
        Some(pass) => pass[i],
        None => true,
    }
    &&& !bits::nan(sc(i as usize))
    &&& whole_value(v[i])
}

/// All that the first `n` rows pull in a group.
pub open spec fn group_mass(
    r: Reading,
    sc: RowScore,
    v: Seq<Seq<u64>>,
    gid: Seq<u32>,
    sel: Option<Seq<bool>>,
    grp: int,
    n: nat,
    top: u64,
    eps: Eps,
) -> real
    decreases n,
{
    if n == 0 {
        0 as real
    } else {
        let before = group_mass(r, sc, v, gid, sel, grp, (n - 1) as nat, top, eps);
        if taken(sc, v, gid, sel, grp, n - 1) {
            before + pull(r, sc((n - 1) as usize), top, eps)
        } else {
            before
        }
    }
}

/// The values that the first `n` rows pull in a group, each times how much,
/// in component `c`.
pub open spec fn group_load(
    r: Reading,
    sc: RowScore,
    v: Seq<Seq<u64>>,
    gid: Seq<u32>,
    sel: Option<Seq<bool>>,
    grp: int,
    n: nat,
    c: int,
    top: u64,
    eps: Eps,
) -> real
    decreases n,
{
    if n == 0 {
        0 as real
    } else {
        let before = group_load(r, sc, v, gid, sel, grp, (n - 1) as nat, c, top, eps);
        if taken(sc, v, gid, sel, grp, n - 1) {
            before + pull(r, sc((n - 1) as usize), top, eps) * (r.val)(v[n - 1][c])
        } else {
            before
        }
    }
}

/// `top` is the largest score of the rows that a group averages.
pub open spec fn group_top(
    sc: RowScore,
    v: Seq<Seq<u64>>,
    gid: Seq<u32>,
    sel: Option<Seq<bool>>,
    grp: int,
    top: u64,
) -> bool {
    &&& forall|i: int|
        0 <= i < v.len() && #[trigger] taken(sc, v, gid, sel, grp, i) ==> bits::rank(sc(i as usize))
            <= bits::rank(top)
    &&& exists|i: int|
        0 <= i < v.len() && #[trigger] taken(sc, v, gid, sel, grp, i) && sc(i as usize) == top
}

/// The rows that a group folds, over the table.
proof fn lemma_group_rows(
    r: Reading,
    sc: RowScore,
    v: Seq<Seq<u64>>,
    gid: Seq<u32>,
    sel: Option<Seq<bool>>,
    grp: int,
    n: nat,
    c: int,
    top: u64,
    eps: Eps,
)
    requires
        n <= v.len(),
    ensures
        ({
            let rows = mask::group_rows(sc, v, gid, sel, 0, n as int, grp);
            &&& mass(r, rows, top, eps) == group_mass(r, sc, v, gid, sel, grp, n, top, eps)
            &&& load(r, rows, c, top, eps) == group_load(r, sc, v, gid, sel, grp, n, c, top, eps)
            &&& rows.len() <= n
            &&& forall|x: int|
                0 <= x < rows.len() ==> exists|i: int|
                    0 <= i < n && #[trigger] taken(sc, v, gid, sel, grp, i) && (
                    #[trigger] rows[x]) == (sc(i as usize), v[i])
            &&& forall|i: int|
                0 <= i < n && #[trigger] taken(sc, v, gid, sel, grp, i) ==> rows.contains(
                    (sc(i as usize), v[i]),
                )
        }),
    decreases n,
{
    if n > 0 {
        lemma_group_rows(r, sc, v, gid, sel, grp, (n - 1) as nat, c, top, eps);
        let rest = mask::group_rows(sc, v, gid, sel, 0, n - 1, grp);
        let rows = mask::group_rows(sc, v, gid, sel, 0, n as int, grp);
        let last = n - 1;
        let t = taken(sc, v, gid, sel, grp, last);
        assert(whole_value(v[last]) <==> matrix::present(v[last]));
        if t {
            assert(rows == rest.push((sc(last as usize), v[last])));
            assert(rows.drop_last() =~= rest);
        } else {
            assert(rows == rest);
        }
        assert forall|x: int| 0 <= x < rows.len() implies exists|i: int|
            0 <= i < n && #[trigger] taken(sc, v, gid, sel, grp, i) && (#[trigger] rows[x]) == (
            sc(i as usize),
            v[i],
        ) by {
            if x < rest.len() {
                assert(rows[x] == rest[x]);
                let i = choose|i: int|
                    0 <= i < n - 1 && #[trigger] taken(sc, v, gid, sel, grp, i) && rest[x] == (
                    sc(i as usize),
                    v[i],
                );
                assert(taken(sc, v, gid, sel, grp, i));
            } else {
                assert(taken(sc, v, gid, sel, grp, last));
            }
        }
        assert forall|i: int| 0 <= i < n && #[trigger] taken(sc, v, gid, sel, grp, i) implies rows.contains(
            (sc(i as usize), v[i]),
        ) by {
            if i < n - 1 {
                assert(rest.contains((sc(i as usize), v[i])));
                let x = rest.index_of((sc(i as usize), v[i]));
                assert(rows[x] == (sc(i as usize), v[i]));
            } else {
                assert(rows[rows.len() - 1] == (sc(i as usize), v[i]));
            }
        }
    }
}

/// For each group, a grouped soft-average answers the mean of the values of
/// the rows of that group that pass the filter, each weighted by `e^(score /
/// eps)`: plainly in the uniform limit, over the rows at the largest score
/// in the tropical limit. It asks that no step rounds.
pub proof fn grouped_average_is_the_weighted_mean(
    k: arith::Calc,
    r: Reading,
    g: Range,
    sc: RowScore,
    v: Seq<Seq<u64>>,
    d: nat,
    gid: Seq<u32>,
    sel: Option<Seq<bool>>,
    n_groups: nat,
    eps: Eps,
    out: Seq<Seq<u64>>,
    covered: Seq<bool>,
    grp: int,
    top: u64,
)
    requires
        mask::grouped_outcome(k, sc, v, d, gid, sel, n_groups, eps, out, covered),
        monoid::exact(k, g, eps),
        reads(k, r, g, eps),
        v.len() <= g.rows,
        v.len() <= usize::MAX,
        forall|i: usize| i < v.len() ==> partition::score_fits(#[trigger] sc(i), g),
        partition::wide(v, d, g),
        0 <= grp < n_groups,
        group_top(sc, v, gid, sel, grp, top),
        eps.uniform() || top != bits::NEG_INF,
        ({
            let a = partition::whole_groups(k, sc, v, d, gid, sel, n_groups, eps)[grp];
            forall|c: int| 0 <= c < d ==> reals::precise(k, r, Op::Over, #[trigger] a.u[c], a.z)
        }),
    ensures
        covered[grp],
        out[grp].len() == d,
        group_mass(r, sc, v, gid, sel, grp, v.len(), top, eps) > 0 as real,
        forall|c: int|
            0 <= c < d ==> (r.val)(#[trigger] out[grp][c]) == group_load(
                r,
                sc,
                v,
                gid,
                sel,
                grp,
                v.len(),
                c,
                top,
                eps,
            ) / group_mass(r, sc, v, gid, sel, grp, v.len(), top, eps),
{
    partition::parallel_grouping_is_one_pass(
        k,
        sc,
        v,
        d,
        gid,
        sel,
        n_groups,
        g,
        eps,
        out,
        covered,
    );
    let n = v.len();
    let rows = mask::group_rows(sc, v, gid, sel, 0, n as int, grp);
    lemma_group_rows(r, sc, v, gid, sel, grp, n, 0, top, eps);
    assert forall|x: int| 0 <= x < rows.len() implies monoid::row_fits(#[trigger] rows[x], d, g)
        && bits::rank(rows[x].0) <= bits::rank(top) by {
        let i = choose|i: int|
            0 <= i < n && #[trigger] taken(sc, v, gid, sel, grp, i) && rows[x] == (
            sc(i as usize),
            v[i],
        );
        assert(partition::score_fits(sc(i as usize), g));
        assert(partition::value_fits(v[i], d, g));
    }
    let i = choose|i: int|
        0 <= i < n && #[trigger] taken(sc, v, gid, sel, grp, i) && sc(i as usize) == top;
    let x = rows.index_of((sc(i as usize), v[i]));
    assert(rows[x].0 == top);
    assert forall|y: int| 0 <= y < rows.len() implies !bits::nan((#[trigger] rows[y]).0) by {
        assert(monoid::row_fits(rows[y], d, g));
    }
    assert(topped(rows, top));
    assert(partition::whole_groups(k, sc, v, d, gid, sel, n_groups, eps)[grp] == fold::folded(
        k,
        d,
        rows,
        eps,
    ));
    soft_average_is_the_weighted_mean(k, r, g, d, rows, top, eps);
    assert forall|c: int| 0 <= c < d implies (r.val)(#[trigger] out[grp][c]) == group_load(
        r,
        sc,
        v,
        gid,
        sel,
        grp,
        n,
        c,
        top,
        eps,
    ) / group_mass(r, sc, v, gid, sel, grp, n, top, eps) by {
        lemma_group_rows(r, sc, v, gid, sel, grp, n, c, top, eps);
    }
}

// ------------------------------------------------------------------- masks

/// Pair `p` is averaged for query row `q`: it names that row, and neither
/// its score nor its value holds a NaN.
pub open spec fn drawn(sc: PairScore, v: Seq<Seq<u64>>, p: (usize, usize), q: int) -> bool {
    p.0 == q && !bits::nan(sc(p.0, p.1)) && whole_value(v[p.1 as int])
}

/// All that pairs pull for a query row.
pub open spec fn pair_mass(
    r: Reading,
    sc: PairScore,
    v: Seq<Seq<u64>>,
    pairs: Seq<(usize, usize)>,
    q: int,
    top: u64,
    eps: Eps,
) -> real
    decreases pairs.len(),
{
    if pairs.len() == 0 {
        0 as real
    } else {
        let before = pair_mass(r, sc, v, pairs.drop_last(), q, top, eps);
        let p = pairs.last();
        if drawn(sc, v, p, q) {
            before + pull(r, sc(p.0, p.1), top, eps)
        } else {
            before
        }
    }
}

/// The values that pairs pull for a query row, each times how much, in
/// component `c`.
pub open spec fn pair_load(
    r: Reading,
    sc: PairScore,
    v: Seq<Seq<u64>>,
    pairs: Seq<(usize, usize)>,
    q: int,
    c: int,
    top: u64,
    eps: Eps,
) -> real
    decreases pairs.len(),
{
    if pairs.len() == 0 {
        0 as real
    } else {
        let before = pair_load(r, sc, v, pairs.drop_last(), q, c, top, eps);
        let p = pairs.last();
        if drawn(sc, v, p, q) {
            before + pull(r, sc(p.0, p.1), top, eps) * (r.val)(v[p.1 as int][c])
        } else {
            before
        }
    }
}

/// `top` is the largest score of the pairs that a query row averages.
pub open spec fn pair_top(
    sc: PairScore,
    v: Seq<Seq<u64>>,
    pairs: Seq<(usize, usize)>,
    q: int,
    top: u64,
) -> bool {
    &&& forall|t: int|
        0 <= t < pairs.len() && drawn(sc, v, #[trigger] pairs[t], q) ==> bits::rank(
            sc(pairs[t].0, pairs[t].1),
        ) <= bits::rank(top)
    &&& exists|t: int|
        0 <= t < pairs.len() && drawn(sc, v, #[trigger] pairs[t], q) && sc(pairs[t].0, pairs[t].1)
            == top
}

/// The rows that a query row folds, over the pairs.
proof fn lemma_pair_rows(
    r: Reading,
    sc: PairScore,
    v: Seq<Seq<u64>>,
    pairs: Seq<(usize, usize)>,
    q: int,
    c: int,
    top: u64,
    eps: Eps,
)
    ensures
        ({
            let rows = mask::pair_rows(sc, v, pairs, q);
            &&& mass(r, rows, top, eps) == pair_mass(r, sc, v, pairs, q, top, eps)
            &&& load(r, rows, c, top, eps) == pair_load(r, sc, v, pairs, q, c, top, eps)
            &&& rows.len() <= pairs.len()
            &&& forall|x: int|
                0 <= x < rows.len() ==> exists|t: int|
                    0 <= t < pairs.len() && drawn(sc, v, #[trigger] pairs[t], q) && (
                    #[trigger] rows[x]) == (sc(pairs[t].0, pairs[t].1), v[pairs[t].1 as int])
            &&& forall|t: int|
                0 <= t < pairs.len() && drawn(sc, v, #[trigger] pairs[t], q) ==> rows.contains(
                    (sc(pairs[t].0, pairs[t].1), v[pairs[t].1 as int]),
                )
        }),
    decreases pairs.len(),
{
    if pairs.len() > 0 {
        let less = pairs.drop_last();
        lemma_pair_rows(r, sc, v, less, q, c, top, eps);
        let rest = mask::pair_rows(sc, v, less, q);
        let rows = mask::pair_rows(sc, v, pairs, q);
        let last = pairs.len() - 1;
        let p = pairs[last];
        assert(p == pairs.last());
        let row = (sc(p.0, p.1), v[p.1 as int]);
        assert(whole_value(v[p.1 as int]) <==> matrix::present(v[p.1 as int]));
        if drawn(sc, v, p, q) {
            assert(rows == rest.push(row));
            assert(rows.drop_last() =~= rest);
        } else {
            assert(rows == rest);
        }
        assert forall|x: int| 0 <= x < rows.len() implies exists|t: int|
            0 <= t < pairs.len() && drawn(sc, v, #[trigger] pairs[t], q) && (#[trigger] rows[x])
                == (sc(pairs[t].0, pairs[t].1), v[pairs[t].1 as int]) by {
            if x < rest.len() {
                assert(rows[x] == rest[x]);
                let t = choose|t: int|
                    0 <= t < less.len() && drawn(sc, v, #[trigger] less[t], q) && rest[x] == (
                        sc(less[t].0, less[t].1),
                        v[less[t].1 as int],
                    );
                assert(pairs[t] == less[t]);
            } else {
                assert(drawn(sc, v, pairs[last], q));
            }
        }
        assert forall|t: int| 0 <= t < pairs.len() && drawn(sc, v, #[trigger] pairs[t], q) implies rows.contains(
            (sc(pairs[t].0, pairs[t].1), v[pairs[t].1 as int]),
        ) by {
            let w = (sc(pairs[t].0, pairs[t].1), v[pairs[t].1 as int]);
            if t < last {
                assert(less[t] == pairs[t]);
                assert(rest.contains(w));
                assert(rows[rest.index_of(w)] == w);
            } else {
                assert(rows[rows.len() - 1] == w);
            }
        }
    }
}

/// For each query row, a masked attention answers the mean of the values
/// that its pairs name, each weighted by `e^(score / eps)`: plainly in the
/// uniform limit, over the pairs at the largest score in the tropical limit.
/// It asks that no step rounds.
pub proof fn masked_average_is_the_weighted_mean(
    k: arith::Calc,
    r: Reading,
    g: Range,
    sc: PairScore,
    v: Seq<Seq<u64>>,
    d: nat,
    pairs: Seq<(usize, usize)>,
    n_q: nat,
    eps: Eps,
    out: Seq<Seq<u64>>,
    covered: Seq<bool>,
    q: int,
    top: u64,
)
    requires
        mask::masked_outcome(k, sc, v, d, pairs, n_q, eps, out, covered),
        monoid::exact(k, g, eps),
        reads(k, r, g, eps),
        pairs.len() <= g.rows,
        partition::wide(v, d, g),
        partition::named(sc, pairs, v, g),
        0 <= q < n_q,
        pair_top(sc, v, pairs, q, top),
        eps.uniform() || top != bits::NEG_INF,
        ({
            let a = partition::whole_rows(k, sc, v, d, pairs, n_q, eps)[q];
            forall|c: int| 0 <= c < d ==> reals::precise(k, r, Op::Over, #[trigger] a.u[c], a.z)
        }),
    ensures
        covered[q],
        out[q].len() == d,
        pair_mass(r, sc, v, pairs, q, top, eps) > 0 as real,
        forall|c: int|
            0 <= c < d ==> (r.val)(#[trigger] out[q][c]) == pair_load(
                r,
                sc,
                v,
                pairs,
                q,
                c,
                top,
                eps,
            ) / pair_mass(r, sc, v, pairs, q, top, eps),
{
    partition::parallel_mask_is_one_pass(k, sc, v, d, pairs, n_q, g, eps, out, covered);
    let rows = mask::pair_rows(sc, v, pairs, q);
    lemma_pair_rows(r, sc, v, pairs, q, 0, top, eps);
    assert forall|x: int| 0 <= x < rows.len() implies monoid::row_fits(#[trigger] rows[x], d, g)
        && bits::rank(rows[x].0) <= bits::rank(top) by {
        let t = choose|t: int|
            0 <= t < pairs.len() && drawn(sc, v, #[trigger] pairs[t], q) && rows[x] == (
                sc(pairs[t].0, pairs[t].1),
                v[pairs[t].1 as int],
            );
        assert(pairs[t].1 < v.len() && partition::score_fits(sc(pairs[t].0, pairs[t].1), g));
        assert(partition::value_fits(v[pairs[t].1 as int], d, g));
    }
    let t = choose|t: int|
        0 <= t < pairs.len() && drawn(sc, v, #[trigger] pairs[t], q) && sc(pairs[t].0, pairs[t].1)
            == top;
    let x = rows.index_of((sc(pairs[t].0, pairs[t].1), v[pairs[t].1 as int]));
    assert(rows[x].0 == top);
    assert forall|y: int| 0 <= y < rows.len() implies !bits::nan((#[trigger] rows[y]).0) by {
        assert(monoid::row_fits(rows[y], d, g));
    }
    assert(topped(rows, top));
    assert(partition::whole_rows(k, sc, v, d, pairs, n_q, eps)[q] == fold::folded(
        k,
        d,
        rows,
        eps,
    ));
    soft_average_is_the_weighted_mean(k, r, g, d, rows, top, eps);
    assert forall|c: int| 0 <= c < d implies (r.val)(#[trigger] out[q][c]) == pair_load(
        r,
        sc,
        v,
        pairs,
        q,
        c,
        top,
        eps,
    ) / pair_mass(r, sc, v, pairs, q, top, eps) by {
        lemma_pair_rows(r, sc, v, pairs, q, c, top, eps);
    }
}

// ----------------------------------------------------------------- scaling

/// Scaling a score and the temperature by the same factor keeps the pull.
proof fn lemma_scaled_pull(r: Reading, s: u64, s2: u64, top: u64, top2: u64, eps: Eps, eps2: Eps, f: real)
    requires
        fold::tempered(eps) && fold::tempered(eps2),
        bits::finite(s) && bits::finite(s2) && bits::finite(top) && bits::finite(top2),
        f > 0 as real,
        (r.val)(eps.0) != 0 as real && (r.val)(eps2.0) != 0 as real,
        (r.val)(s2) == (r.val)(s) * f,
        (r.val)(eps2.0) == (r.val)(eps.0) * f,
    ensures
        pull(r, s, top, eps) == pull(r, s2, top2, eps2),
{
    reals::lemma_factor((r.val)(s), (r.val)(eps.0), f);
}

proof fn lemma_scaled_group(
    r: Reading,
    sc: RowScore,
    sc2: RowScore,
    v: Seq<Seq<u64>>,
    gid: Seq<u32>,
    sel: Option<Seq<bool>>,
    grp: int,
    n: nat,
    c: int,
    top: u64,
    top2: u64,
    eps: Eps,
    eps2: Eps,
    f: real,
)
    requires
        n <= v.len() <= usize::MAX,
        fold::tempered(eps) && fold::tempered(eps2),
        bits::finite(top) && bits::finite(top2),
        f > 0 as real,
        (r.val)(eps.0) != 0 as real && (r.val)(eps2.0) != 0 as real,
        (r.val)(eps2.0) == (r.val)(eps.0) * f,
        forall|i: usize|
            i < v.len() ==> bits::finite(#[trigger] sc(i)) && bits::finite(sc2(i)) && (r.val)(
                sc2(i),
            ) == (r.val)(sc(i)) * f,
    ensures
        group_mass(r, sc, v, gid, sel, grp, n, top, eps) == group_mass(
            r,
            sc2,
            v,
            gid,
            sel,
            grp,
            n,
            top2,
            eps2,
        ),
        group_load(r, sc, v, gid, sel, grp, n, c, top, eps) == group_load(
            r,
            sc2,
            v,
            gid,
            sel,
            grp,
            n,
            c,
            top2,
            eps2,
        ),
    decreases n,
{
    if n > 0 {
        lemma_scaled_group(
            r,
            sc,
            sc2,
            v,
            gid,
            sel,
            grp,
            (n - 1) as nat,
            c,
            top,
            top2,
            eps,
            eps2,
            f,
        );
        let i = (n - 1) as usize;
        assert(bits::finite(sc(i)));
        assert(taken(sc, v, gid, sel, grp, n - 1) == taken(sc2, v, gid, sel, grp, n - 1));
        lemma_scaled_pull(r, sc(i), sc2(i), top, top2, eps, eps2, f);
    }
}

/// Scaling all scores and the temperature by the same positive factor leaves
/// every grouped answer as it was, between the limits and wherever nothing
/// rounds: the weights depend on scores through their distance in
/// temperatures alone.
pub proof fn scaling_scores_and_temperature_keeps_the_average(
    k: arith::Calc,
    r: Reading,
    g: Range,
    g2: Range,
    sc: RowScore,
    sc2: RowScore,
    v: Seq<Seq<u64>>,
    d: nat,
    gid: Seq<u32>,
    sel: Option<Seq<bool>>,
    n_groups: nat,
    eps: Eps,
    eps2: Eps,
    out: Seq<Seq<u64>>,
    covered: Seq<bool>,
    out2: Seq<Seq<u64>>,
    covered2: Seq<bool>,
    grp: int,
    top: u64,
    top2: u64,
    f: real,
)
    requires
        fold::tempered(eps) && fold::tempered(eps2),
        f > 0 as real,
        (r.val)(eps.0) != 0 as real && (r.val)(eps2.0) != 0 as real,
        (r.val)(eps2.0) == (r.val)(eps.0) * f,
        forall|i: usize|
            i < v.len() ==> bits::finite(#[trigger] sc(i)) && bits::finite(sc2(i)) && (r.val)(
                sc2(i),
            ) == (r.val)(sc(i)) * f,
        mask::grouped_outcome(k, sc, v, d, gid, sel, n_groups, eps, out, covered),
        mask::grouped_outcome(k, sc2, v, d, gid, sel, n_groups, eps2, out2, covered2),
        monoid::exact(k, g, eps) && reads(k, r, g, eps),
        monoid::exact(k, g2, eps2) && reads(k, r, g2, eps2),
        v.len() <= g.rows && v.len() <= g2.rows,
        v.len() <= usize::MAX,
        forall|i: usize| i < v.len() ==> partition::score_fits(#[trigger] sc(i), g),
        forall|i: usize| i < v.len() ==> partition::score_fits(#[trigger] sc2(i), g2),
        partition::wide(v, d, g) && partition::wide(v, d, g2),
        0 <= grp < n_groups,
        group_top(sc, v, gid, sel, grp, top),
        group_top(sc2, v, gid, sel, grp, top2),
        ({
            let a = partition::whole_groups(k, sc, v, d, gid, sel, n_groups, eps)[grp];
            forall|c: int| 0 <= c < d ==> reals::precise(k, r, Op::Over, #[trigger] a.u[c], a.z)
        }),
        ({
            let a = partition::whole_groups(k, sc2, v, d, gid, sel, n_groups, eps2)[grp];
            forall|c: int| 0 <= c < d ==> reals::precise(k, r, Op::Over, #[trigger] a.u[c], a.z)
        }),
    ensures
        covered[grp] && covered2[grp],
        forall|c: int| 0 <= c < d ==> (r.val)(#[trigger] out[grp][c]) == (r.val)(out2[grp][c]),
{
    let i = choose|i: int|
        0 <= i < v.len() && #[trigger] taken(sc, v, gid, sel, grp, i) && sc(i as usize) == top;
    let j = choose|j: int|
        0 <= j < v.len() && #[trigger] taken(sc2, v, gid, sel, grp, j) && sc2(j as usize) == top2;
    assert(bits::finite(sc(i as usize)));
    assert(bits::finite(sc(j as usize)));
    grouped_average_is_the_weighted_mean(
        k,
        r,
        g,
        sc,
        v,
        d,
        gid,
        sel,
        n_groups,
        eps,
        out,
        covered,
        grp,
        top,
    );
    grouped_average_is_the_weighted_mean(
        k,
        r,
        g2,
        sc2,
        v,
        d,
        gid,
        sel,
        n_groups,
        eps2,
        out2,
        covered2,
        grp,
        top2,
    );
    assert forall|c: int| 0 <= c < d implies (r.val)(#[trigger] out[grp][c]) == (r.val)(
        out2[grp][c],
    ) by {
        lemma_scaled_group(
            r,
            sc,
            sc2,
            v,
            gid,
            sel,
            grp,
            v.len(),
            c,
            top,
            top2,
            eps,
            eps2,
            f,
        );
        assert(out2[grp][c] == out2[grp][c]);
    }
}

// ----------------------------------------------------------------- aggregate

/// The answer of the aggregate over a group without NaN is the mean of the
/// values, weighted as the temperature has it; with a NaN it is NaN.
pub proof fn aggregate_is_the_weighted_mean(
    k: arith::Calc,
    r: Reading,
    g: Range,
    rows: Seq<(u64, u64)>,
    top: u64,
    eps: Eps,
)
    requires
        forall|i: int|
            0 <= i < rows.len() ==> !bits::nan((#[trigger] rows[i]).0) && !bits::nan(rows[i].1),
        reads(k, r, g, eps),
        rows.len() <= g.rows,
        monoid::rows_fit(single(rows), 1, g),
        topped(single(rows), top),
        eps.uniform() || top != bits::NEG_INF,
        ({
            let a = fold::folded(k, 1, single(rows), eps);
            reals::precise(k, r, Op::Over, a.u[0], a.z)
        }),
    ensures
        softavg::pg_output(k, softavg::pg_folded(k, rows, eps)) matches Some(o) && (r.val)(o)
            == load(r, single(rows), 0, top, eps) / mass(r, single(rows), top, eps),
        mass(r, single(rows), top, eps) > 0 as real,
{
    softavg::aggregate_mirrors_the_fold(k, rows, eps);
    lemma_single(rows);
    soft_average_is_the_weighted_mean(k, r, g, 1, single(rows), top, eps);
}

/// Rows with a value of one component.
pub open spec fn single(rows: Seq<(u64, u64)>) -> Seq<(u64, Seq<u64>)> {
    Seq::new(rows.len(), |i: int| (rows[i].0, seq![rows[i].1]))
}

proof fn lemma_single(rows: Seq<(u64, u64)>)
    requires
        forall|i: int|
            0 <= i < rows.len() ==> !bits::nan((#[trigger] rows[i]).0) && !bits::nan(rows[i].1),
    ensures
        softavg::clean_rows(rows) == single(rows),
    decreases rows.len(),
{
    if rows.len() > 0 {
        let f = rows.drop_last();
        assert forall|i: int| 0 <= i < f.len() implies !bits::nan((#[trigger] f[i]).0) && !bits::nan(
            f[i].1,
        ) by {
            assert(f[i] == rows[i]);
        }
        lemma_single(f);
        assert(rows[rows.len() - 1] == rows.last());
        assert(softavg::clean_rows(rows) =~= single(rows));
    } else {
        assert(softavg::clean_rows(rows) =~= single(rows));
    }
}

} // verus!
