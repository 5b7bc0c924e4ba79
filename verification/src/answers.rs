//! What partitioned and incremental memories answer, as real numbers: the
//! mean of the values, weighted by how much each row counts.

use vstd::prelude::*;

use crate::arith;
use crate::arith::Op;
use crate::averages;
use crate::bits;
use crate::crud;
use crate::crud::Memory;
use crate::distributed;
use crate::distributed::Triple;
use crate::fold;
use crate::maps;
use crate::mask::PairScore;
use crate::monoid;
use crate::monoid::Range;
use crate::operator;
use crate::reals;
use crate::reals::{rsum, Reading};
use crate::semiring;
use crate::sums;
use crate::totals;
use crate::tree;
use crate::types::{Eps, Sim};
use crate::unlearning;

verus! {

/// Only positive numbers are above zero.
pub open spec fn tells_sign(r: Reading, g: Range, i: nat, a: u64) -> bool {
    g.has(i, a) ==> (bits::num_lt(a, arith::ZERO) <==> (r.val)(a) < 0 as real)
}

/// A sum is divided by a sum of weights without rounding.
pub open spec fn divides(k: arith::Calc, r: Reading, g: Range, n: nat, a: u64, z: u64) -> bool {
    g.has(n, a) && g.has(n, z) && (r.val)(z) != 0 as real ==> reals::precise(k, r, Op::Over, a, z)
}

/// Nothing rounds up to the answer.
pub open spec fn answers(k: arith::Calc, r: Reading, g: Range, s: Seq<u64>, eps: Eps) -> bool {
    &&& totals::reads(k, r, g, s, eps)
    &&& forall|i: nat, a: u64| #[trigger] tells_sign(r, g, i, a)
    &&& forall|n: nat, a: u64, z: u64| #[trigger] divides(k, r, g, n, a, z)
}

proof fn lemma_sums_are_totals(
    k: arith::Calc,
    s: Seq<u64>,
    v: Seq<Seq<u64>>,
    m: u64,
    d: nat,
    eps: Eps,
    c: int,
)
    requires
        fold::tempered(eps),
        0 <= c < d,
        s.len() <= v.len(),
    ensures
        ({
            let t = distributed::summed(k, s, v, m, d, eps);
            &&& t.num.len() == d
            &&& t.num[c] == semiring::weighted_sum(k, s, totals::component(v, c), m, eps)
            &&& t.den == semiring::total(k, semiring::weights(k, s, m, eps))
        }),
    decreases s.len(),
{
    let w = semiring::weights(k, s, m, eps);
    if s.len() > 0 {
        let f = s.drop_last();
        lemma_sums_are_totals(k, f, v, m, d, eps, c);
        assert(w.drop_last() =~= semiring::weights(k, f, m, eps));
    } else {
        assert(w =~= Seq::empty());
    }
}

/// The answer of sums under their largest score.
proof fn lemma_answer(
    k: arith::Calc,
    r: Reading,
    g: Range,
    s: Seq<u64>,
    v: Seq<Seq<u64>>,
    d: nat,
    eps: Eps,
    c: int,
    any: u64,
)
    requires
        answers(k, r, g, s, eps),
        totals::some_finite(s),
        s.len() == v.len(),
        0 <= c < d,
        forall|i: int| 0 <= i < v.len() ==> g.has(1, (#[trigger] v[i])[c]),
    ensures
        ({
            let t = distributed::summed(k, s, v, semiring::peak(s), d, eps);
            (r.val)(distributed::outcome(k, Triple { m: any, ..t })[c]) * rsum(
                totals::counts(r, s, eps),
            ) == rsum(totals::portions(r, s, totals::component(v, c), eps))
        }),
        rsum(totals::counts(r, s, eps)) > 0 as real,
{
    let m = semiring::peak(s);
    let col = totals::component(v, c);
    assert forall|i: int| 0 <= i < s.len() implies g.has(1, #[trigger] col[i]) by {
        assert(g.has(1, v[i][c]));
    }
    lemma_sums_are_totals(k, s, v, m, d, eps, c);
    totals::lemma_anchor(k, r, g, s, eps);
    totals::lemma_total(k, r, g, s, m, eps);
    totals::lemma_weighted(k, r, g, s, col, m, eps);
    totals::lemma_weight(k, r, g, m, m, eps);
    let t = distributed::summed(k, s, v, m, d, eps);
    let (a, z, e) = ((r.val)(t.num[c]), (r.val)(t.den), totals::count_of(r, m, eps));
    assert(tells_sign(r, g, s.len(), t.den));
    assert(averages::tells_zero(r, g, s.len(), t.den));
    assert(divides(k, r, g, s.len(), t.num[c], t.den));
    assert(z > 0 as real) by (nonlinear_arith)
        requires
            z * e > 0 as real,
            e > 0 as real,
    ;
    // (a / z) * (z * e) == a * e
    reals::lemma_quotient(a, z, a / z);
    reals::lemma_regroup(a / z, z, e);
}

/// What the reduction of a partition's contribution answers is the mean of
/// the values, weighted by `e^(score / eps)`.
pub proof fn contribution_answers_the_weighted_mean(
    k: arith::Calc,
    r: Reading,
    g: Range,
    s: Seq<u64>,
    v: Seq<Seq<u64>>,
    d: nat,
    eps: Eps,
    c: int,
)
    requires
        answers(k, r, g, s, eps),
        totals::some_finite(s),
        s.len() == v.len(),
        v[0].len() == d,
        0 <= c < d,
        forall|i: int| 0 <= i < v.len() ==> g.has(1, (#[trigger] v[i])[c]),
    ensures
        (r.val)(distributed::outcome(k, distributed::contribution(k, s, v, eps))[c]) * rsum(
            totals::counts(r, s, eps),
        ) == rsum(totals::portions(r, s, totals::component(v, c), eps)),
        rsum(totals::counts(r, s, eps)) > 0 as real,
{
    totals::lemma_anchor(k, r, g, s, eps);
    let m = semiring::peak(s);
    lemma_answer(k, r, g, s, v, d, eps, c, m);
    let t = distributed::summed(k, s, v, m, d, eps);
    lemma_anchor(k, s, v, m, d, eps);
    assert(Triple { m, ..t } == t);
}

proof fn lemma_anchor(k: arith::Calc, s: Seq<u64>, v: Seq<Seq<u64>>, m: u64, d: nat, eps: Eps)
    ensures
        distributed::summed(k, s, v, m, d, eps).m == m,
    decreases s.len(),
{
    if s.len() > 0 {
        lemma_anchor(k, s.drop_last(), v, m, d, eps);
    }
}

/// However the rows are cut into parts, combining the parts' contributions
/// answers the mean over all rows.
pub proof fn partition_answers_the_weighted_mean(
    k: arith::Calc,
    r: Reading,
    g: Range,
    parts: Seq<Seq<(u64, Seq<u64>)>>,
    d: nat,
    eps: Eps,
    c: int,
)
    requires
        sums::gathers_exactly(k, g, eps),
        sums::filled(parts, d, g),
        sums::together(parts).len() <= g.rows,
        parts.len() > 0,
        answers(k, r, g, crud::scores_of(sums::together(parts)), eps),
        0 <= c < d,
    ensures
        ({
            let all = sums::together(parts);
            let s = crud::scores_of(all);
            let got = distributed::outcome(
                k,
                distributed::combined(k, sums::contributions(k, parts, eps), eps),
            );
            (r.val)(got[c]) * rsum(totals::counts(r, s, eps)) == rsum(
                totals::portions(r, s, totals::component(crud::values_of(all), c), eps),
            )
        }),
{
    let all = sums::together(parts);
    sums::combine_is_the_contribution_of_the_whole(k, parts, d, g, eps);
    lemma_together(parts, d, g);
    let v = crud::values_of(all);
    assert(sums::record_fits(all[0], d, g));
    assert(bits::finite(crud::scores_of(all)[0]));
    assert forall|i: int| 0 <= i < v.len() implies g.has(1, (#[trigger] v[i])[c]) by {
        assert(sums::record_fits(all[i], d, g));
    }
    contribution_answers_the_weighted_mean(k, r, g, crud::scores_of(all), v, d, eps, c);
}

proof fn lemma_together(parts: Seq<Seq<(u64, Seq<u64>)>>, d: nat, g: Range)
    requires
        sums::filled(parts, d, g),
    ensures
        sums::sound(sums::together(parts), d, g),
        parts.len() > 0 ==> sums::together(parts).len() > 0,
    decreases parts.len(),
{
    if parts.len() > 0 {
        let rest = parts.drop_last();
        assert forall|j: int| 0 <= j < rest.len() implies (#[trigger] rest[j]).len() > 0
            && sums::sound(rest[j], d, g) by {
            assert(rest[j] == parts[j]);
        }
        lemma_together(rest, d, g);
        let last = parts[parts.len() - 1];
        let all = sums::together(parts);
        assert forall|i: int| 0 <= i < all.len() implies sums::record_fits(#[trigger] all[i], d, g) by {
            let n = sums::together(rest).len();
            if i < n {
                assert(all[i] == sums::together(rest)[i]);
            } else {
                assert(all[i] == last[i - n]);
            }
        }
    }
}

/// A memory whose state is what its live records give answers the mean of
/// their values, weighted by `e^(score / eps)`, after whatever inserts,
/// deletes and updates.
pub proof fn memory_answers_the_weighted_mean(
    k: arith::Calc,
    r: Reading,
    g: Range,
    a: Memory,
    e: Seq<(u64, Seq<u64>)>,
    c: int,
)
    requires
        unlearning::faithful(k, a),
        maps::lists(a.live, e),
        e.len() > 0,
        answers(k, r, g, crud::scores_of(e), a.eps),
        0 <= c < a.d_v,
        forall|i: int|
            0 <= i < e.len() ==> bits::finite((#[trigger] e[i]).0) && g.has(1, e[i].1[c]),
    ensures
        (r.val)(crud::answer(k, a.state)[c]) * rsum(totals::counts(r, crud::scores_of(e), a.eps))
            == rsum(
            totals::portions(
                r,
                crud::scores_of(e),
                totals::component(crud::values_of(e), c),
                a.eps,
            ),
        ),
{
    let eps = a.eps;
    assert forall|i: int| 0 <= i < e.len() implies bits::finite(#[trigger] crud::scores_of(e)[i]) by {
        assert(bits::finite(e[i].0));
    }
    lemma_all_count(e, eps);
    assert(bits::finite(crud::scores_of(e)[0]));
    assert(sums::agree(a.state, crud::recomputed(k, e, a.d_v, eps)));
    let (s, v) = (crud::scores_of(e), crud::values_of(e));
    assert forall|i: int| 0 <= i < v.len() implies g.has(1, (#[trigger] v[i])[c]) by {
        assert(g.has(1, e[i].1[c]));
    }
    lemma_answer(k, r, g, s, v, a.d_v, eps, c, 0);
}

proof fn lemma_all_count(e: Seq<(u64, Seq<u64>)>, eps: Eps)
    requires
        forall|i: int| 0 <= i < e.len() ==> bits::finite(#[trigger] crud::scores_of(e)[i]),
    ensures
        crud::counting(e, eps) == e,
    decreases e.len(),
{
    reveal(Seq::filter);
    if e.len() > 0 {
        let f = e.drop_last();
        assert forall|i: int| 0 <= i < f.len() implies bits::finite(#[trigger] crud::scores_of(f)[i]) by {
            assert(crud::scores_of(e)[i] == crud::scores_of(f)[i]);
        }
        lemma_all_count(f, eps);
        assert(bits::finite(crud::scores_of(e)[e.len() - 1]));
        assert(f.push(e.last()) =~= e);
    }
}

// -------------------------------------------------------------------- limits

/// One times a value is the value.
pub open spec fn keeps(k: arith::Calc, r: Reading, g: Range, a: u64) -> bool {
    g.has(1, a) ==> reals::precise(k, r, Op::Times, arith::ONE, a) && g.has(
        1,
        k(Op::Times, arith::ONE, a),
    )
}

/// How much each row counts in a limit: alike in the uniform one; in the
/// tropical one those at `top` alone.
pub open spec fn limit_counts(s: Seq<u64>, top: u64, eps: Eps) -> Seq<real> {
    Seq::new(
        s.len(),
        |i: int|
            if eps.uniform() || bits::num_eq(s[i], top) {
                1 as real
            } else {
                0 as real
            },
    )
}

/// What each row counts in a limit, times its value.
pub open spec fn limit_portions(r: Reading, s: Seq<u64>, v: Seq<u64>, top: u64, eps: Eps) -> Seq<
    real,
> {
    Seq::new(
        s.len(),
        |i: int|
            if eps.uniform() || bits::num_eq(s[i], top) {
                (r.val)(v[i])
            } else {
                0 as real
            },
    )
}

/// In the limits a contribution holds the plain sum of the values of the
/// rows that count, and how many they are: all rows in the uniform limit,
/// those at the largest score in the tropical one.
pub proof fn limits_sum_and_count_the_rows(
    k: arith::Calc,
    r: Reading,
    g: Range,
    s: Seq<u64>,
    v: Seq<Seq<u64>>,
    top: u64,
    d: nat,
    eps: Eps,
    c: int,
)
    requires
        averages::reads(k, r, g, eps),
        forall|a: u64| #[trigger] keeps(k, r, g, a),
        !fold::tempered(eps),
        !(eps.uniform() && eps.tropical()),
        s.len() <= v.len(),
        s.len() <= g.rows,
        0 <= c < d,
        forall|i: int| 0 <= i < s.len() ==> !bits::nan(#[trigger] s[i]),
        forall|i: int| 0 <= i < s.len() ==> g.has(1, (#[trigger] v[i])[c]),
    ensures
        ({
            let t = distributed::summed(k, s, v, top, d, eps);
            &&& t.num.len() == d
            &&& g.has(s.len(), t.den) && g.has(s.len(), t.num[c])
            &&& (r.val)(t.den) == rsum(limit_counts(s, top, eps))
            &&& (r.val)(t.num[c]) == rsum(
                limit_portions(r, s, totals::component(v, c), top, eps),
            )
        }),
    decreases s.len(),
{
    if s.len() > 0 {
        let f = s.drop_last();
        let n = f.len();
        assert forall|i: int| 0 <= i < f.len() implies !bits::nan(#[trigger] f[i]) by {
            assert(f[i] == s[i]);
        }
        limits_sum_and_count_the_rows(k, r, g, f, v, top, d, eps, c);
        let t = distributed::summed(k, f, v, top, d, eps);
        let x = v[n as int][c];
        assert(g.has(1, v[n as int][c]));
        let col = totals::component(v, c);
        assert(limit_counts(s, top, eps).drop_last() =~= limit_counts(f, top, eps));
        assert(limit_portions(r, s, col, top, eps).drop_last() =~= limit_portions(
            r,
            f,
            col,
            top,
            eps,
        ));
        assert(keeps(k, r, g, x));
        assert(averages::adds(k, r, g, n, 1, t.den, arith::ONE));
        assert(averages::adds(k, r, g, n, 1, t.num[c], k(Op::Times, arith::ONE, x)));
        assert(monoid::grows(g, n, n + 1, t.den));
        assert(monoid::grows(g, n, n + 1, t.num[c]));
        reals::lemma_units((r.val)(x));
        assert(!bits::nan(s[n as int]));
    } else {
        assert(limit_counts(s, top, eps) =~= Seq::empty());
    }
}

/// In the tropical limit, the unnormalised sum is the plain sum of the rows
/// at the largest score.
pub proof fn tropical_sum_takes_the_largest(
    k: arith::Calc,
    r: Reading,
    g: Range,
    s: Seq<u64>,
    v: Seq<Seq<u64>>,
    d: nat,
    eps: Eps,
    c: int,
)
    requires
        averages::reads(k, r, g, eps),
        forall|a: u64| #[trigger] keeps(k, r, g, a),
        eps.tropical(),
        s.len() == v.len(),
        s.len() <= g.rows,
        0 <= c < d,
        forall|i: int| 0 <= i < s.len() ==> bits::finite(#[trigger] s[i]),
        forall|i: int| 0 <= i < s.len() ==> g.has(1, (#[trigger] v[i])[c]),
    ensures
        operator::summed(k, s, v, d, eps).len() == d,
        (r.val)(operator::summed(k, s, v, d, eps)[c]) == rsum(
            limit_portions(r, s, totals::component(v, c), semiring::peak(s), eps),
        ),
        (r.val)(semiring::raw_sum(k, s, totals::component(v, c), eps)) == rsum(
            limit_portions(r, s, totals::component(v, c), semiring::peak(s), eps),
        ),
{
    let col = totals::component(v, c);
    let top = semiring::peak(s);
    assert(!eps.uniform());
    lemma_rows_at(k, r, g, s, v, top, d, eps, c);
    lemma_sum_at(k, r, g, s, col, top, eps);
    if s.len() == 0 {
        assert(limit_portions(r, s, col, top, eps) =~= Seq::empty());
    }
}

proof fn lemma_sum_at(
    k: arith::Calc,
    r: Reading,
    g: Range,
    s: Seq<u64>,
    v: Seq<u64>,
    top: u64,
    eps: Eps,
)
    requires
        averages::reads(k, r, g, eps),
        !eps.uniform(),
        s.len() <= v.len(),
        s.len() <= g.rows,
        forall|i: int| 0 <= i < s.len() ==> g.has(1, #[trigger] v[i]),
    ensures
        g.has(s.len(), semiring::sum_at(k, s, v, top)),
        (r.val)(semiring::sum_at(k, s, v, top)) == rsum(limit_portions(r, s, v, top, eps)),
    decreases s.len(),
{
    if s.len() > 0 {
        let f = s.drop_last();
        let n = f.len();
        lemma_sum_at(k, r, g, f, v, top, eps);
        let a = semiring::sum_at(k, f, v, top);
        assert(limit_portions(r, s, v, top, eps).drop_last() =~= limit_portions(r, f, v, top, eps));
        assert(averages::adds(k, r, g, n, 1, a, v[n as int]));
        assert(monoid::grows(g, n, n + 1, a));
    }
}

proof fn lemma_rows_at(
    k: arith::Calc,
    r: Reading,
    g: Range,
    s: Seq<u64>,
    v: Seq<Seq<u64>>,
    top: u64,
    d: nat,
    eps: Eps,
    c: int,
)
    requires
        averages::reads(k, r, g, eps),
        forall|a: u64| #[trigger] keeps(k, r, g, a),
        !eps.uniform(),
        s.len() <= v.len(),
        s.len() <= g.rows,
        0 <= c < d,
        forall|i: int| 0 <= i < s.len() ==> bits::finite(#[trigger] s[i]),
        forall|i: int| 0 <= i < s.len() ==> g.has(1, (#[trigger] v[i])[c]),
    ensures
        operator::rows_at(k, s, v, top, d).len() == d,
        g.has(s.len(), operator::rows_at(k, s, v, top, d)[c]),
        (r.val)(operator::rows_at(k, s, v, top, d)[c]) == rsum(
            limit_portions(r, s, totals::component(v, c), top, eps),
        ),
    decreases s.len(),
{
    if s.len() > 0 {
        let f = s.drop_last();
        let n = f.len();
        assert forall|i: int| 0 <= i < f.len() implies bits::finite(#[trigger] f[i]) by {
            assert(f[i] == s[i]);
        }
        lemma_rows_at(k, r, g, f, v, top, d, eps, c);
        let a = operator::rows_at(k, f, v, top, d)[c];
        let x = v[n as int][c];
        assert(g.has(1, v[n as int][c]));
        assert(bits::finite(s[n as int]));
        let col = totals::component(v, c);
        assert(limit_portions(r, s, col, top, eps).drop_last() =~= limit_portions(
            r,
            f,
            col,
            top,
            eps,
        ));
        assert(keeps(k, r, g, x));
        assert(averages::adds(k, r, g, n, 1, a, k(Op::Times, arith::ONE, x)));
        assert(monoid::grows(g, n, n + 1, a));
        reals::lemma_units((r.val)(x));
    }
}

/// In the uniform limit, where no score's distance from the anchor comes to
/// anything, all softmax weights are alike.
pub proof fn uniform_softmax_is_even(k: arith::Calc, s: Seq<u64>, eps: Eps, i: int, j: int)
    requires
        !eps.tropical(),
        0 <= i < s.len(),
        0 <= j < s.len(),
        forall|t: int| 0 <= t < s.len() ==> bits::finite(#[trigger] s[t]),
        forall|t: int|
            0 <= t < s.len() ==> k(
                Op::Over,
                k(Op::Minus, #[trigger] s[t], semiring::peak(s)),
                eps.0,
            ) == arith::ZERO,
    ensures
        semiring::softmax(k, s, eps)[i] == semiring::softmax(k, s, eps)[j],
{
    let m = semiring::peak(s);
    assert(arith::weight(k, s[i], m, eps.0) == arith::weight(k, s[j], m, eps.0));
    let w = semiring::weights(k, s, m, eps);
    assert(w[i] == w[j]);
}

/// In the tropical limit, the softmax weights of the rows at the largest
/// score are alike, their number times each is one, and all others are zero.
pub proof fn tropical_softmax_shares_alike(
    k: arith::Calc,
    r: Reading,
    s: Seq<u64>,
    eps: Eps,
    i: int,
)
    requires
        reals::constants(r),
        eps.tropical(),
        0 <= i < s.len() <= u64::MAX,
        semiring::count_at(s, semiring::peak(s)) <= u64::MAX,
        ({
            let n = k(Op::Whole, semiring::count_at(s, semiring::peak(s)) as u64, 0);
            reals::precise(k, r, Op::Whole, semiring::count_at(s, semiring::peak(s)) as u64, 0)
                && reals::precise(k, r, Op::Over, arith::ONE, n)
        }),
    ensures
        bits::num_eq(s[i], semiring::peak(s)) ==> (r.val)(semiring::softmax(k, s, eps)[i])
            * semiring::count_at(s, semiring::peak(s)) as real == 1 as real,
        !bits::num_eq(s[i], semiring::peak(s)) ==> (r.val)(semiring::softmax(k, s, eps)[i])
            == 0 as real,
{
    let n = semiring::count_at(s, semiring::peak(s));
    reals::lemma_quotient(1 as real, n as real, 0 as real);
}

// ---------------------------------------------------------------------- tree

/// In a tree, a node's answer is the mean of its ancestors' values, weighted
/// by `e^(score / eps)`.
pub proof fn tree_answers_the_mean_over_the_ancestors(
    k: arith::Calc,
    r: Reading,
    g: Range,
    sc: PairScore,
    v: Seq<Seq<u64>>,
    d: nat,
    parents: Seq<i64>,
    i: int,
    eps: Eps,
    c: int,
)
    requires
        tree::valid_tree(parents),
        parents.len() == v.len() <= usize::MAX,
        0 <= i < parents.len(),
        0 <= c < d,
        forall|n: nat, w: u64, z: u64| #[trigger] totals::shares(k, r, g, n, w, z),
        ({
            let path = tree::ancestry(parents, i);
            let s = Seq::new(path.len(), |t: int| sc(i as usize, path[t]));
            &&& totals::reads(k, r, g, s, eps)
            &&& totals::some_finite(s)
            &&& totals::mixes(
                k,
                r,
                g,
                semiring::softmax(k, s, eps),
                totals::component(tree::picked(v, path), c),
            )
        }),
    ensures
        ({
            let path = tree::ancestry(parents, i);
            let s = Seq::new(path.len(), |t: int| sc(i as usize, path[t]));
            let x = Seq::new(path.len(), |t: int| v[path[t] as int][c]);
            &&& rsum(totals::counts(r, s, eps)) > 0 as real
            &&& (r.val)(tree::tree_row(k, sc, v, d, parents, i, eps)[c]) * rsum(
                totals::counts(r, s, eps),
            ) == rsum(totals::portions(r, s, x, eps))
        }),
{
    let path = tree::ancestry(parents, i);
    tree::ancestry_climbs_to_the_root(parents, i);
    let s = Seq::new(path.len(), |t: int| sc(i as usize, path[t]));
    let rows = tree::picked(v, path);
    totals::lemma_soft_mixture(k, r, g, s, rows, d, eps, c);
    assert(totals::component(rows, c) =~= Seq::new(path.len(), |t: int| v[path[t] as int][c]));
}

// ---------------------------------------------------------------- similarity

/// The similarity of a row by distance is minus half the squared distance;
/// a row at distance zero scores zero, and by the indicator too; by the
/// indicator every other row scores minus infinity.
pub proof fn similarity_falls_with_the_distance(
    k: arith::Calc,
    r: Reading,
    ms: operator::Measures,
    j: usize,
)
    requires
        reals::constants(r),
        reals::precise(
            k,
            r,
            Op::Times,
            arith::MINUS_HALF,
            ms(operator::Measure::SquaredDistance, j),
        ),
    ensures
        2 as real * (r.val)(operator::similarity(k, ms, Sim::NegSquared, j)) == -(r.val)(
            ms(operator::Measure::SquaredDistance, j),
        ),
        bits::num_eq(ms(operator::Measure::SquaredDistance, j), 0) ==> operator::similarity(
            k,
            ms,
            Sim::Indicator,
            j,
        ) == 0,
        !bits::num_eq(ms(operator::Measure::SquaredDistance, j), 0) ==> operator::similarity(
            k,
            ms,
            Sim::Indicator,
            j,
        ) == bits::NEG_INF,
        operator::similarity(k, ms, Sim::Dot, j) == ms(operator::Measure::Product, j),
{
    let x = (r.val)(ms(operator::Measure::SquaredDistance, j));
    let h = (r.val)(arith::MINUS_HALF);
    reals::lemma_regroup(2 as real, h, x);
    reals::lemma_regroup(h, 2 as real, x);
    assert(-(1 as real) * x == -x) by (nonlinear_arith);
}

} // verus!
