//! What an accumulator holds of the rows it has absorbed, in each regime:
//! their number and sum in the uniform limit, those of the rows at the
//! largest score in the tropical limit, and sums weighed against the largest
//! score between the two.

use vstd::prelude::*;

use crate::arith;
use crate::arith::Op;
use crate::bits;
use crate::crud;
use crate::fold;
use crate::monoid;
use crate::monoid::Range;
use crate::operator;
use crate::semiring;
use crate::sums;
use crate::types::Eps;

verus! {

/// Component `c` of each row.
pub open spec fn column(rows: Seq<(u64, Seq<u64>)>, c: int) -> Seq<u64> {
    Seq::new(rows.len(), |i: int| rows[i].1[c])
}

/// The sum of a list, from its first number, in order.
pub open spec fn run(k: arith::Calc, xs: Seq<u64>) -> u64
    decreases xs.len(),
{
    if xs.len() == 0 {
        arith::ZERO
    } else if xs.len() == 1 {
        xs[0]
    } else {
        k(Op::Plus, run(k, xs.drop_last()), xs.last())
    }
}

/// Every row has values of width `d`.
pub open spec fn wide(rows: Seq<(u64, Seq<u64>)>, d: nat) -> bool {
    forall|i: int| 0 <= i < rows.len() ==> (#[trigger] rows[i]).1.len() == d
}

proof fn lemma_column(rows: Seq<(u64, Seq<u64>)>, c: int)
    requires
        rows.len() > 0,
    ensures
        column(rows, c).drop_last() == column(rows.drop_last(), c),
        column(rows, c).last() == rows.last().1[c],
{
    assert(column(rows, c).drop_last() =~= column(rows.drop_last(), c));
}

proof fn lemma_wide_prefix(rows: Seq<(u64, Seq<u64>)>, d: nat)
    requires
        wide(rows, d),
        rows.len() > 0,
    ensures
        wide(rows.drop_last(), d),
        rows.last().1.len() == d,
{
    let rest = rows.drop_last();
    assert forall|i: int| 0 <= i < rest.len() implies (#[trigger] rest[i]).1.len() == d by {
        assert(rest[i] == rows[i]);
    }
    assert(rows.last() == rows[rows.len() - 1]);
}

/// In the uniform limit the accumulator holds the number of rows and their
/// sum.
pub proof fn uniform_limit_counts_and_sums(
    k: arith::Calc,
    d: nat,
    rows: Seq<(u64, Seq<u64>)>,
    eps: Eps,
)
    requires
        eps.uniform(),
        wide(rows, d),
    ensures
        ({
            let a = fold::folded(k, d, rows, eps);
            &&& a.z == sums::total(k, operator::alike(arith::ONE, rows.len()))
            &&& a.u == Seq::new(d, |c: int| sums::total(k, column(rows, c)))
        }),
    decreases rows.len(),
{
    let a = fold::folded(k, d, rows, eps);
    if rows.len() > 0 {
        lemma_wide_prefix(rows, d);
        uniform_limit_counts_and_sums(k, d, rows.drop_last(), eps);
        let ones = operator::alike(arith::ONE, rows.len());
        assert(ones.drop_last() =~= operator::alike(arith::ONE, rows.drop_last().len()));
        assert forall|c: int| 0 <= c < d implies a.u[c] == sums::total(k, column(rows, c)) by {
            lemma_column(rows, c);
        }
    }
    assert(a.u =~= Seq::new(d, |c: int| sums::total(k, column(rows, c))));
}

/// Rows that all score `m`.
proof fn lemma_all_at(k: arith::Calc, d: nat, rows: Seq<(u64, Seq<u64>)>, m: u64, eps: Eps)
    requires
        eps.tropical(),
        wide(rows, d),
        forall|i: int|
            0 <= i < rows.len() ==> (#[trigger] rows[i]).0 != bits::NEG_INF && bits::num_eq(
                rows[i].0,
                m,
            ),
    ensures
        ({
            let a = fold::folded(k, d, rows, eps);
            &&& a.z == run(k, operator::alike(arith::ONE, rows.len()))
            &&& a.u == Seq::new(d, |c: int| run(k, column(rows, c)))
            &&& rows.len() > 0 ==> bits::num_eq(a.mu, m)
        }),
    decreases rows.len(),
{
    let a = fold::folded(k, d, rows, eps);
    if rows.len() > 0 {
        let rest = rows.drop_last();
        lemma_wide_prefix(rows, d);
        assert forall|i: int| 0 <= i < rest.len() implies (#[trigger] rest[i]).0 != bits::NEG_INF
            && bits::num_eq(rest[i].0, m) by {
            assert(rest[i] == rows[i]);
        }
        lemma_all_at(k, d, rest, m, eps);
        let s = rows[rows.len() - 1].0;
        assert(rows.last().0 == s);
        assert(bits::magnitude(s) <= bits::POS_INF);
        let ones = operator::alike(arith::ONE, rows.len());
        assert(ones.drop_last() =~= operator::alike(arith::ONE, rest.len()));
        if rest.len() == 0 {
            assert(bits::num_lt(bits::NEG_INF, s));
        }
        assert forall|c: int| 0 <= c < d implies a.u[c] == run(k, column(rows, c)) by {
            lemma_column(rows, c);
        }
    }
    assert(a.u =~= Seq::new(d, |c: int| run(k, column(rows, c))));
}

proof fn lemma_wide_rows_at(rows: Seq<(u64, Seq<u64>)>, m: u64, d: nat)
    requires
        wide(rows, d),
    ensures
        wide(fold::rows_at(rows, m), d),
    decreases rows.len(),
{
    reveal(Seq::filter);
    if rows.len() > 0 {
        lemma_wide_prefix(rows, d);
        lemma_wide_rows_at(rows.drop_last(), m, d);
    }
}

/// In the tropical limit the accumulator holds the number of rows at the
/// largest score and the sum of those rows; where no row weighs anything it
/// holds nothing.
pub proof fn tropical_limit_counts_and_sums_the_largest(
    k: arith::Calc,
    d: nat,
    rows: Seq<(u64, Seq<u64>)>,
    eps: Eps,
)
    requires
        eps.tropical(),
        fold::scored(rows),
        wide(rows, d),
    ensures
        ({
            let a = fold::folded(k, d, rows, eps);
            let top = fold::rows_at(rows, a.mu);
            &&& a.z == run(k, operator::alike(arith::ONE, top.len()))
            &&& a.u == Seq::new(d, |c: int| run(k, column(top, c)))
        }),
{
    fold::tropical_limit_keeps_the_largest(k, d, rows, eps);
    let m = fold::folded(k, d, rows, eps).mu;
    let p = |r: (u64, Seq<u64>)| r.0 != bits::NEG_INF && bits::num_eq(r.0, m);
    let top = fold::rows_at(rows, m);
    lemma_wide_rows_at(rows, m, d);
    assert forall|i: int| 0 <= i < top.len() implies (#[trigger] top[i]).0 != bits::NEG_INF
        && bits::num_eq(top[i].0, m) by {
        rows.lemma_filter_pred(p, i);
    }
    lemma_all_at(k, d, top, m, eps);
}

/// More rows are a larger number.
pub open spec fn rises(k: arith::Calc, m: nat, n: nat) -> bool {
    m <= n <= fold::countable() ==> bits::rank(k(Op::Whole, m as u64, 0)) <= bits::rank(
        k(Op::Whole, n as u64, 0),
    )
}

/// The anchor of a run: no score is above it, and some row that weighs has
/// it, unless none does.
proof fn lemma_anchor(k: arith::Calc, d: nat, rows: Seq<(u64, Seq<u64>)>, eps: Eps)
    requires
        fold::keeps_count(k, eps),
        !eps.uniform(),
        fold::scored(rows),
        rows.len() <= fold::countable(),
    ensures
        ({
            let a = fold::folded(k, d, rows, eps);
            &&& !bits::nan(a.mu)
            &&& forall|i: int| 0 <= i < rows.len() ==> bits::rank((#[trigger] rows[i]).0) <= bits::rank(a.mu)
            &&& a.mu == bits::NEG_INF || exists|i: int|
                0 <= i < rows.len() && (#[trigger] rows[i]).0 == a.mu
        }),
    decreases rows.len(),
{
    if rows.len() > 0 {
        let rest = rows.drop_last();
        let last = rows[rows.len() - 1];
        assert(rows.last() == last);
        assert forall|i: int| 0 <= i < rest.len() implies !bits::nan((#[trigger] rest[i]).0) by {
            assert(rest[i] == rows[i]);
        }
        lemma_anchor(k, d, rest, eps);
        fold::lemma_covered(k, d, rest, eps);
        let (a, b) = (fold::folded(k, d, rest, eps), fold::folded(k, d, rows, eps));
        assert(!bits::nan(last.0));
        assert(bits::magnitude(last.0) <= bits::POS_INF);
        assert(bits::magnitude(a.mu) <= bits::POS_INF);
        if a.is_vacant() {
            assert(a == fold::vacant(d));
        }
        assert forall|i: int| 0 <= i < rows.len() implies bits::rank((#[trigger] rows[i]).0)
            <= bits::rank(b.mu) by {
            if i < rest.len() {
                assert(rest[i] == rows[i]);
            }
        }
        if b.mu != bits::NEG_INF {
            if b.mu == last.0 {
                assert(rows[rows.len() - 1].0 == b.mu);
            } else {
                assert(b.mu == a.mu);
                let i = choose|i: int| 0 <= i < rest.len() && (#[trigger] rest[i]).0 == a.mu;
                assert(rows[i] == rest[i]);
            }
        }
    }
}

/// Of a whole run in which some row weighs: the sum of weights lies between
/// 1 and the number of rows, in every regime; and away from the uniform
/// limit the anchor is the largest score.
pub proof fn anchor_is_the_largest_score_and_mass_is_bounded(
    k: arith::Calc,
    d: nat,
    rows: Seq<(u64, Seq<u64>)>,
    eps: Eps,
)
    requires
        fold::keeps_count(k, eps),
        forall|m: nat, n: nat| #[trigger] rises(k, m, n),
        fold::scored(rows),
        rows.len() <= fold::countable(),
        exists|i: int| 0 <= i < rows.len() && fold::weighs((#[trigger] rows[i]).0, eps),
    ensures
        ({
            let a = fold::folded(k, d, rows, eps);
            &&& bits::rank(arith::ONE) <= bits::rank(a.z) <= bits::rank(
                k(Op::Whole, rows.len() as u64, 0),
            )
            &&& !bits::nan(a.z)
            &&& !eps.uniform() ==> {
                &&& forall|i: int|
                    0 <= i < rows.len() ==> bits::rank((#[trigger] rows[i]).0) <= bits::rank(a.mu)
                &&& exists|i: int| 0 <= i < rows.len() && (#[trigger] rows[i]).0 == a.mu
            }
        }),
{
    fold::lemma_covered(k, d, rows, eps);
    let a = fold::folded(k, d, rows, eps);
    let m = choose|m: nat| m <= rows.len() && #[trigger] fold::counts_to(k, a.z, m);
    assert(rises(k, m, rows.len()));
    if !eps.uniform() {
        lemma_anchor(k, d, rows, eps);
        let i = choose|i: int| 0 <= i < rows.len() && fold::weighs((#[trigger] rows[i]).0, eps);
        assert(bits::rank(rows[i].0) <= bits::rank(a.mu));
        assert(!bits::nan(rows[i].0));
        assert(bits::magnitude(rows[i].0) <= bits::POS_INF);
    }
}

/// Rows that all score plus infinity, between the limits.
proof fn lemma_all_infinite(k: arith::Calc, d: nat, rows: Seq<(u64, Seq<u64>)>, eps: Eps)
    requires
        fold::tempered(eps),
        wide(rows, d),
        forall|i: int| 0 <= i < rows.len() ==> (#[trigger] rows[i]).0 == bits::POS_INF,
    ensures
        ({
            let a = fold::folded(k, d, rows, eps);
            &&& a.z == run(k, operator::alike(arith::ONE, rows.len()))
            &&& a.u == Seq::new(d, |c: int| run(k, column(rows, c)))
            &&& rows.len() > 0 ==> a.mu == bits::POS_INF
        }),
    decreases rows.len(),
{
    let a = fold::folded(k, d, rows, eps);
    if rows.len() > 0 {
        let rest = rows.drop_last();
        lemma_wide_prefix(rows, d);
        assert forall|i: int| 0 <= i < rest.len() implies (#[trigger] rest[i]).0
            == bits::POS_INF by {
            assert(rest[i] == rows[i]);
        }
        lemma_all_infinite(k, d, rest, eps);
        assert(rows.last() == rows[rows.len() - 1]);
        let ones = operator::alike(arith::ONE, rows.len());
        assert(ones.drop_last() =~= operator::alike(arith::ONE, rest.len()));
        assert forall|c: int| 0 <= c < d implies a.u[c] == run(k, column(rows, c)) by {
            lemma_column(rows, c);
        }
    }
    assert(a.u =~= Seq::new(d, |c: int| run(k, column(rows, c))));
}

/// Rows at plus infinity are those that score it.
proof fn lemma_rows_at_infinity(rows: Seq<(u64, Seq<u64>)>)
    requires
        fold::scored(rows),
    ensures
        fold::rows_at(rows, bits::POS_INF) == fold::infinite_rows(rows),
    decreases rows.len(),
{
    reveal(Seq::filter);
    if rows.len() > 0 {
        let rest = rows.drop_last();
        assert forall|i: int| 0 <= i < rest.len() implies !bits::nan((#[trigger] rest[i]).0) by {
            assert(rest[i] == rows[i]);
        }
        lemma_rows_at_infinity(rest);
        let s = rows[rows.len() - 1].0;
        assert(rows.last().0 == s);
        assert(!bits::nan(s));
    }
}

/// Counting from one row up is exact.
pub open spec fn counts_exactly(k: arith::Calc) -> bool {
    &&& k(Op::Whole, 1, 0) == arith::ONE
    &&& forall|n: nat| #[trigger] next_is_one_more(k, n)
}

/// The number behind `n` is `n` and 1.
pub open spec fn next_is_one_more(k: arith::Calc, n: nat) -> bool {
    1 <= n < fold::countable() ==> k(Op::Plus, k(Op::Whole, n as u64, 0), arith::ONE) == k(
        Op::Whole,
        (n + 1) as u64,
        0,
    )
}

proof fn lemma_ones(k: arith::Calc, n: nat)
    requires
        counts_exactly(k),
        1 <= n <= fold::countable(),
    ensures
        run(k, operator::alike(arith::ONE, n)) == k(Op::Whole, n as u64, 0),
    decreases n,
{
    let ones = operator::alike(arith::ONE, n);
    if n > 1 {
        lemma_ones(k, (n - 1) as nat);
        assert(ones.drop_last() =~= operator::alike(arith::ONE, (n - 1) as nat));
        assert(next_is_one_more(k, (n - 1) as nat));
    }
}

/// Of a whole run away from the uniform limit. It holds nothing, and has no
/// output, exactly where every score is minus infinity. Otherwise its anchor
/// is the largest score, and the sum of weights lies between 1 and the
/// number of rows. In the tropical limit, and wherever the anchor is plus
/// infinity, the sum of weights is the number of rows at the anchor and the
/// sum of values is theirs: lower rows leave no trace.
pub proof fn a_run_is_anchored_at_its_largest_rows(
    k: arith::Calc,
    d: nat,
    rows: Seq<(u64, Seq<u64>)>,
    eps: Eps,
)
    requires
        !eps.uniform(),
        fold::keeps_count(k, eps),
        forall|m: nat, n: nat| #[trigger] rises(k, m, n),
        counts_exactly(k),
        fold::scored(rows),
        wide(rows, d),
        rows.len() <= fold::countable(),
    ensures
        ({
            let a = fold::folded(k, d, rows, eps);
            let top = fold::rows_at(rows, a.mu);
            let low = forall|i: int| 0 <= i < rows.len() ==> (#[trigger] rows[i]).0 == bits::NEG_INF;
            &&& a.is_vacant() <==> low
            &&& fold::output(k, a) is None <==> low
            &&& !low ==> {
                &&& forall|i: int|
                    0 <= i < rows.len() ==> bits::rank((#[trigger] rows[i]).0) <= bits::rank(a.mu)
                &&& exists|i: int| 0 <= i < rows.len() && (#[trigger] rows[i]).0 == a.mu
                &&& bits::rank(arith::ONE) <= bits::rank(a.z) <= bits::rank(
                    k(Op::Whole, rows.len() as u64, 0),
                )
            }
            &&& !low && (eps.tropical() || a.mu == bits::POS_INF) ==> {
                &&& 1 <= top.len() <= rows.len()
                &&& a.z == k(Op::Whole, top.len() as u64, 0)
                &&& a.u == Seq::new(d, |c: int| run(k, column(top, c)))
            }
        }),
{
    let a = fold::folded(k, d, rows, eps);
    let top = fold::rows_at(rows, a.mu);
    fold::lemma_covered(k, d, rows, eps);
    if exists|i: int| 0 <= i < rows.len() && (#[trigger] rows[i]).0 != bits::NEG_INF {
        let i = choose|i: int| 0 <= i < rows.len() && (#[trigger] rows[i]).0 != bits::NEG_INF;
        assert(fold::weighs(rows[i].0, eps));
        anchor_is_the_largest_score_and_mass_is_bounded(k, d, rows, eps);
        let j = choose|j: int| 0 <= j < rows.len() && (#[trigger] rows[j]).0 == a.mu;
        assert(!bits::nan(rows[i].0) && !bits::nan(rows[j].0));
        assert(bits::magnitude(rows[i].0) <= bits::POS_INF);
        assert(bits::rank(rows[i].0) <= bits::rank(a.mu));
        let p = |r: (u64, Seq<u64>)| r.0 != bits::NEG_INF && bits::num_eq(r.0, a.mu);
        rows.filter_lemma(p);
        rows.lemma_filter_len(p);
        assert(p(rows[j]));
        assert(top.contains(rows[j]));
        if eps.tropical() {
            tropical_limit_counts_and_sums_the_largest(k, d, rows, eps);
            lemma_ones(k, top.len());
        } else if a.mu == bits::POS_INF {
            lemma_rows_at_infinity(rows);
            fold::infinite_scores_decide_alone(k, d, rows, eps);
            lemma_wide_rows_at(rows, a.mu, d);
            assert forall|x: int| 0 <= x < top.len() implies (#[trigger] top[x]).0
                == bits::POS_INF by {
                rows.lemma_filter_pred(|r: (u64, Seq<u64>)| r.0 == bits::POS_INF, x);
            }
            lemma_all_infinite(k, d, top, eps);
            lemma_ones(k, top.len());
        }
    }
}

/// A finite score weighs 1 against itself.
pub open spec fn level(k: arith::Calc, s: u64, eps: Eps) -> bool {
    bits::finite(s) ==> arith::weight(k, s, s, eps.0) == arith::ONE
}

/// Between the limits the accumulator holds the weights and the weighed
/// values of its rows, summed against the largest score, in exact
/// arithmetic.
pub proof fn tempered_fold_holds_the_anchored_sums(
    k: arith::Calc,
    d: nat,
    rows: Seq<(u64, Seq<u64>)>,
    g: Range,
    eps: Eps,
)
    requires
        fold::tempered(eps),
        monoid::exact(k, g, eps),
        sums::gathers_exactly(k, g, eps),
        forall|s: u64| g.scores.contains(s) ==> #[trigger] level(k, s, eps),
        sums::sound(rows, d, g),
        rows.len() <= g.rows,
    ensures
        ({
            let a = fold::folded(k, d, rows, eps);
            let want = sums::sums(k, rows, semiring::peak(crud::scores_of(rows)), d, eps);
            &&& a.mu == want.m
            &&& a.z == want.den
            &&& a.u == want.num
        }),
    decreases rows.len(),
{
    let a = fold::folded(k, d, rows, eps);
    let m = semiring::peak(crud::scores_of(rows));
    let want = sums::sums(k, rows, m, d, eps);
    if rows.len() > 0 {
        let rest = rows.drop_last();
        let last = rows[rows.len() - 1];
        assert(rows.last() == last);
        assert(rest.push(last) =~= rows);
        assert(sums::record_fits(last, d, g));
        sums::lemma_part(rows, rest, 0, d, g);
        tempered_fold_holds_the_anchored_sums(k, d, rest, g, eps);
        sums::lemma_top(rest, d, g);
        assert(crud::scores_of(rows).drop_last() =~= crud::scores_of(rest));
        assert(crud::scores_of(rows).last() == last.0);
        sums::lemma_sums_push(k, rest, last, m, d, eps);
        let b = fold::folded(k, d, rest, eps);
        assert(!bits::nan(last.0));
        if rest.len() == 0 {
            assert(m == last.0);
            assert(level(k, m, eps));
            assert(monoid::starts(k, g, 1, arith::ONE));
            assert forall|c: int| 0 <= c < d implies a.u[c] == want.num[c] by {
                assert(g.has(1, last.1[c]));
                assert(monoid::unscaled(k, g, 1, last.1[c]));
                assert(monoid::starts(k, g, 1, last.1[c]));
            }
        } else {
            assert forall|i: int| 0 <= i < rest.len() implies !bits::nan((#[trigger] rest[i]).0) by {
                assert(sums::record_fits(rest[i], d, g));
            }
            fold::lemma_covered(k, d, rest, eps);
            assert(sums::record_fits(rest[0], d, g));
            assert(fold::weighs(rest[0].0, eps));
            sums::lemma_rescale(k, g, rest, b.mu, m, -1, d, eps);
            assert forall|c: int| 0 <= c < d implies a.u[c] == want.num[c] by {
                sums::lemma_rescale(k, g, rest, b.mu, m, c, d, eps);
            }
        }
    }
    assert(a.u =~= want.num);
}

} // verus!
