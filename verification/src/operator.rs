//! The operator: weights `e^(sim(x, k) / eps)` over the rows of a memory,
//! aggregated as attention (normalised), as a sum or as a count.

use vstd::prelude::*;

use crate::arith;
use crate::arith::{apply_op, weigh, Op};
use crate::bits;
use crate::bits::{eq, is_finite, lt};
use crate::error;
use crate::error::BruceError;
use crate::mask;
use crate::matrix;
use crate::matrix::{zero_row, Matrix, Shape};
use crate::parallel::map_each;
use crate::semiring;
use crate::semiring::{peak_of, softmax_eps};
use crate::tree;
use crate::tree::{add_scaled, mix_rows};
use crate::types::{Aggregator, Eps, Sim};

verus! {

/// Below this row count scores are computed one after the other.
pub const PARALLEL_THRESHOLD: usize = 1024;

/// What can be measured between the query and a key.
#[derive(Clone, Copy, Debug, PartialEq, Eq, Structural)]
pub enum Measure {
    /// Their inner product.
    Product,
    /// The inner product of their difference with itself.
    SquaredDistance,
}

/// The measures of each row.
pub type Measures = spec_fn(Measure, usize) -> u64;

/// What `f` measures.
pub open spec fn measures<M: Fn(Measure, usize) -> u64>(f: M) -> Measures {
    |m: Measure, j: usize| choose|r: u64| call_ensures(f, (m, j), r)
}

/// `f` measures each of the first `n` rows, and the same row always the same.
pub open spec fn steady_measures<M: Fn(Measure, usize) -> u64>(f: M, n: int) -> bool {
    &&& forall|m: Measure, j: usize| j < n ==> #[trigger] call_requires(f, (m, j))
    &&& forall|m: Measure, j: usize, x: u64, y: u64|
        #[trigger] call_ensures(f, (m, j), x) && #[trigger] call_ensures(f, (m, j), y) ==> x == y
}

fn measured<M: Fn(Measure, usize) -> u64>(f: &M, m: Measure, j: usize) -> (r: u64)
    requires
        steady_measures(*f, j + 1),
    ensures
        r == measures(*f)(m, j),
{
    let r: u64 = f(m, j);
    assert(call_ensures(*f, (m, j), r));
    r
}

/// The similarity of a row: the inner product, minus half the squared
/// distance, or zero on equality and minus infinity elsewhere.
pub open spec fn similarity(k: arith::Calc, ms: Measures, sim: Sim, j: usize) -> u64 {
    match sim {
        Sim::Dot => ms(Measure::Product, j),
        Sim::NegSquared => k(Op::Times, arith::MINUS_HALF, ms(Measure::SquaredDistance, j)),
        Sim::Indicator => if bits::num_eq(ms(Measure::SquaredDistance, j), arith::ZERO) {
            arith::ZERO
        } else {
            bits::NEG_INF
        },
    }
}

/// The similarity of a row.
pub fn similarity_of<M: Fn(Measure, usize) -> u64, F: Fn(Op, u64, u64) -> u64>(
    sim: Sim,
    j: usize,
    measure: &M,
    f: &F,
) -> (s: u64)
    requires
        steady_measures(*measure, j + 1),
        arith::steady(*f),
    ensures
        s == similarity(arith::computes(*f), measures(*measure), sim, j),
{
    match sim {
        Sim::Dot => measured(measure, Measure::Product, j),
        Sim::NegSquared => {
            let d: u64 = measured(measure, Measure::SquaredDistance, j);
            apply_op(f, Op::Times, arith::MINUS_HALF, d)
        },
        Sim::Indicator => {
            let d: u64 = measured(measure, Measure::SquaredDistance, j);
            if eq(d, arith::ZERO) {
                arith::ZERO
            } else {
                bits::NEG_INF
            }
        },
    }
}

/// The similarities of the first `n` rows.
pub open spec fn similarities(k: arith::Calc, ms: Measures, sim: Sim, n: nat) -> Seq<u64> {
    Seq::new(n, |j: int| similarity(k, ms, sim, j as usize))
}

/// The first `n` rows.
pub open spec fn first_rows(n: nat) -> Seq<usize> {
    Seq::new(n, |j: int| j as usize)
}

fn row_numbers(n: usize) -> (r: Vec<usize>)
    ensures
        r@ == first_rows(n as nat),
{
    let mut r: Vec<usize> = Vec::new();
    let mut j: usize = 0;
    while j < n
        invariant
            j <= n,
            r@ == first_rows(j as nat),
        decreases n - j,
    {
        r.push(j);
        j += 1;
        assert(r@ =~= first_rows(j as nat));
    }
    r
}

/// Attention: the rows of values under softmax weights of their scores.
pub open spec fn attended(
    k: arith::Calc,
    s: Seq<u64>,
    v: Seq<Seq<u64>>,
    d: nat,
    eps: Eps,
) -> Seq<u64> {
    tree::mixture(k, semiring::softmax(k, s, eps), tree::picked(v, first_rows(s.len())), d)
}

/// The rows at `m`, if it is finite, summed in order.
pub open spec fn rows_at(
    k: arith::Calc,
    s: Seq<u64>,
    v: Seq<Seq<u64>>,
    m: u64,
    d: nat,
) -> Seq<u64>
    decreases s.len(),
{
    if s.len() == 0 {
        matrix::zeros(d)
    } else {
        let i = s.len() - 1;
        let acc = rows_at(k, s.drop_last(), v, m, d);
        if bits::num_eq(s[i], m) && bits::finite(s[i]) {
            tree::scaled_add(k, acc, arith::ONE, v[i])
        } else {
            acc
        }
    }
}

/// The weighted rows, summed in order.
pub open spec fn weighted_rows(
    k: arith::Calc,
    s: Seq<u64>,
    v: Seq<Seq<u64>>,
    m: u64,
    d: nat,
    eps: Eps,
) -> Seq<u64>
    decreases s.len(),
{
    if s.len() == 0 {
        matrix::zeros(d)
    } else {
        let i = s.len() - 1;
        tree::scaled_add(
            k,
            weighted_rows(k, s.drop_last(), v, m, d, eps),
            arith::weight(k, s[i], m, eps.0),
            v[i],
        )
    }
}

/// The unnormalised sum of rows.
pub open spec fn summed(
    k: arith::Calc,
    s: Seq<u64>,
    v: Seq<Seq<u64>>,
    d: nat,
    eps: Eps,
) -> Seq<u64> {
    let m = semiring::peak(s);
    if s.len() == 0 {
        matrix::zeros(d)
    } else if eps.tropical() {
        rows_at(k, s, v, m, d)
    } else if !bits::finite(m) {
        matrix::zeros(d)
    } else {
        let e = k(Op::Exp, k(Op::Over, m, eps.0), 0);
        let w = weighted_rows(k, s, v, m, d, eps);
        Seq::new(d, |c: int| k(Op::Times, w[c], e))
    }
}

/// How many finite scores equal `m`.
pub open spec fn finite_at(s: Seq<u64>, m: u64) -> nat
    decreases s.len(),
{
    if s.len() == 0 {
        0
    } else {
        finite_at(s.drop_last(), m) + (if bits::num_eq(s.last(), m) && bits::finite(s.last()) {
            1nat
        } else {
            0nat
        })
    }
}

/// How many numbers are above zero.
pub open spec fn above_zero(s: Seq<u64>) -> nat
    decreases s.len(),
{
    if s.len() == 0 {
        0
    } else {
        above_zero(s.drop_last()) + (if bits::num_lt(arith::ZERO, s.last()) {
            1nat
        } else {
            0nat
        })
    }
}

/// The count of rows with weight: in the tropical limit those at the
/// largest score, if it is finite.
pub open spec fn counted(k: arith::Calc, s: Seq<u64>, eps: Eps) -> nat {
    if eps.tropical() {
        finite_at(s, semiring::peak(s))
    } else {
        above_zero(semiring::softmax(k, s, eps))
    }
}

/// The operator: a temperature, a similarity and an aggregation.
#[allow(non_camel_case_types)]
#[derive(Debug, Clone, Copy)]
pub struct F_eps {
    /// Temperature.
    pub eps: Eps,
    /// Similarity function applied between query and keys.
    pub sim: Sim,
    /// Which aggregation flavour to return.
    pub agg: Aggregator,
}

impl F_eps {
    /// The operator at a temperature and a similarity; the aggregator is
    /// `Softmax`.
    pub fn new(eps: Eps, sim: Sim) -> (o: F_eps)
        ensures
            o == (F_eps { eps, sim, agg: Aggregator::Softmax }),
    {
        F_eps { eps, sim, agg: Aggregator::Softmax }
    }

    /// The operator with another aggregator.
    pub fn with_agg(self, agg: Aggregator) -> (o: F_eps)
        ensures
            o == (F_eps { agg, ..self }),
    {
        F_eps { eps: self.eps, sim: self.sim, agg }
    }

    /// The scores of the first `n` rows.
    pub fn scores<M: Fn(Measure, usize) -> u64 + Sync, F: Fn(Op, u64, u64) -> u64 + Sync>(
        &self,
        n: usize,
        measure: &M,
        f: &F,
    ) -> (s: Vec<u64>)
        requires
            steady_measures(*measure, n as int),
            arith::steady(*f),
        ensures
            s@ == similarities(arith::computes(*f), measures(*measure), self.sim, n as nat),
    {
        let sim = self.sim;
        let ghost want = similarities(
            arith::computes(*f),
            measures(*measure),
            self.sim,
            n as nat,
        );
        if n < PARALLEL_THRESHOLD {
            let mut s: Vec<u64> = Vec::new();
            let mut j: usize = 0;
            while j < n
                invariant
                    j <= n,
                    sim == self.sim,
                    steady_measures(*measure, n as int),
                    arith::steady(*f),
                    want == similarities(
                        arith::computes(*f),
                        measures(*measure),
                        self.sim,
                        n as nat,
                    ),
                    s@ == want.take(j as int),
                decreases n - j,
            {
                s.push(similarity_of(sim, j, measure, f));
                j += 1;
                assert(s@ =~= want.take(j as int));
            }
            assert(s@ =~= want);
            s
        } else {
            let job = |j: usize| -> (s: u64)
                requires
                    j < n,
                ensures
                    s == similarity(arith::computes(*f), measures(*measure), sim, j),
                { similarity_of(sim, j, measure, f) };
            let s = map_each(n, &job);
            proof {
                assert forall|j: int| 0 <= j < n implies #[trigger] s@[j] == want[j] by {
                    assert(call_ensures(job, (j as usize,), s@[(j as usize) as int]));
                }
                assert(s@ =~= want);
            }
            s
        }
    }

    /// Standard attention. In the tropical limit with the indicator this is
    /// the mean over the rows whose key equals the query.
    pub fn attention<M: Fn(Measure, usize) -> u64 + Sync, F: Fn(Op, u64, u64) -> u64 + Sync>(
        &self,
        n: usize,
        v: &Matrix<u64>,
        measure: &M,
        f: &F,
    ) -> (r: Vec<u64>)
        requires
            v.wf(),
            n <= v@.len(),
            steady_measures(*measure, n as int),
            arith::steady(*f),
        ensures
            r@ == attended(
                arith::computes(*f),
                similarities(arith::computes(*f), measures(*measure), self.sim, n as nat),
                v@,
                v.width(),
                self.eps,
            ),
    {
        let s = self.scores(n, measure, f);
        let w = softmax_eps(s.as_slice(), self.eps, f);
        let at = row_numbers(n);
        mix_rows(&w, v, &at, f)
    }

    /// Unnormalised sum. In the tropical limit with the indicator this is
    /// the sum over the rows whose key equals the query.
    pub fn sum<M: Fn(Measure, usize) -> u64 + Sync, F: Fn(Op, u64, u64) -> u64 + Sync>(
        &self,
        n: usize,
        v: &Matrix<u64>,
        measure: &M,
        f: &F,
    ) -> (r: Vec<u64>)
        requires
            v.wf(),
            n <= v@.len(),
            steady_measures(*measure, n as int),
            arith::steady(*f),
        ensures
            r@ == summed(
                arith::computes(*f),
                similarities(arith::computes(*f), measures(*measure), self.sim, n as nat),
                v@,
                v.width(),
                self.eps,
            ),
    {
        let ghost k = arith::computes(*f);
        let s = self.scores(n, measure, f);
        let d: usize = v.ncols();
        let mut acc = zero_row(d);
        if n == 0 {
            return acc;
        }
        let m: u64 = peak_of(s.as_slice());
        let mut j: usize = 0;
        if self.eps.is_zero() {
            while j < n
                invariant
                    j <= n == s@.len(),
                    n <= v@.len(),
                    v.wf(),
                    d == v.width(),
                    arith::steady(*f),
                    k == arith::computes(*f),
                    acc@.len() == d,
                    acc@ == rows_at(k, s@.take(j as int), v@, m, d as nat),
                decreases n - j,
            {
                assert(s@.take(j + 1).drop_last() =~= s@.take(j as int));
                assert(v@[j as int].len() == v.width());
                if eq(s[j], m) && is_finite(s[j]) {
                    acc = add_scaled(&acc, arith::ONE, v.row(j), f);
                }
                j += 1;
            }
            assert(s@.take(j as int) =~= s@);
            return acc;
        }
        if !is_finite(m) {
            return acc;
        }
        while j < n
            invariant
                j <= n == s@.len(),
                n <= v@.len(),
                v.wf(),
                d == v.width(),
                arith::steady(*f),
                k == arith::computes(*f),
                acc@.len() == d,
                acc@ == weighted_rows(k, s@.take(j as int), v@, m, d as nat, self.eps),
            decreases n - j,
        {
            assert(s@.take(j + 1).drop_last() =~= s@.take(j as int));
            assert(v@[j as int].len() == v.width());
            let w: u64 = weigh(f, s[j], m, self.eps.0);
            acc = add_scaled(&acc, w, v.row(j), f);
            j += 1;
        }
        assert(s@.take(j as int) =~= s@);
        let q: u64 = apply_op(f, Op::Over, m, self.eps.0);
        let e: u64 = apply_op(f, Op::Exp, q, 0);
        let ghost want = Seq::new(d as nat, |c: int| k(Op::Times, acc@[c], e));
        let mut out: Vec<u64> = Vec::new();
        let mut c: usize = 0;
        while c < d
            invariant
                c <= d == acc@.len(),
                arith::steady(*f),
                k == arith::computes(*f),
                want == Seq::new(d as nat, |c: int| k(Op::Times, acc@[c], e)),
                out@ == want.take(c as int),
            decreases d - c,
        {
            out.push(apply_op(f, Op::Times, acc[c], e));
            c += 1;
            assert(out@ =~= want.take(c as int));
        }
        assert(out@ =~= want);
        out
    }

    /// Count of records with weight. In the tropical limit with the
    /// indicator this is the number of rows whose key equals the query.
    pub fn count<M: Fn(Measure, usize) -> u64 + Sync, F: Fn(Op, u64, u64) -> u64 + Sync>(
        &self,
        n: usize,
        measure: &M,
        f: &F,
    ) -> (c: usize)
        requires
            steady_measures(*measure, n as int),
            arith::steady(*f),
        ensures
            c == counted(
                arith::computes(*f),
                similarities(arith::computes(*f), measures(*measure), self.sim, n as nat),
                self.eps,
            ),
    {
        let s = self.scores(n, measure, f);
        let mut c: usize = 0;
        let mut j: usize = 0;
        if self.eps.is_zero() {
            let m: u64 = peak_of(s.as_slice());
            while j < s.len()
                invariant
                    j <= s@.len(),
                    c <= j,
                    c == finite_at(s@.take(j as int), m),
                decreases s.len() - j,
            {
                assert(s@.take(j + 1).drop_last() =~= s@.take(j as int));
                if eq(s[j], m) && is_finite(s[j]) {
                    c += 1;
                }
                j += 1;
            }
            assert(s@.take(j as int) =~= s@);
            return c;
        }
        let w = softmax_eps(s.as_slice(), self.eps, f);
        while j < w.len()
            invariant
                j <= w@.len(),
                c <= j,
                c == above_zero(w@.take(j as int)),
            decreases w.len() - j,
        {
            assert(w@.take(j + 1).drop_last() =~= w@.take(j as int));
            if lt(arith::ZERO, w[j]) {
                c += 1;
            }
            j += 1;
        }
        assert(w@.take(j as int) =~= w@);
        c
    }
}

// ------------------------------------------------------- batched attention

/// What is wrong with the arguments of a batched attention, if anything.
pub open spec fn batch_error(sim: Sim, q: Shape, k: Shape, v_rows: nat) -> Option<
    error::BruceErrorView,
> {
    if sim != Sim::Dot {
        Some(
            error::BruceErrorView::InvalidArgument("attention_batch only supports Sim::Dot"@),
        )
    } else if q.cols != k.cols {
        Some(error::BruceErrorView::DimensionMismatch(q.cols as nat, k.cols as nat))
    } else if v_rows != k.rows {
        Some(error::BruceErrorView::DimensionMismatch(k.rows as nat, v_rows))
    } else {
        None
    }
}

/// The scores of a query row against `n` keys.
pub open spec fn score_row(sc: mask::PairScore, i: usize, n: nat) -> Seq<u64> {
    Seq::new(n, |j: int| sc(i, j as usize))
}

fn batch_one<S: Fn(usize, usize) -> u64, F: Fn(Op, u64, u64) -> u64>(
    i: usize,
    v: &Matrix<u64>,
    eps: Eps,
    score: &S,
    f: &F,
) -> (row: Vec<u64>)
    requires
        v.wf(),
        mask::steady_scores(*score, i + 1, v@.len() as int),
        arith::steady(*f),
    ensures
        row@.len() == v.width(),
        row@ == attended(
            arith::computes(*f),
            score_row(mask::scores(*score), i, v@.len()),
            v@,
            v.width(),
            eps,
        ),
{
    let n: usize = v.nrows();
    let ghost want = score_row(mask::scores(*score), i, n as nat);
    let mut s: Vec<u64> = Vec::new();
    let mut j: usize = 0;
    while j < n
        invariant
            j <= n,
            mask::steady_scores(*score, i + 1, n as int),
            want == score_row(mask::scores(*score), i, n as nat),
            s@ == want.take(j as int),
        decreases n - j,
    {
        s.push(mask::score_of(score, i, j));
        j += 1;
        assert(s@ =~= want.take(j as int));
    }
    assert(s@ =~= want);
    let w = softmax_eps(s.as_slice(), eps, f);
    let at = row_numbers(n);
    mix_rows(&w, v, &at, f)
}

impl F_eps {
    /// Batched attention for several queries at once, with the inner
    /// product as similarity: row `i` is the attention of query `i`, at
    /// every temperature. `score` gives the scores.
    pub fn attention_batch<
        S: Fn(usize, usize) -> u64 + Sync,
        F: Fn(Op, u64, u64) -> u64 + Sync,
    >(&self, q: Shape, k: Shape, v: &Matrix<u64>, score: &S, f: &F) -> (r: Result<
        Matrix<u64>,
        BruceError,
    >)
        requires
            v.wf(),
            batch_error(self.sim, q, k, v@.len()) is None ==> mask::steady_scores(
                *score,
                q.rows as int,
                k.rows as int,
            ),
            arith::steady(*f),
        ensures
            match batch_error(self.sim, q, k, v@.len()) {
                Some(e) => error::fails(r, e),
                None => r matches Ok(out) && out.wf() && out.width() == v.width() && out@
                    == Seq::new(
                    q.rows as nat,
                    |i: int|
                        attended(
                            arith::computes(*f),
                            score_row(mask::scores(*score), i as usize, k.rows as nat),
                            v@,
                            v.width(),
                            self.eps,
                        ),
                ),
            },
    {
        match self.sim {
            Sim::Dot => {},
            _ => {
                return Err(
                    BruceError::InvalidArgument(
                        String::from_str("attention_batch only supports Sim::Dot"),
                    ),
                );
            },
        }
        if q.cols != k.cols {
            return Err(BruceError::DimensionMismatch { expected: q.cols, got: k.cols });
        }
        if v.nrows() != k.rows {
            return Err(BruceError::DimensionMismatch { expected: k.rows, got: v.nrows() });
        }
        let eps = self.eps;
        let job = |i: usize| -> (row: Vec<u64>)
            requires
                i < q.rows,
            ensures
                row@.len() == v.width(),
                row@ == attended(
                    arith::computes(*f),
                    score_row(mask::scores(*score), i, v@.len()),
                    v@,
                    v.width(),
                    eps,
                ),
            { batch_one(i, v, eps, score, f) };
        let rows = map_each(q.rows, &job);
        proof {
            assert forall|i: int| 0 <= i < rows@.len() implies (#[trigger] rows@[i])@.len()
                == v.width() by {
                assert(call_ensures(job, (i as usize,), rows@[(i as usize) as int]));
            }
        }
        let ghost rv = rows@;
        match Matrix::new(rows, v.ncols()) {
            Some(m) => {
                proof {
                    let want = Seq::new(
                        q.rows as nat,
                        |i: int|
                            attended(
                                arith::computes(*f),
                                score_row(mask::scores(*score), i as usize, k.rows as nat),
                                v@,
                                v.width(),
                                self.eps,
                            ),
                    );
                    assert forall|i: int| 0 <= i < q.rows implies #[trigger] m@[i] == want[i] by {
                        assert(call_ensures(job, (i as usize,), rv[(i as usize) as int]));
                    }
                    assert(m@ =~= want);
                }
                Ok(m)
            },
            None => {
                assert(false);
                Ok(Matrix::empty(v.ncols()))
            },
        }
    }
}

// ------------------------------------------------------------------ laws

/// Which of the first `n` keys equal the query, in order.
pub open spec fn matching(ms: Measures, n: nat) -> Seq<usize>
    decreases n,
{
    if n == 0 {
        Seq::empty()
    } else {
        let j = (n - 1) as usize;
        let before = matching(ms, (n - 1) as nat);
        if bits::num_eq(ms(Measure::SquaredDistance, j), arith::ZERO) {
            before.push(j)
        } else {
            before
        }
    }
}

/// `n` times the same weight.
pub open spec fn alike(w: u64, n: nat) -> Seq<u64> {
    Seq::new(n, |i: int| w)
}

/// In the tropical limit with the indicator, the operator sees exactly the
/// rows whose key equals the query: the count is theirs.
pub proof fn tropical_indicator_counts_the_matches(
    k: arith::Calc,
    ms: Measures,
    n: nat,
    eps: Eps,
)
    requires
        eps.tropical(),
    ensures
        counted(k, similarities(k, ms, Sim::Indicator, n), eps) == matching(ms, n).len(),
{
    lemma_indicator(k, ms, n);
    let s = similarities(k, ms, Sim::Indicator, n);
    lemma_indicator_count(k, ms, n, semiring::peak(s));
}

/// In the tropical limit with the indicator, the sum is that of the rows
/// whose key equals the query.
pub proof fn tropical_indicator_sums_the_matches(
    k: arith::Calc,
    ms: Measures,
    n: nat,
    v: Seq<Seq<u64>>,
    d: nat,
    eps: Eps,
)
    requires
        eps.tropical(),
        n <= usize::MAX,
    ensures
        summed(k, similarities(k, ms, Sim::Indicator, n), v, d, eps) == tree::mixture(
            k,
            alike(arith::ONE, matching(ms, n).len()),
            tree::picked(v, matching(ms, n)),
            d,
        ),
{
    lemma_indicator(k, ms, n);
    let s = similarities(k, ms, Sim::Indicator, n);
    lemma_indicator_sum(k, ms, n, semiring::peak(s), v, d);
}

/// In the tropical limit with the indicator, attention is the mean of the
/// rows whose key equals the query, where there is one: each of them weighs
/// one over their number.
pub proof fn tropical_indicator_averages_the_matches(
    k: arith::Calc,
    ms: Measures,
    n: nat,
    v: Seq<Seq<u64>>,
    d: nat,
    eps: Eps,
)
    requires
        eps.tropical(),
        n <= usize::MAX,
        matching(ms, n).len() > 0,
    ensures
        attended(k, similarities(k, ms, Sim::Indicator, n), v, d, eps) == tree::mixture(
            k,
            alike(
                k(Op::Over, arith::ONE, k(Op::Whole, matching(ms, n).len() as u64, 0)),
                matching(ms, n).len(),
            ),
            tree::picked(v, matching(ms, n)),
            d,
        ),
{
    let s = similarities(k, ms, Sim::Indicator, n);
    lemma_indicator(k, ms, n);
    lemma_indicator_count(k, ms, n, arith::ZERO);
    let w = k(Op::Over, arith::ONE, k(Op::Whole, matching(ms, n).len() as u64, 0));
    assert(semiring::softmax(k, s, eps) =~= indicated(ms, n, w));
    lemma_indicator_mixture(k, ms, n, w, tree::picked(v, first_rows(n)), v, d);
}

/// `w` for each key that equals the query, and zero for the others.
spec fn indicated(ms: Measures, n: nat, w: u64) -> Seq<u64> {
    Seq::new(
        n,
        |j: int|
            if bits::num_eq(ms(Measure::SquaredDistance, j as usize), arith::ZERO) {
                w
            } else {
                arith::ZERO
            },
    )
}

proof fn lemma_indicator(k: arith::Calc, ms: Measures, n: nat)
    ensures
        ({
            let m = semiring::peak(similarities(k, ms, Sim::Indicator, n));
            &&& m == bits::NEG_INF || m == arith::ZERO
            &&& m == bits::NEG_INF <==> matching(ms, n).len() == 0
        }),
    decreases n,
{
    if n > 0 {
        lemma_indicator(k, ms, (n - 1) as nat);
        let s = similarities(k, ms, Sim::Indicator, n);
        assert(s.drop_last() =~= similarities(k, ms, Sim::Indicator, (n - 1) as nat));
        assert(s.last() == bits::NEG_INF || s.last() == arith::ZERO);
    }
}

proof fn lemma_indicator_count(k: arith::Calc, ms: Measures, n: nat, m: u64)
    requires
        m == arith::ZERO || (m == bits::NEG_INF && matching(ms, n).len() == 0),
    ensures
        finite_at(similarities(k, ms, Sim::Indicator, n), m) == matching(ms, n).len(),
        m == arith::ZERO ==> semiring::count_at(similarities(k, ms, Sim::Indicator, n), m)
            == matching(ms, n).len(),
    decreases n,
{
    if n > 0 {
        lemma_indicator_count(k, ms, (n - 1) as nat, m);
        let s = similarities(k, ms, Sim::Indicator, n);
        assert(s.drop_last() =~= similarities(k, ms, Sim::Indicator, (n - 1) as nat));
    }
}

/// One more row at the end, weighed like those before it.
proof fn lemma_one_more(k: arith::Calc, w: u64, v: Seq<Seq<u64>>, at: Seq<usize>, j: usize, d: nat)
    ensures
        tree::mixture(k, alike(w, at.len() + 1), tree::picked(v, at.push(j)), d) == (
        if bits::num_eq(w, arith::ZERO) {
            tree::mixture(k, alike(w, at.len()), tree::picked(v, at), d)
        } else {
            tree::scaled_add(
                k,
                tree::mixture(k, alike(w, at.len()), tree::picked(v, at), d),
                w,
                v[j as int],
            )
        }),
{
    let ws = alike(w, at.len() + 1);
    assert(ws.drop_last() =~= alike(w, at.len()));
    tree::lemma_mixture_prefix(
        k,
        alike(w, at.len()),
        tree::picked(v, at.push(j)),
        tree::picked(v, at),
        d,
    );
}

proof fn lemma_indicator_sum(
    k: arith::Calc,
    ms: Measures,
    n: nat,
    m: u64,
    v: Seq<Seq<u64>>,
    d: nat,
)
    requires
        n <= usize::MAX,
        m == arith::ZERO || (m == bits::NEG_INF && matching(ms, n).len() == 0),
    ensures
        rows_at(k, similarities(k, ms, Sim::Indicator, n), v, m, d) == tree::mixture(
            k,
            alike(arith::ONE, matching(ms, n).len()),
            tree::picked(v, matching(ms, n)),
            d,
        ),
    decreases n,
{
    if n > 0 {
        lemma_indicator_sum(k, ms, (n - 1) as nat, m, v, d);
        let s = similarities(k, ms, Sim::Indicator, n);
        assert(s.drop_last() =~= similarities(k, ms, Sim::Indicator, (n - 1) as nat));
        lemma_one_more(
            k,
            arith::ONE,
            v,
            matching(ms, (n - 1) as nat),
            (n - 1) as usize,
            d,
        );
    }
}

proof fn lemma_indicator_mixture(
    k: arith::Calc,
    ms: Measures,
    n: nat,
    w: u64,
    rows: Seq<Seq<u64>>,
    v: Seq<Seq<u64>>,
    d: nat,
)
    requires
        n <= usize::MAX,
        n <= rows.len(),
        forall|j: int| 0 <= j < n ==> #[trigger] rows[j] == v[j],
    ensures
        tree::mixture(k, indicated(ms, n, w), rows, d) == tree::mixture(
            k,
            alike(w, matching(ms, n).len()),
            tree::picked(v, matching(ms, n)),
            d,
        ),
    decreases n,
{
    if n > 0 {
        lemma_indicator_mixture(k, ms, (n - 1) as nat, w, rows, v, d);
        let ws = indicated(ms, n, w);
        assert(ws.drop_last() =~= indicated(ms, (n - 1) as nat, w));
        assert(rows[n - 1] == v[n - 1]);
        lemma_one_more(k, w, v, matching(ms, (n - 1) as nat), (n - 1) as usize, d);
    }
}

} // verus!
