//! The per-row accumulator in the max-shifted representation.
//!
//! At a finite temperature it holds the anchor `mu` (the largest score), the
//! sum of weights `z` and the weighted sum of values `u`, both shifted by
//! the anchor. In the tropical limit `z` counts the rows at the maximum and
//! `u` sums their values; in the uniform limit `z` counts the rows and `u`
//! sums all values.

use vstd::prelude::*;

use crate::arith;
use crate::arith::{apply_op, max, weigh, Op};
use crate::bits;
use crate::bits::{eq, lt};
use crate::matrix;
use crate::matrix::zero_row;
use crate::types::Eps;

verus! {

/// Accumulator of one row or group.
#[derive(Clone, Debug)]
pub struct RowAcc {
    /// The anchor: the largest score so far.
    pub mu: u64,
    /// The sum of weights.
    pub z: u64,
    /// The weighted sum of values.
    pub u: Vec<u64>,
}

/// An accumulator as a mathematical value.
#[verifier::ext_equal]
pub struct Acc {
    pub mu: u64,
    pub z: u64,
    pub u: Seq<u64>,
}

impl View for RowAcc {
    type V = Acc;

    open spec fn view(&self) -> Acc {
        Acc { mu: self.mu, z: self.z, u: self.u@ }
    }
}

/// An accumulator that has absorbed nothing.
pub open spec fn vacant(d: nat) -> Acc {
    Acc { mu: bits::NEG_INF, z: arith::ZERO, u: matrix::zeros(d) }
}

impl Acc {
    /// Nothing of weight was absorbed.
    pub open spec fn is_vacant(self) -> bool {
        bits::num_eq(self.z, arith::ZERO)
    }
}

/// An accumulator that holds one row alone.
pub open spec fn single(s: u64, v: Seq<u64>) -> Acc {
    Acc { mu: s, z: arith::ONE, u: v }
}

/// Componentwise sum.
pub open spec fn sum_of(k: arith::Calc, x: Seq<u64>, y: Seq<u64>) -> Seq<u64> {
    Seq::new(x.len(), |c: int| k(Op::Plus, x[c], y[c]))
}

/// One more row of weight 1 under the same anchor.
pub open spec fn counted(k: arith::Calc, a: Acc, v: Seq<u64>) -> Acc {
    Acc { mu: a.mu, z: k(Op::Plus, a.z, arith::ONE), u: sum_of(k, a.u, v) }
}

/// `x * p + q * y`, componentwise.
pub open spec fn scaled(k: arith::Calc, x: Seq<u64>, p: u64, q: u64, y: Seq<u64>) -> Seq<u64> {
    Seq::new(x.len(), |c: int| k(Op::Plus, k(Op::Times, x[c], p), k(Op::Times, q, y[c])))
}

/// One more row of finite score at a finite temperature.
pub open spec fn reweighed(k: arith::Calc, a: Acc, s: u64, v: Seq<u64>, eps: Eps) -> Acc {
    let m = arith::larger(a.mu, s);
    let scale = arith::weight(k, a.mu, m, eps.0);
    let w = arith::weight(k, s, m, eps.0);
    Acc {
        mu: m,
        z: k(Op::Plus, k(Op::Times, a.z, scale), w),
        u: scaled(k, a.u, scale, w, v),
    }
}

/// The accumulator after one more row with score `s` and value `v`.
///
/// A score of minus infinity weighs nothing, except in the uniform limit,
/// which does not look at scores. A score of plus infinity at a finite
/// temperature outweighs every finite score, and rows that share it count
/// alike.
pub open spec fn absorbed(k: arith::Calc, a: Acc, s: u64, v: Seq<u64>, eps: Eps) -> Acc {
    if eps.tropical() {
        if s == bits::NEG_INF {
            a
        } else if bits::num_lt(a.mu, s) {
            single(s, v)
        } else if bits::num_eq(s, a.mu) {
            counted(k, a, v)
        } else {
            a
        }
    } else if eps.uniform() {
        counted(k, a, v)
    } else if s == bits::NEG_INF {
        a
    } else if s == bits::POS_INF && a.mu == bits::POS_INF {
        counted(k, a, v)
    } else if s == bits::POS_INF {
        single(s, v)
    } else if a.mu == bits::POS_INF {
        a
    } else if a.is_vacant() {
        single(s, v)
    } else {
        reweighed(k, a, s, v, eps)
    }
}

/// Sums of two accumulators under the anchor of the first.
pub open spec fn pooled(k: arith::Calc, a: Acc, b: Acc) -> Acc {
    Acc { mu: a.mu, z: k(Op::Plus, a.z, b.z), u: sum_of(k, a.u, b.u) }
}

/// Both sides moved to the larger anchor and added.
pub open spec fn rebased(k: arith::Calc, a: Acc, b: Acc, eps: Eps) -> Acc {
    let m = arith::larger(a.mu, b.mu);
    let p = arith::weight(k, a.mu, m, eps.0);
    let q = arith::weight(k, b.mu, m, eps.0);
    Acc {
        mu: m,
        z: k(Op::Plus, k(Op::Times, a.z, p), k(Op::Times, b.z, q)),
        u: Seq::new(
            a.u.len(),
            |c: int| k(Op::Plus, k(Op::Times, a.u[c], p), k(Op::Times, b.u[c], q)),
        ),
    }
}

/// Two accumulators of disjoint row sets as one.
pub open spec fn merged(k: arith::Calc, a: Acc, b: Acc, eps: Eps) -> Acc {
    if b.is_vacant() {
        a
    } else if a.is_vacant() {
        b
    } else if eps.tropical() {
        if bits::num_lt(a.mu, b.mu) {
            b
        } else if bits::num_eq(b.mu, a.mu) {
            pooled(k, a, b)
        } else {
            a
        }
    } else if eps.uniform() {
        pooled(k, a, b)
    } else if a.mu == bits::POS_INF && b.mu == bits::POS_INF {
        pooled(k, a, b)
    } else if b.mu == bits::POS_INF {
        b
    } else if a.mu == bits::POS_INF {
        a
    } else {
        rebased(k, a, b, eps)
    }
}

/// The output of an accumulator: the weighted mean, or nothing where no
/// row of weight was absorbed.
pub open spec fn output(k: arith::Calc, a: Acc) -> Option<Seq<u64>> {
    if a.is_vacant() {
        None
    } else {
        Some(Seq::new(a.u.len(), |c: int| k(Op::Over, a.u[c], a.z)))
    }
}

/// A copy of a list of numbers.
pub fn copied(v: &[u64]) -> (r: Vec<u64>)
    ensures
        r@ == v@,
{
    let mut r: Vec<u64> = Vec::new();
    let mut c: usize = 0;
    while c < v.len()
        invariant
            c <= v@.len(),
            r@ == v@.take(c as int),
        decreases v.len() - c,
    {
        r.push(v[c]);
        c += 1;
        assert(r@ =~= v@.take(c as int));
    }
    assert(v@.take(c as int) =~= v@);
    r
}

impl RowAcc {
    /// An accumulator that has absorbed nothing, for values of `d_v`
    /// components.
    pub fn new(d_v: usize) -> (a: RowAcc)
        ensures
            a@ == vacant(d_v as nat),
    {
        RowAcc { mu: bits::NEG_INF, z: arith::ZERO, u: zero_row(d_v) }
    }

    /// True where no row of weight was absorbed.
    pub fn is_empty(&self) -> (r: bool)
        ensures
            r == self@.is_vacant(),
    {
        eq(self.z, arith::ZERO)
    }

    /// A copy.
    pub fn copy(&self) -> (r: RowAcc)
        ensures
            r@ == self@,
    {
        RowAcc { mu: self.mu, z: self.z, u: copied(self.u.as_slice()) }
    }

    fn restart(&mut self, s: u64, v: &[u64])
        ensures
            final(self)@ == single(s, v@),
    {
        self.mu = s;
        self.z = arith::ONE;
        self.u = copied(v);
    }

    fn count_in<F: Fn(Op, u64, u64) -> u64>(&mut self, f: &F, v: &[u64])
        requires
            arith::steady(*f),
            v@.len() == old(self).u@.len(),
        ensures
            final(self)@ == counted(arith::computes(*f), old(self)@, v@),
    {
        let ghost k = arith::computes(*f);
        let n: usize = self.u.len();
        let z: u64 = apply_op(f, Op::Plus, self.z, arith::ONE);
        let mut u: Vec<u64> = Vec::new();
        let mut c: usize = 0;
        while c < n
            invariant
                c <= n == self.u@.len(),
                n == v@.len(),
                arith::steady(*f),
                k == arith::computes(*f),
                u@ == sum_of(k, self.u@, v@).take(c as int),
            decreases n - c,
        {
            u.push(apply_op(f, Op::Plus, self.u[c], v[c]));
            c += 1;
            assert(u@ =~= sum_of(k, self.u@, v@).take(c as int));
        }
        assert(u@ =~= sum_of(k, self.u@, v@));
        self.z = z;
        self.u = u;
    }

    /// Absorb one row with score `s` and value `v`.
    pub fn absorb<F: Fn(Op, u64, u64) -> u64>(&mut self, s: u64, v: &[u64], eps: Eps, f: &F)
        requires
            arith::steady(*f),
            v@.len() == old(self).u@.len(),
        ensures
            final(self)@ == absorbed(arith::computes(*f), old(self)@, s, v@, eps),
    {
        if eps.is_zero() {
            if s == bits::NEG_INF {
                return ;
            }
            if lt(self.mu, s) {
                self.restart(s, v);
            } else if eq(s, self.mu) {
                self.count_in(f, v);
            }
            return ;
        }
        if eps.is_inf() {
            self.count_in(f, v);
            return ;
        }
        if s == bits::NEG_INF {
            return ;
        }
        if s == bits::POS_INF || self.mu == bits::POS_INF {
            if s == bits::POS_INF && self.mu == bits::POS_INF {
                self.count_in(f, v);
            } else if s == bits::POS_INF {
                self.restart(s, v);
            }
            return ;
        }
        if self.is_empty() {
            self.restart(s, v);
            return ;
        }
        let ghost k = arith::computes(*f);
        let m: u64 = max(self.mu, s);
        let scale: u64 = weigh(f, self.mu, m, eps.0);
        let w: u64 = weigh(f, s, m, eps.0);
        let n: usize = self.u.len();
        let mut u: Vec<u64> = Vec::new();
        let mut c: usize = 0;
        while c < n
            invariant
                c <= n == self.u@.len(),
                n == v@.len(),
                arith::steady(*f),
                k == arith::computes(*f),
                u@ == scaled(k, self.u@, scale, w, v@).take(c as int),
            decreases n - c,
        {
            let x: u64 = apply_op(f, Op::Times, self.u[c], scale);
            let y: u64 = apply_op(f, Op::Times, w, v[c]);
            u.push(apply_op(f, Op::Plus, x, y));
            c += 1;
            assert(u@ =~= scaled(k, self.u@, scale, w, v@).take(c as int));
        }
        assert(u@ =~= scaled(k, self.u@, scale, w, v@));
        let zs: u64 = apply_op(f, Op::Times, self.z, scale);
        self.z = apply_op(f, Op::Plus, zs, w);
        self.u = u;
        self.mu = m;
    }

    fn pool<F: Fn(Op, u64, u64) -> u64>(&mut self, other: &RowAcc, f: &F)
        requires
            arith::steady(*f),
            other.u@.len() == old(self).u@.len(),
        ensures
            final(self)@ == pooled(arith::computes(*f), old(self)@, other@),
    {
        let ghost k = arith::computes(*f);
        let n: usize = self.u.len();
        let z: u64 = apply_op(f, Op::Plus, self.z, other.z);
        let mut u: Vec<u64> = Vec::new();
        let mut c: usize = 0;
        while c < n
            invariant
                c <= n == self.u@.len(),
                n == other.u@.len(),
                arith::steady(*f),
                k == arith::computes(*f),
                u@ == sum_of(k, self.u@, other.u@).take(c as int),
            decreases n - c,
        {
            u.push(apply_op(f, Op::Plus, self.u[c], other.u[c]));
            c += 1;
            assert(u@ =~= sum_of(k, self.u@, other.u@).take(c as int));
        }
        assert(u@ =~= sum_of(k, self.u@, other.u@));
        self.z = z;
        self.u = u;
    }

    /// Merge another accumulator into this one: disjoint row sets combine by
    /// moving both sides to the common maximum and adding.
    pub fn merge<F: Fn(Op, u64, u64) -> u64>(&mut self, other: &RowAcc, eps: Eps, f: &F)
        requires
            arith::steady(*f),
            other.u@.len() == old(self).u@.len(),
        ensures
            final(self)@ == merged(arith::computes(*f), old(self)@, other@, eps),
    {
        if other.is_empty() {
            return ;
        }
        if self.is_empty() {
            *self = other.copy();
            return ;
        }
        if eps.is_zero() {
            if lt(self.mu, other.mu) {
                *self = other.copy();
            } else if eq(other.mu, self.mu) {
                self.pool(other, f);
            }
            return ;
        }
        if eps.is_inf() {
            self.pool(other, f);
            return ;
        }
        if self.mu == bits::POS_INF || other.mu == bits::POS_INF {
            if self.mu == bits::POS_INF && other.mu == bits::POS_INF {
                self.pool(other, f);
            } else if other.mu == bits::POS_INF {
                *self = other.copy();
            }
            return ;
        }
        let ghost k = arith::computes(*f);
        let m: u64 = max(self.mu, other.mu);
        let p: u64 = weigh(f, self.mu, m, eps.0);
        let q: u64 = weigh(f, other.mu, m, eps.0);
        let n: usize = self.u.len();
        let ghost want = rebased(k, self@, other@, eps).u;
        let mut u: Vec<u64> = Vec::new();
        let mut c: usize = 0;
        while c < n
            invariant
                c <= n == self.u@.len(),
                n == other.u@.len(),
                arith::steady(*f),
                k == arith::computes(*f),
                want == rebased(k, self@, other@, eps).u,
                m == arith::larger(self.mu, other.mu),
                p == arith::weight(k, self.mu, m, eps.0),
                q == arith::weight(k, other.mu, m, eps.0),
                u@ == want.take(c as int),
            decreases n - c,
        {
            let x: u64 = apply_op(f, Op::Times, self.u[c], p);
            let y: u64 = apply_op(f, Op::Times, other.u[c], q);
            u.push(apply_op(f, Op::Plus, x, y));
            c += 1;
            assert(u@ =~= want.take(c as int));
        }
        assert(u@ =~= want);
        let zp: u64 = apply_op(f, Op::Times, self.z, p);
        let zq: u64 = apply_op(f, Op::Times, other.z, q);
        self.z = apply_op(f, Op::Plus, zp, zq);
        self.u = u;
        self.mu = m;
    }

    /// The weighted mean in every regime; `None` if no row of weight was
    /// absorbed.
    pub fn finalize<F: Fn(Op, u64, u64) -> u64>(&self, f: &F) -> (r: Option<Vec<u64>>)
        requires
            arith::steady(*f),
        ensures
            match output(arith::computes(*f), self@) {
                Some(row) => r matches Some(x) && x@ == row,
                None => r is None,
            },
    {
        if self.is_empty() {
            return None;
        }
        let ghost want = output(arith::computes(*f), self@)->0;
        let mut out: Vec<u64> = Vec::new();
        let mut c: usize = 0;
        while c < self.u.len()
            invariant
                c <= self.u@.len(),
                arith::steady(*f),
                want == Seq::new(
                    self@.u.len(),
                    |c: int| arith::computes(*f)(Op::Over, self@.u[c], self@.z),
                ),
                out@ == want.take(c as int),
            decreases self.u.len() - c,
        {
            out.push(apply_op(f, Op::Over, self.u[c], self.z));
            c += 1;
            assert(out@ =~= want.take(c as int));
        }
        assert(out@ =~= want);
        Some(out)
    }
}

// ------------------------------------------------------------------ laws

/// The accumulator after a list of rows, each a score and a value.
pub open spec fn folded(k: arith::Calc, d: nat, rows: Seq<(u64, Seq<u64>)>, eps: Eps) -> Acc
    decreases rows.len(),
{
    if rows.len() == 0 {
        vacant(d)
    } else {
        absorbed(k, folded(k, d, rows.drop_last(), eps), rows.last().0, rows.last().1, eps)
    }
}

/// A temperature at neither limit.
pub open spec fn tempered(eps: Eps) -> bool {
    !eps.tropical() && !eps.uniform()
}

/// A row scored minus infinity changes nothing, except in the uniform
/// limit.
pub proof fn minus_infinity_weighs_nothing(k: arith::Calc, a: Acc, v: Seq<u64>, eps: Eps)
    requires
        !eps.uniform(),
    ensures
        absorbed(k, a, bits::NEG_INF, v, eps) == a,
{
}

/// In the uniform limit scores are not looked at.
pub proof fn uniform_limit_is_blind_to_scores(
    k: arith::Calc,
    a: Acc,
    s: u64,
    t: u64,
    v: Seq<u64>,
    eps: Eps,
)
    requires
        eps.uniform(),
    ensures
        absorbed(k, a, s, v, eps) == absorbed(k, a, t, v, eps),
{
}

/// The rows scored plus infinity.
pub open spec fn infinite_rows(rows: Seq<(u64, Seq<u64>)>) -> Seq<(u64, Seq<u64>)> {
    rows.filter(|r: (u64, Seq<u64>)| r.0 == bits::POS_INF)
}

proof fn lemma_infinite_rows(k: arith::Calc, d: nat, rows: Seq<(u64, Seq<u64>)>, eps: Eps)
    requires
        tempered(eps),
    ensures
        infinite_rows(rows).len() > 0 ==> folded(k, d, rows, eps) == folded(
            k,
            d,
            infinite_rows(rows),
            eps,
        ) && folded(k, d, rows, eps).mu == bits::POS_INF,
        infinite_rows(rows).len() == 0 ==> folded(k, d, rows, eps).mu != bits::POS_INF,
    decreases rows.len(),
{
    let p = |r: (u64, Seq<u64>)| r.0 == bits::POS_INF;
    reveal(Seq::filter);
    if rows.len() > 0 {
        let rest = rows.drop_last();
        lemma_infinite_rows(k, d, rest, eps);
        let i = infinite_rows(rest);
        if rows.last().0 == bits::POS_INF {
            assert(infinite_rows(rows) == i.push(rows.last()));
            assert(infinite_rows(rows).drop_last() =~= i);
            if i.len() == 0 {
                assert(folded(k, d, i, eps) == vacant(d));
            }
        } else {
            assert(infinite_rows(rows) == i);
        }
    }
}

/// At a temperature between the limits, where any row scores plus infinity
/// the rows that do decide alone.
pub proof fn infinite_scores_decide_alone(
    k: arith::Calc,
    d: nat,
    rows: Seq<(u64, Seq<u64>)>,
    eps: Eps,
)
    requires
        tempered(eps),
        exists|i: int| 0 <= i < rows.len() && (#[trigger] rows[i]).0 == bits::POS_INF,
    ensures
        folded(k, d, rows, eps) == folded(k, d, infinite_rows(rows), eps),
{
    let i = choose|i: int| 0 <= i < rows.len() && (#[trigger] rows[i]).0 == bits::POS_INF;
    let p = |r: (u64, Seq<u64>)| r.0 == bits::POS_INF;
    rows.filter_lemma(p);
    assert(infinite_rows(rows).contains(rows[i]));
    lemma_infinite_rows(k, d, rows, eps);
}

/// No score is NaN.
pub open spec fn scored(rows: Seq<(u64, Seq<u64>)>) -> bool {
    forall|i: int| 0 <= i < rows.len() ==> !bits::nan((#[trigger] rows[i]).0)
}

/// The rows whose score equals `m`.
pub open spec fn rows_at(rows: Seq<(u64, Seq<u64>)>, m: u64) -> Seq<(u64, Seq<u64>)> {
    rows.filter(|r: (u64, Seq<u64>)| r.0 != bits::NEG_INF && bits::num_eq(r.0, m))
}

proof fn lemma_tropical_anchor(k: arith::Calc, d: nat, rows: Seq<(u64, Seq<u64>)>, eps: Eps)
    requires
        eps.tropical(),
        scored(rows),
    ensures
        ({
            let m = folded(k, d, rows, eps).mu;
            &&& !bits::nan(m)
            &&& m == bits::NEG_INF ==> folded(k, d, rows, eps) == vacant(d)
            &&& m == bits::NEG_INF || exists|i: int| 0 <= i < rows.len() && (#[trigger] rows[i]).0 == m
            &&& forall|i: int| 0 <= i < rows.len() ==> bits::rank((#[trigger] rows[i]).0) <= bits::rank(m)
        }),
    decreases rows.len(),
{
    if rows.len() > 0 {
        let rest = rows.drop_last();
        assert forall|i: int| 0 <= i < rest.len() implies !bits::nan((#[trigger] rest[i]).0) by {
            assert(rest[i] == rows[i]);
        }
        lemma_tropical_anchor(k, d, rest, eps);
        let m0 = folded(k, d, rest, eps).mu;
        let m = folded(k, d, rows, eps).mu;
        let last = rows[rows.len() - 1];
        assert(!bits::nan(last.0));
        assert forall|i: int| 0 <= i < rows.len() implies bits::rank((#[trigger] rows[i]).0) <= bits::rank(m) by {
            if i < rest.len() {
                assert(rest[i] == rows[i]);
            }
        }
        if m == m0 && m0 != bits::NEG_INF {
            let j = choose|i: int| 0 <= i < rest.len() && (#[trigger] rest[i]).0 == m0;
            assert(rows[j].0 == m);
        }
        if m != m0 {
            assert(rows[rows.len() - 1].0 == m);
        }
    }
}

/// In the tropical limit the anchor is the largest score of all rows.
pub proof fn tropical_anchor_is_the_largest_score(
    k: arith::Calc,
    d: nat,
    rows: Seq<(u64, Seq<u64>)>,
    eps: Eps,
    i: int,
)
    requires
        eps.tropical(),
        scored(rows),
        0 <= i < rows.len(),
    ensures
        bits::rank(rows[i].0) <= bits::rank(folded(k, d, rows, eps).mu),
{
    lemma_tropical_anchor(k, d, rows, eps);
}

proof fn lemma_no_rows_at(rows: Seq<(u64, Seq<u64>)>, m: u64)
    requires
        forall|i: int|
            0 <= i < rows.len() ==> (#[trigger] rows[i]).0 == bits::NEG_INF || !bits::num_eq(
                rows[i].0,
                m,
            ),
    ensures
        rows_at(rows, m) == Seq::<(u64, Seq<u64>)>::empty(),
    decreases rows.len(),
{
    reveal(Seq::filter);
    if rows.len() > 0 {
        let rest = rows.drop_last();
        assert forall|i: int| 0 <= i < rest.len() implies (#[trigger] rest[i]).0 == bits::NEG_INF
            || !bits::num_eq(rest[i].0, m) by {
            assert(rest[i] == rows[i]);
        }
        lemma_no_rows_at(rest, m);
        assert(rows[rows.len() - 1] == rows.last());
    }
}

proof fn lemma_rows_at_same(rows: Seq<(u64, Seq<u64>)>, m: u64, n: u64)
    requires
        !bits::nan(m),
        !bits::nan(n),
        bits::rank(m) == bits::rank(n),
    ensures
        rows_at(rows, m) == rows_at(rows, n),
    decreases rows.len(),
{
    reveal(Seq::filter);
    if rows.len() > 0 {
        lemma_rows_at_same(rows.drop_last(), m, n);
    }
}

/// In the tropical limit only the rows at the largest score matter: the
/// others might as well not be there.
pub proof fn tropical_limit_keeps_the_largest(
    k: arith::Calc,
    d: nat,
    rows: Seq<(u64, Seq<u64>)>,
    eps: Eps,
)
    requires
        eps.tropical(),
        scored(rows),
    ensures
        folded(k, d, rows, eps) == folded(k, d, rows_at(rows, folded(k, d, rows, eps).mu), eps),
    decreases rows.len(),
{
    reveal(Seq::filter);
    if rows.len() > 0 {
        let rest = rows.drop_last();
        assert forall|i: int| 0 <= i < rest.len() implies !bits::nan((#[trigger] rest[i]).0) by {
            assert(rest[i] == rows[i]);
        }
        tropical_limit_keeps_the_largest(k, d, rest, eps);
        lemma_tropical_anchor(k, d, rest, eps);
        lemma_tropical_anchor(k, d, rows, eps);
        let a = folded(k, d, rest, eps);
        let last = rows[rows.len() - 1];
        let m = folded(k, d, rows, eps).mu;
        assert(rows.last() == last);
        if last.0 == bits::NEG_INF {
            assert(rows_at(rows, m) == rows_at(rest, m));
        } else if bits::num_lt(a.mu, last.0) {
            assert(m == last.0);
            assert forall|i: int| 0 <= i < rest.len() implies (#[trigger] rest[i]).0
                == bits::NEG_INF || !bits::num_eq(rest[i].0, m) by {
                assert(bits::rank(rest[i].0) <= bits::rank(a.mu));
            }
            lemma_no_rows_at(rest, m);
            let one = rows_at(rows, m);
            assert(one == Seq::<(u64, Seq<u64>)>::empty().push(last));
            assert(one.drop_last() =~= Seq::<(u64, Seq<u64>)>::empty());
            assert(folded(k, d, one.drop_last(), eps) == vacant(d));
            assert(bits::num_lt(bits::NEG_INF, last.0)) by {
                assert(bits::magnitude(last.0) <= bits::POS_INF);
            }
        } else if bits::num_eq(last.0, a.mu) {
            assert(m == a.mu);
            assert(rows_at(rows, m) == rows_at(rest, m).push(last));
            assert(rows_at(rows, m).drop_last() =~= rows_at(rest, m));
        } else {
            assert(rows_at(rows, m) == rows_at(rest, m));
        }
    } else {
        lemma_no_rows_at(rows, folded(k, d, rows, eps).mu);
    }
}

/// Merging with an accumulator that holds nothing of weight changes
/// nothing, on either side.
pub proof fn vacant_is_the_identity_of_merge(k: arith::Calc, a: Acc, b: Acc, eps: Eps)
    requires
        b.is_vacant(),
    ensures
        merged(k, a, b, eps) == a,
        !a.is_vacant() ==> merged(k, b, a, eps) == a,
        output(k, merged(k, b, a, eps)) == output(k, a),
{
}

/// One row alone gives its own value, in every regime in which it weighs
/// anything and wherever the arithmetic has `x / 1 == x` and `0 + x == x`
/// for its components and for 1.
pub proof fn one_row_gives_its_value(k: arith::Calc, s: u64, v: Seq<u64>, eps: Eps)
    requires
        !bits::nan(s),
        eps.uniform() || s != bits::NEG_INF,
        k(Op::Plus, arith::ZERO, arith::ONE) == arith::ONE,
        forall|c: int| 0 <= c < v.len() ==> #[trigger] k(Op::Plus, arith::ZERO, v[c]) == v[c],
        forall|c: int| 0 <= c < v.len() ==> #[trigger] k(Op::Over, v[c], arith::ONE) == v[c],
    ensures
        output(k, folded(k, v.len(), seq![(s, v)], eps)) == Some(v),
{
    let rows = seq![(s, v)];
    let d = v.len();
    assert(rows.drop_last() =~= Seq::<(u64, Seq<u64>)>::empty());
    assert(folded(k, d, rows.drop_last(), eps) == vacant(d));
    let a = folded(k, d, rows, eps);
    assert(a.z == arith::ONE && a.u =~= v) by {
        if eps.tropical() {
            assert(bits::magnitude(s) <= bits::POS_INF);
            assert(bits::num_lt(bits::NEG_INF, s));
        }
        assert forall|c: int| 0 <= c < d implies vacant(d).u[c] == arith::ZERO by {}
    }
    assert(output(k, a)->0 =~= v);
}

/// Where every row has the same finite score, a temperature between the
/// limits gives the plain mean, wherever the arithmetic gives that score
/// weight 1 under itself, has `1 * x == x * 1 == x` and `0 + x == x`, and
/// counts up from 0 without falling below 1.
pub proof fn equal_scores_give_the_plain_mean(
    k: arith::Calc,
    d: nat,
    rows: Seq<(u64, Seq<u64>)>,
    s: u64,
    eps: Eps,
    flat: Eps,
)
    requires
        tempered(eps),
        flat.uniform(),
        bits::finite(s),
        forall|i: int| 0 <= i < rows.len() ==> (#[trigger] rows[i]).0 == s && rows[i].1.len() == d,
        arith::weight(k, s, s, eps.0) == arith::ONE,
        forall|x: u64| #[trigger] k(Op::Times, x, arith::ONE) == x,
        forall|x: u64| #[trigger] k(Op::Times, arith::ONE, x) == x,
        k(Op::Plus, arith::ZERO, arith::ONE) == arith::ONE,
        forall|i: int, c: int|
            0 <= i < rows.len() && 0 <= c < d ==> k(Op::Plus, arith::ZERO, #[trigger] rows[i].1[c])
                == rows[i].1[c],
        forall|z: u64|
            z == arith::ZERO || at_least_one(z) ==> at_least_one(
                #[trigger] k(Op::Plus, z, arith::ONE),
            ),
    ensures
        output(k, folded(k, d, rows, eps)) == output(k, folded(k, d, rows, flat)),
        folded(k, d, rows, eps).z == folded(k, d, rows, flat).z,
        folded(k, d, rows, eps).u == folded(k, d, rows, flat).u,
        rows.len() > 0 ==> folded(k, d, rows, eps).mu == s,
    decreases rows.len(),
{
    if rows.len() > 0 {
        let rest = rows.drop_last();
        assert forall|i: int| 0 <= i < rest.len() implies (#[trigger] rest[i]).0 == s
            && rest[i].1.len() == d by {
            assert(rest[i] == rows[i]);
        }
        assert forall|i: int, c: int| 0 <= i < rest.len() && 0 <= c < d implies k(
            Op::Plus,
            arith::ZERO,
            #[trigger] rest[i].1[c],
        ) == rest[i].1[c] by {
            assert(rest[i] == rows[i]);
            assert(rows[i].1[c] == rest[i].1[c]);
        }
        equal_scores_give_the_plain_mean(k, d, rest, s, eps, flat);
        let a = folded(k, d, rest, eps);
        let b = folded(k, d, rest, flat);
        let last = rows[rows.len() - 1];
        assert(rows.last() == last);
        assert(last.0 == s);
        lemma_width(k, d, rest, eps);
        let x = folded(k, d, rows, eps);
        let y = folded(k, d, rows, flat);
        if rest.len() == 0 {
            assert(a == vacant(d));
            assert(b == vacant(d));
            assert forall|c: int| 0 <= c < d implies y.u[c] == x.u[c] by {
                assert(rows[rows.len() - 1].1[c] == last.1[c]);
                assert(b.u[c] == arith::ZERO);
            }
            assert(x.u =~= y.u);
        } else {
            assert(b.z == a.z);
            lemma_uniform_count(k, d, rest, flat);
            assert(!a.is_vacant());
            assert(arith::larger(a.mu, s) == s);
            assert(x.u =~= y.u);
        }
        assert(output(k, x) =~= output(k, y)) by {
            if !x.is_vacant() {
                assert(output(k, x)->0 =~= output(k, y)->0);
            }
        }
    }
}

/// A number that is 1 or more.
pub open spec fn at_least_one(z: u64) -> bool {
    !bits::nan(z) && bits::rank(z) >= bits::rank(arith::ONE)
}

/// In the uniform limit the rows are counted.
proof fn lemma_uniform_count(k: arith::Calc, d: nat, rows: Seq<(u64, Seq<u64>)>, eps: Eps)
    requires
        eps.uniform(),
        rows.len() > 0,
        forall|z: u64|
            z == arith::ZERO || at_least_one(z) ==> at_least_one(
                #[trigger] k(Op::Plus, z, arith::ONE),
            ),
    ensures
        at_least_one(folded(k, d, rows, eps).z),
    decreases rows.len(),
{
    let rest = rows.drop_last();
    let a = folded(k, d, rest, eps);
    if rest.len() > 0 {
        lemma_uniform_count(k, d, rest, eps);
    }
    assert(folded(k, d, rows, eps).z == k(Op::Plus, a.z, arith::ONE));
}

/// An accumulator keeps the width of its values.
pub proof fn lemma_width(k: arith::Calc, d: nat, rows: Seq<(u64, Seq<u64>)>, eps: Eps)
    requires
        forall|i: int| 0 <= i < rows.len() ==> (#[trigger] rows[i]).1.len() == d,
    ensures
        folded(k, d, rows, eps).u.len() == d,
    decreases rows.len(),
{
    if rows.len() > 0 {
        let rest = rows.drop_last();
        assert forall|i: int| 0 <= i < rest.len() implies (#[trigger] rest[i]).1.len() == d by {
            assert(rest[i] == rows[i]);
        }
        lemma_width(k, d, rest, eps);
        assert(rows[rows.len() - 1] == rows.last());
    }
}

/// Up to this many rows are counted exactly.
pub open spec fn countable() -> nat {
    0x20_0000_0000_0000
}

/// A sum of weights of `n` rows whose largest weight is 1 lies between 1
/// and `n`.
pub open spec fn counts_to(k: arith::Calc, z: u64, n: nat) -> bool {
    at_least_one(z) && bits::rank(z) <= bits::rank(k(Op::Whole, n as u64, 0))
}

/// Counting one more row.
pub open spec fn step_count(k: arith::Calc, z: u64, n: nat) -> bool {
    n < countable() && counts_to(k, z, n) ==> counts_to(k, k(Op::Plus, z, arith::ONE), n + 1)
}

/// Adding two counts.
pub open spec fn step_pool(k: arith::Calc, y: u64, z: u64, m: nat, n: nat) -> bool {
    m + n <= countable() && counts_to(k, y, m) && counts_to(k, z, n) ==> counts_to(
        k,
        k(Op::Plus, y, z),
        m + n,
    )
}

/// Weighing one more row with score `q` under anchor `p`.
pub open spec fn step_weigh(k: arith::Calc, z: u64, n: nat, p: u64, q: u64, eps: Eps) -> bool {
    let m = arith::larger(p, q);
    n < countable() && counts_to(k, z, n) && bits::finite(p) && bits::finite(q) ==> counts_to(
        k,
        k(
            Op::Plus,
            k(Op::Times, z, arith::weight(k, p, m, eps.0)),
            arith::weight(k, q, m, eps.0),
        ),
        n + 1,
    )
}

/// Moving two sums to the larger anchor.
pub open spec fn step_rebase(
    k: arith::Calc,
    y: u64,
    z: u64,
    m: nat,
    n: nat,
    p: u64,
    q: u64,
    eps: Eps,
) -> bool {
    let top = arith::larger(p, q);
    m + n <= countable() && counts_to(k, y, m) && counts_to(k, z, n) && bits::finite(p)
        && bits::finite(q) ==> counts_to(
        k,
        k(
            Op::Plus,
            k(Op::Times, y, arith::weight(k, p, top, eps.0)),
            k(Op::Times, z, arith::weight(k, q, top, eps.0)),
        ),
        m + n,
    )
}

/// What the law of coverage asks of the arithmetic at a temperature: sums
/// of weights stay between 1 and the number of rows. Rounding arithmetic
/// whose weights lie between 0 and 1, with weight 1 for the anchor itself,
/// has this as long as the rows can be counted.
pub open spec fn keeps_count(k: arith::Calc, eps: Eps) -> bool {
    &&& counts_to(k, arith::ONE, 1)
    &&& counts_to(k, k(Op::Plus, arith::ZERO, arith::ONE), 1)
    &&& forall|z: u64, n: nat| #[trigger] step_count(k, z, n)
    &&& forall|y: u64, z: u64, m: nat, n: nat| #[trigger] step_pool(k, y, z, m, n)
    &&& tempered(eps) ==> forall|z: u64, n: nat, p: u64, q: u64| #[trigger]
        step_weigh(k, z, n, p, q, eps)
    &&& tempered(eps) ==> forall|y: u64, z: u64, m: nat, n: nat, p: u64, q: u64| #[trigger]
        step_rebase(k, y, z, m, n, p, q, eps)
}

/// A row with this score carries weight.
pub open spec fn weighs(s: u64, eps: Eps) -> bool {
    eps.uniform() || s != bits::NEG_INF
}

/// An accumulator of at most `n` rows that either holds nothing or whose
/// sum of weights and anchor are those of rows.
pub open spec fn proper(k: arith::Calc, a: Acc, n: nat, eps: Eps) -> bool {
    a.is_vacant() || {
        &&& exists|m: nat| m <= n && #[trigger] counts_to(k, a.z, m)
        &&& tempered(eps) ==> bits::finite(a.mu) || a.mu == bits::POS_INF
    }
}

/// A larger bound does no harm.
pub proof fn lemma_proper_grows(k: arith::Calc, a: Acc, m: nat, n: nat, eps: Eps)
    requires
        proper(k, a, m, eps),
        m <= n,
    ensures
        proper(k, a, n, eps),
{
    if !a.is_vacant() {
        let x = choose|x: nat| x <= m && #[trigger] counts_to(k, a.z, x);
        assert(x <= n && counts_to(k, a.z, x));
    }
}

/// Coverage, and bounds on the sum of weights, of a list of rows.
pub proof fn lemma_covered(k: arith::Calc, d: nat, rows: Seq<(u64, Seq<u64>)>, eps: Eps)
    requires
        keeps_count(k, eps),
        scored(rows),
        rows.len() <= countable(),
    ensures
        (forall|i: int| 0 <= i < rows.len() ==> !weighs((#[trigger] rows[i]).0, eps)) ==> folded(
            k,
            d,
            rows,
            eps,
        ) == vacant(d),
        (exists|i: int| 0 <= i < rows.len() && weighs((#[trigger] rows[i]).0, eps)) ==> !folded(
            k,
            d,
            rows,
            eps,
        ).is_vacant(),
        proper(k, folded(k, d, rows, eps), rows.len(), eps),
    decreases rows.len(),
{
    if rows.len() > 0 {
        let rest = rows.drop_last();
        assert forall|i: int| 0 <= i < rest.len() implies !bits::nan((#[trigger] rest[i]).0) by {
            assert(rest[i] == rows[i]);
        }
        lemma_covered(k, d, rest, eps);
        let a = folded(k, d, rest, eps);
        let b = folded(k, d, rows, eps);
        let last = rows[rows.len() - 1];
        assert(last == rows.last());
        assert(!bits::nan(last.0));
        let some = exists|i: int| 0 <= i < rest.len() && weighs((#[trigger] rest[i]).0, eps);
        if some {
            let j = choose|i: int| 0 <= i < rest.len() && weighs((#[trigger] rest[i]).0, eps);
            assert(rows[j] == rest[j]);
            let n = choose|m: nat| m <= rest.len() && #[trigger] counts_to(k, a.z, m);
            assert(counts_to(k, a.z, n));
            lemma_absorb_counts(k, a, n, last.0, last.1, eps);
            if counts_to(k, b.z, 1) {
            } else if counts_to(k, b.z, n + 1) {
            } else {
                assert(counts_to(k, b.z, n));
            }
        } else {
            assert(a == vacant(d));
            if weighs(last.0, eps) {
                assert(bits::magnitude(last.0) <= bits::POS_INF);
                assert(eps.tropical() ==> bits::num_lt(bits::NEG_INF, last.0));
                assert(counts_to(k, b.z, 1));
                assert(weighs(rows[rows.len() - 1].0, eps));
            } else {
                assert(b == a);
                assert forall|i: int| 0 <= i < rows.len() implies !weighs(
                    (#[trigger] rows[i]).0,
                    eps,
                ) by {
                    if i < rest.len() {
                        assert(rest[i] == rows[i]);
                    }
                }
            }
        }
        if forall|i: int| 0 <= i < rows.len() ==> !weighs((#[trigger] rows[i]).0, eps) {
            assert forall|i: int| 0 <= i < rest.len() implies !weighs((#[trigger] rest[i]).0, eps) by {
                assert(rest[i] == rows[i]);
            }
        }
    }
}

/// Absorbing one more row keeps the sum of weights within bounds.
proof fn lemma_absorb_counts(k: arith::Calc, a: Acc, n: nat, s: u64, v: Seq<u64>, eps: Eps)
    requires
        keeps_count(k, eps),
        n < countable(),
        counts_to(k, a.z, n),
        !bits::nan(s),
        tempered(eps) ==> bits::finite(a.mu) || a.mu == bits::POS_INF,
    ensures
        ({
            let b = absorbed(k, a, s, v, eps);
            &&& counts_to(k, b.z, 1) || counts_to(k, b.z, n) || counts_to(k, b.z, n + 1)
            &&& tempered(eps) ==> bits::finite(b.mu) || b.mu == bits::POS_INF
        }),
{
    let b = absorbed(k, a, s, v, eps);
    if tempered(eps) && bits::finite(a.mu) && s != bits::NEG_INF && s != bits::POS_INF {
        assert(bits::magnitude(s) <= bits::POS_INF);
        assert(bits::finite(s));
        assert(step_weigh(k, a.z, n, a.mu, s, eps));
        assert(counts_to(k, b.z, n + 1));
    }
    assert(step_count(k, a.z, n));
}

/// Complete: a row or group is covered exactly where some row of weight was
/// absorbed.
pub proof fn covered_iff_some_row_weighs(
    k: arith::Calc,
    d: nat,
    rows: Seq<(u64, Seq<u64>)>,
    eps: Eps,
)
    requires
        keeps_count(k, eps),
        scored(rows),
        rows.len() <= countable(),
    ensures
        output(k, folded(k, d, rows, eps)) is Some <==> exists|i: int|
            0 <= i < rows.len() && weighs((#[trigger] rows[i]).0, eps),
{
    lemma_covered(k, d, rows, eps);
}

/// A merge holds weight exactly where either side does.
pub proof fn merge_is_covered_iff_a_side_is(
    k: arith::Calc,
    a: Acc,
    b: Acc,
    m: nat,
    n: nat,
    eps: Eps,
)
    requires
        keeps_count(k, eps),
        proper(k, a, m, eps),
        proper(k, b, n, eps),
        m + n <= countable(),
    ensures
        merged(k, a, b, eps).is_vacant() <==> a.is_vacant() && b.is_vacant(),
        proper(k, merged(k, a, b, eps), m + n, eps),
{
    let c = merged(k, a, b, eps);
    if a.is_vacant() && !b.is_vacant() {
        let y = choose|y: nat| y <= n && #[trigger] counts_to(k, b.z, y);
        assert(counts_to(k, c.z, y));
    } else if b.is_vacant() && !a.is_vacant() {
        let x = choose|x: nat| x <= m && #[trigger] counts_to(k, a.z, x);
        assert(counts_to(k, c.z, x));
    } else if !a.is_vacant() && !b.is_vacant() {
        let x = choose|x: nat| x <= m && #[trigger] counts_to(k, a.z, x);
        let y = choose|y: nat| y <= n && #[trigger] counts_to(k, b.z, y);
        assert(counts_to(k, a.z, x) && counts_to(k, b.z, y));
        assert(step_pool(k, a.z, b.z, x, y));
        if tempered(eps) && bits::finite(a.mu) && bits::finite(b.mu) {
            assert(step_rebase(k, a.z, b.z, x, y, a.mu, b.mu, eps));
            assert(counts_to(k, c.z, x + y));
        }
        if counts_to(k, c.z, x + y) {
        } else if counts_to(k, c.z, x) {
        } else {
            assert(counts_to(k, c.z, y));
        }
    }
}

} // verus!
