//! The accumulator as a commutative monoid: what its arithmetic has to
//! satisfy on the numbers that occur, and what follows. Floating-point
//! arithmetic satisfies it where no sum or product of those numbers rounds:
//! for one, where the values are whole numbers, none of them negative, whose
//! sums stay small, and the weights are zero or one.

use vstd::prelude::*;

use crate::arith;
use crate::arith::Op;
use crate::bits;
use crate::distributed;
use crate::fold;
use crate::fold::Acc;
use crate::types::Eps;

verus! {

/// The numbers that occur.
pub struct Range {
    /// `sums(n, x)`: the number `x` can come about as a sum over `n` rows.
    pub sums: spec_fn(nat, u64) -> bool,
    /// The scores that are weighed: finite ones, and in the uniform limit
    /// infinite ones too.
    pub scores: Set<u64>,
    /// How many rows there are at most.
    pub rows: nat,
}

impl Range {
    /// `x` can come about as a sum over `n` rows.
    pub open spec fn has(self, n: nat, x: u64) -> bool {
        n <= self.rows && (self.sums)(n, x)
    }

    /// Scores that occur, `p` no larger than `m`.
    pub open spec fn upward(self, p: u64, m: u64) -> bool {
        &&& self.scores.contains(p) && self.scores.contains(m)
        &&& !bits::nan(p) && !bits::nan(m)
        &&& bits::rank(p) <= bits::rank(m)
    }
}

/// A sum over few rows is one over more.
pub open spec fn grows(g: Range, i: nat, j: nat, a: u64) -> bool {
    g.has(i, a) && i <= j <= g.rows ==> g.has(j, a)
}

/// `a + b == b + a`, and the sum occurs.
pub open spec fn swaps(k: arith::Calc, g: Range, i: nat, j: nat, a: u64, b: u64) -> bool {
    g.has(i, a) && g.has(j, b) && i + j <= g.rows ==> k(Op::Plus, a, b) == k(Op::Plus, b, a)
        && g.has(i + j, k(Op::Plus, a, b))
}

/// `(a + b) + c == a + (b + c)`.
pub open spec fn regroups(
    k: arith::Calc,
    g: Range,
    i: nat,
    j: nat,
    l: nat,
    a: u64,
    b: u64,
    c: u64,
) -> bool {
    g.has(i, a) && g.has(j, b) && g.has(l, c) && i + j + l <= g.rows ==> k(
        Op::Plus,
        k(Op::Plus, a, b),
        c,
    ) == k(Op::Plus, a, k(Op::Plus, b, c))
}

/// `0 + a == a`.
pub open spec fn starts(k: arith::Calc, g: Range, i: nat, a: u64) -> bool {
    g.has(i, a) ==> k(Op::Plus, arith::ZERO, a) == a
}

/// `a * 1 == a` and `1 * a == a`.
pub open spec fn unscaled(k: arith::Calc, g: Range, i: nat, a: u64) -> bool {
    g.has(i, a) ==> k(Op::Times, a, arith::ONE) == a && k(Op::Times, arith::ONE, a) == a
}

/// A weight is what one row can add.
pub open spec fn light(k: arith::Calc, g: Range, p: u64, m: u64, eps: Eps) -> bool {
    g.upward(p, m) && 1 <= g.rows ==> g.has(1, distributed::heft(k, p, m, eps))
}

/// A weight multiplies from either side, and the product occurs.
pub open spec fn turns(
    k: arith::Calc,
    g: Range,
    i: nat,
    a: u64,
    p: u64,
    m: u64,
    eps: Eps,
) -> bool {
    let w = distributed::heft(k, p, m, eps);
    g.has(i, a) && g.upward(p, m) ==> k(Op::Times, w, a) == k(Op::Times, a, w) && g.has(
        i,
        k(Op::Times, a, w),
    )
}

/// A weight multiplies a sum term by term.
pub open spec fn spreads(
    k: arith::Calc,
    g: Range,
    i: nat,
    j: nat,
    a: u64,
    b: u64,
    p: u64,
    m: u64,
    eps: Eps,
) -> bool {
    let w = distributed::heft(k, p, m, eps);
    g.has(i, a) && g.has(j, b) && i + j <= g.rows && g.upward(p, m) ==> k(
        Op::Times,
        k(Op::Plus, a, b),
        w,
    ) == k(Op::Plus, k(Op::Times, a, w), k(Op::Times, b, w))
}

/// Moving a term from anchor to anchor is moving it at once.
pub open spec fn chains(
    k: arith::Calc,
    g: Range,
    i: nat,
    a: u64,
    p: u64,
    m: u64,
    t: u64,
    eps: Eps,
) -> bool {
    g.has(i, a) && g.upward(p, m) && g.upward(m, t) ==> k(
        Op::Times,
        k(Op::Times, a, distributed::heft(k, p, m, eps)),
        distributed::heft(k, m, t, eps),
    ) == k(Op::Times, a, distributed::heft(k, p, t, eps))
}

/// Equal numbers give equal weights, whichever zero they are.
pub open spec fn blind(k: arith::Calc, g: Range, p: u64, m: u64, n: u64, eps: Eps) -> bool {
    g.scores.contains(p) && g.scores.contains(m) && g.scores.contains(n) && bits::num_eq(m, n)
        ==> distributed::heft(k, p, m, eps) == distributed::heft(k, p, n, eps) && distributed::heft(k, m, p, eps) == distributed::heft(k, n, p, eps)
}

/// Every score that occurs can be weighed.
pub open spec fn weighable(g: Range, eps: Eps) -> bool {
    forall|s: u64| #[trigger]
        g.scores.contains(s) ==> !bits::nan(s) && (bits::finite(s) || eps.uniform())
}

/// Sums of numbers that occur regroup and swap without rounding.
pub open spec fn adds_exactly(k: arith::Calc, g: Range) -> bool {
    &&& g.has(0, arith::ZERO)
    &&& 1 <= g.rows ==> g.has(1, arith::ONE)
    &&& forall|i: nat, j: nat, a: u64| #[trigger] grows(g, i, j, a)
    &&& forall|i: nat, j: nat, a: u64, b: u64| #[trigger] swaps(k, g, i, j, a, b)
    &&& forall|i: nat, j: nat, l: nat, a: u64, b: u64, c: u64| #[trigger]
        regroups(k, g, i, j, l, a, b, c)
    &&& forall|i: nat, a: u64| #[trigger] starts(k, g, i, a)
}

/// Weights of scores that occur compose without rounding.
pub open spec fn weighs_exactly(k: arith::Calc, g: Range, eps: Eps) -> bool {
    &&& forall|i: nat, a: u64| #[trigger] unscaled(k, g, i, a)
    &&& forall|p: u64, m: u64| #[trigger] light(k, g, p, m, eps)
    &&& forall|i: nat, a: u64, p: u64, m: u64| #[trigger] turns(k, g, i, a, p, m, eps)
    &&& forall|i: nat, j: nat, a: u64, b: u64, p: u64, m: u64| #[trigger]
        spreads(k, g, i, j, a, b, p, m, eps)
    &&& forall|i: nat, a: u64, p: u64, m: u64, t: u64| #[trigger]
        chains(k, g, i, a, p, m, t, eps)
    &&& forall|p: u64, m: u64, n: u64| #[trigger] blind(k, g, p, m, n, eps)
}

/// Arithmetic that does not round at this temperature, on the numbers that
/// occur.
pub open spec fn exact(k: arith::Calc, g: Range, eps: Eps) -> bool {
    &&& g.rows <= fold::countable()
    &&& fold::keeps_count(k, eps)
    &&& adds_exactly(k, g)
    &&& fold::tempered(eps) ==> weighs_exactly(k, g, eps)
}

/// A row of width `d` whose numbers occur.
pub open spec fn row_fits(r: (u64, Seq<u64>), d: nat, g: Range) -> bool {
    &&& !bits::nan(r.0)
    &&& bits::finite(r.0) ==> g.scores.contains(r.0)
    &&& r.1.len() == d
    &&& 1 <= g.rows ==> forall|c: int| 0 <= c < d ==> g.has(1, #[trigger] r.1[c])
}

/// Every row has a score that is a number, values of width `d`, and numbers
/// that occur.
pub open spec fn rows_fit(rows: Seq<(u64, Seq<u64>)>, d: nat, g: Range) -> bool {
    forall|i: int| 0 <= i < rows.len() ==> row_fits(#[trigger] rows[i], d, g)
}

/// An accumulator as `n` rows leave it: it holds nothing, or weight under an
/// anchor that fits the temperature; and its numbers occur.
spec fn held(a: Acc, d: nat, n: nat, g: Range, eps: Eps) -> bool {
    &&& a.u.len() == d
    &&& a.is_vacant() ==> a == fold::vacant(d)
    &&& !bits::nan(a.mu)
    &&& eps.uniform() ==> a.mu == bits::NEG_INF
    &&& !eps.uniform() && !a.is_vacant() ==> a.mu != bits::NEG_INF
    &&& bits::finite(a.mu) ==> g.scores.contains(a.mu)
    &&& g.has(n, a.z)
    &&& forall|c: int| 0 <= c < d ==> g.has(n, #[trigger] a.u[c])
}

/// An accumulator of fewer rows.
proof fn lemma_held_grows(k: arith::Calc, a: Acc, d: nat, m: nat, n: nat, g: Range, eps: Eps)
    requires
        adds_exactly(k, g),
        held(a, d, m, g, eps),
        m <= n <= g.rows,
    ensures
        held(a, d, n, g, eps),
{
    assert(grows(g, m, n, a.z));
    assert forall|c: int| 0 <= c < d implies g.has(n, #[trigger] a.u[c]) by {
        assert(grows(g, m, n, a.u[c]));
    }
}

/// What one more row leaves behind occurs.
proof fn lemma_absorbed_occurs(
    k: arith::Calc,
    a: Acc,
    n: nat,
    r: (u64, Seq<u64>),
    d: nat,
    g: Range,
    eps: Eps,
)
    requires
        exact(k, g, eps),
        held(a, d, n, g, eps),
        n < g.rows,
        row_fits(r, d, g),
    ensures
        ({
            let b = fold::absorbed(k, a, r.0, r.1, eps);
            &&& g.has(n + 1, b.z)
            &&& forall|c: int| 0 <= c < d ==> g.has(n + 1, #[trigger] b.u[c])
            &&& bits::finite(b.mu) ==> g.scores.contains(b.mu)
        }),
{
    let (s, v) = r;
    let b = fold::absorbed(k, a, s, v, eps);
    let m = arith::larger(a.mu, s);
    lemma_held_grows(k, a, d, n, n + 1, g, eps);
    assert(grows(g, 1, n + 1, arith::ONE));
    assert(swaps(k, g, n, 1, a.z, arith::ONE));
    let weighed = fold::tempered(eps) && bits::finite(s) && bits::finite(a.mu);
    let (p, q) = (arith::weight(k, a.mu, m, eps.0), arith::weight(k, s, m, eps.0));
    if weighed {
        assert(turns(k, g, n, a.z, a.mu, m, eps));
        assert(light(k, g, s, m, eps));
        assert(swaps(k, g, n, 1, k(Op::Times, a.z, p), q));
    }
    assert forall|c: int| 0 <= c < d implies g.has(n + 1, #[trigger] b.u[c]) by {
        assert(g.has(1, v[c]));
        assert(g.has(n, a.u[c]));
        assert(g.has(n + 1, a.u[c]));
        assert(grows(g, 1, n + 1, v[c]));
        assert(swaps(k, g, n, 1, a.u[c], v[c]));
        if weighed {
            assert(turns(k, g, n, a.u[c], a.mu, m, eps));
            assert(turns(k, g, 1, v[c], s, m, eps));
            assert(swaps(k, g, n, 1, k(Op::Times, a.u[c], p), k(Op::Times, v[c], q)));
        }
    }
}

proof fn lemma_held(k: arith::Calc, d: nat, rows: Seq<(u64, Seq<u64>)>, g: Range, eps: Eps)
    requires
        exact(k, g, eps),
        rows_fit(rows, d, g),
        rows.len() <= g.rows,
    ensures
        held(fold::folded(k, d, rows, eps), d, rows.len(), g, eps),
        fold::proper(k, fold::folded(k, d, rows, eps), rows.len(), eps),
    decreases rows.len(),
{
    assert forall|i: int| 0 <= i < rows.len() implies !bits::nan((#[trigger] rows[i]).0)
        && rows[i].1.len() == d by {
        assert(row_fits(rows[i], d, g));
    }
    fold::lemma_covered(k, d, rows, eps);
    fold::lemma_width(k, d, rows, eps);
    if rows.len() > 0 {
        let rest = rows.drop_last();
        assert forall|i: int| 0 <= i < rest.len() implies row_fits(#[trigger] rest[i], d, g) by {
            assert(rest[i] == rows[i]);
        }
        lemma_held(k, d, rest, g, eps);
        assert(rows.last() == rows[rows.len() - 1]);
        assert(row_fits(rows[rows.len() - 1], d, g));
        let a = fold::folded(k, d, rest, eps);
        assert(fold::folded(k, d, rows, eps) == fold::absorbed(
            k,
            a,
            rows.last().0,
            rows.last().1,
            eps,
        ));
        lemma_absorbed_occurs(k, a, rest.len(), rows.last(), d, g, eps);
    }
}

proof fn lemma_larger(a: u64, b: u64, c: u64)
    requires
        !bits::nan(a),
        !bits::nan(b),
        !bits::nan(c),
    ensures
        arith::larger(arith::larger(a, b), c) == arith::larger(a, arith::larger(b, c)),
{
}

/// One cell of a merge followed by an absorbed row, and of the row absorbed
/// first.
proof fn lemma_cell(
    k: arith::Calc,
    g: Range,
    i: nat,
    j: nat,
    a: u64,
    b: u64,
    y: u64,
    p: u64,
    q: u64,
    s: u64,
    eps: Eps,
)
    requires
        exact(k, g, eps),
        fold::tempered(eps),
        g.has(i, a),
        g.has(j, b),
        g.has(1, y),
        i + j + 1 <= g.rows,
        g.upward(p, p),
        g.upward(q, q),
        g.upward(s, s),
    ensures
        ({
            let m = arith::larger(p, q);
            let n = arith::larger(q, s);
            let t = arith::larger(m, s);
            let one = k(
                Op::Plus,
                k(Op::Times, a, arith::weight(k, p, m, eps.0)),
                k(Op::Times, b, arith::weight(k, q, m, eps.0)),
            );
            let two = k(
                Op::Plus,
                k(Op::Times, b, arith::weight(k, q, n, eps.0)),
                k(Op::Times, y, arith::weight(k, s, n, eps.0)),
            );
            k(
                Op::Plus,
                k(Op::Times, one, arith::weight(k, m, t, eps.0)),
                k(Op::Times, y, arith::weight(k, s, t, eps.0)),
            ) == k(
                Op::Plus,
                k(Op::Times, a, arith::weight(k, p, t, eps.0)),
                k(Op::Times, two, arith::weight(k, n, t, eps.0)),
            )
        }),
{
    let m = arith::larger(p, q);
    let n = arith::larger(q, s);
    let t = arith::larger(m, s);
    lemma_larger(p, q, s);
    let am = k(Op::Times, a, arith::weight(k, p, m, eps.0));
    let bm = k(Op::Times, b, arith::weight(k, q, m, eps.0));
    let bn = k(Op::Times, b, arith::weight(k, q, n, eps.0));
    let yn = k(Op::Times, y, arith::weight(k, s, n, eps.0));
    assert(turns(k, g, i, a, p, m, eps));
    assert(turns(k, g, j, b, q, m, eps));
    assert(turns(k, g, j, b, q, n, eps));
    assert(turns(k, g, 1, y, s, n, eps));
    assert(turns(k, g, i, a, p, t, eps));
    assert(turns(k, g, j, b, q, t, eps));
    assert(turns(k, g, 1, y, s, t, eps));
    assert(spreads(k, g, i, j, am, bm, m, t, eps));
    assert(spreads(k, g, j, 1, bn, yn, n, t, eps));
    assert(chains(k, g, i, a, p, m, t, eps));
    assert(chains(k, g, j, b, q, m, t, eps));
    assert(chains(k, g, j, b, q, n, t, eps));
    assert(chains(k, g, 1, y, s, n, t, eps));
    assert(regroups(
        k,
        g,
        i,
        j,
        1,
        k(Op::Times, a, arith::weight(k, p, t, eps.0)),
        k(Op::Times, b, arith::weight(k, q, t, eps.0)),
        k(Op::Times, y, arith::weight(k, s, t, eps.0)),
    ));
}

/// Absorbing a row after a merge is absorbing it before.
proof fn lemma_absorb_merged(
    k: arith::Calc,
    a: Acc,
    b: Acc,
    m: nat,
    n: nat,
    s: u64,
    v: Seq<u64>,
    d: nat,
    g: Range,
    eps: Eps,
)
    requires
        exact(k, g, eps),
        held(a, d, m, g, eps),
        held(b, d, n, g, eps),
        held(fold::absorbed(k, b, s, v, eps), d, n + 1, g, eps),
        fold::proper(k, a, m, eps),
        fold::proper(k, b, n, eps),
        m + n < g.rows,
        row_fits((s, v), d, g),
        fold::weighs(s, eps) ==> !fold::absorbed(k, b, s, v, eps).is_vacant(),
    ensures
        fold::absorbed(k, fold::merged(k, a, b, eps), s, v, eps) == fold::merged(
            k,
            a,
            fold::absorbed(k, b, s, v, eps),
            eps,
        ),
{
    let ab = fold::merged(k, a, b, eps);
    let br = fold::absorbed(k, b, s, v, eps);
    let left = fold::absorbed(k, ab, s, v, eps);
    let right = fold::merged(k, a, br, eps);
    fold::merge_is_covered_iff_a_side_is(k, a, b, m, n, eps);
    if !fold::weighs(s, eps) || a.is_vacant() {
        // nothing is added, or nothing was there
    } else if eps.uniform() {
        lemma_sums(k, a, b, m, n, v, d, g);
        assert(left.u =~= right.u);
    } else if eps.tropical() {
        assert(bits::magnitude(s) <= bits::POS_INF);
        assert(bits::num_lt(bits::NEG_INF, s));
        lemma_sums(k, a, b, m, n, v, d, g);
        assert(left.u =~= right.u);
    } else if s == bits::POS_INF || a.mu == bits::POS_INF || b.mu == bits::POS_INF {
        lemma_sums(k, a, b, m, n, v, d, g);
        assert(left.u =~= right.u);
    } else if b.is_vacant() {
        let t = arith::larger(a.mu, s);
        assert(br == fold::single(s, v));
        assert(light(k, g, s, t, eps));
        assert(unscaled(k, g, 1, arith::weight(k, s, t, eps.0)));
        assert forall|c: int| 0 <= c < d implies left.u[c] == right.u[c] by {
            assert(g.has(1, v[c]));
            assert(turns(k, g, 1, v[c], s, t, eps));
        }
        assert(left.u =~= right.u);
    } else {
        let t = arith::larger(ab.mu, s);
        let x = arith::larger(b.mu, s);
        assert(bits::magnitude(s) <= bits::POS_INF);
        lemma_larger(a.mu, b.mu, s);
        lemma_cell(k, g, m, n, a.z, b.z, arith::ONE, a.mu, b.mu, s, eps);
        assert(light(k, g, s, t, eps));
        assert(light(k, g, s, x, eps));
        assert(unscaled(k, g, 1, arith::weight(k, s, t, eps.0)));
        assert(unscaled(k, g, 1, arith::weight(k, s, x, eps.0)));
        assert(left.z == right.z);
        assert forall|c: int| 0 <= c < d implies left.u[c] == right.u[c] by {
            assert(g.has(m, a.u[c]) && g.has(n, b.u[c]) && g.has(1, v[c]));
            lemma_cell(k, g, m, n, a.u[c], b.u[c], v[c], a.mu, b.mu, s, eps);
            assert(turns(k, g, 1, v[c], s, t, eps));
            assert(turns(k, g, 1, v[c], s, x, eps));
        }
        assert(left.u =~= right.u);
    }
}

/// Counting a row after pooling is counting it before.
proof fn lemma_sums(
    k: arith::Calc,
    a: Acc,
    b: Acc,
    m: nat,
    n: nat,
    v: Seq<u64>,
    d: nat,
    g: Range,
)
    requires
        adds_exactly(k, g),
        a.u.len() == d,
        b.u.len() == d,
        v.len() == d,
        m + n < g.rows,
        g.has(m, a.z),
        g.has(n, b.z),
        forall|c: int| 0 <= c < d ==> g.has(m, #[trigger] a.u[c]),
        forall|c: int| 0 <= c < d ==> g.has(n, #[trigger] b.u[c]),
        forall|c: int| 0 <= c < d ==> g.has(1, #[trigger] v[c]),
    ensures
        fold::counted(k, fold::pooled(k, a, b), v).z == fold::pooled(k, a, fold::counted(k, b, v)).z,
        fold::counted(k, fold::pooled(k, a, b), v).u == fold::pooled(k, a, fold::counted(k, b, v)).u,
        b == fold::vacant(d) ==> fold::counted(k, b, v).z == arith::ONE && fold::counted(
            k,
            b,
            v,
        ).u == v,
{
    assert(regroups(k, g, m, n, 1, a.z, b.z, arith::ONE));
    assert(starts(k, g, 1, arith::ONE));
    let x = fold::counted(k, fold::pooled(k, a, b), v);
    let y = fold::pooled(k, a, fold::counted(k, b, v));
    assert forall|c: int| 0 <= c < d implies x.u[c] == y.u[c] by {
        assert(g.has(m, a.u[c]) && g.has(n, b.u[c]) && g.has(1, v[c]));
        assert(regroups(k, g, m, n, 1, a.u[c], b.u[c], v[c]));
    }
    assert(x.u =~= y.u);
    if b == fold::vacant(d) {
        assert forall|c: int| 0 <= c < d implies fold::counted(k, b, v).u[c] == v[c] by {
            assert(g.has(1, v[c]));
            assert(starts(k, g, 1, v[c]));
        }
        assert(fold::counted(k, b, v).u =~= v);
    }
}

/// Folding two lists of rows one after the other is folding each and merging
/// the two, in exact arithmetic.
pub proof fn merge_adds_row_sets(
    k: arith::Calc,
    d: nat,
    xs: Seq<(u64, Seq<u64>)>,
    ys: Seq<(u64, Seq<u64>)>,
    g: Range,
    eps: Eps,
)
    requires
        exact(k, g, eps),
        rows_fit(xs, d, g),
        rows_fit(ys, d, g),
        xs.len() + ys.len() <= g.rows,
    ensures
        fold::folded(k, d, xs + ys, eps) == fold::merged(
            k,
            fold::folded(k, d, xs, eps),
            fold::folded(k, d, ys, eps),
            eps,
        ),
    decreases ys.len(),
{
    lemma_held(k, d, xs, g, eps);
    if ys.len() == 0 {
        assert(xs + ys =~= xs);
    } else {
        let rest = ys.drop_last();
        let (s, v) = ys.last();
        assert(ys.last() == ys[ys.len() - 1]);
        assert(row_fits(ys[ys.len() - 1], d, g));
        assert forall|i: int| 0 <= i < rest.len() implies row_fits(#[trigger] rest[i], d, g) by {
            assert(rest[i] == ys[i]);
        }
        assert forall|i: int| 0 <= i < ys.len() implies !bits::nan((#[trigger] ys[i]).0) by {
            assert(row_fits(ys[i], d, g));
        }
        merge_adds_row_sets(k, d, xs, rest, g, eps);
        lemma_held(k, d, rest, g, eps);
        lemma_held(k, d, ys, g, eps);
        fold::lemma_covered(k, d, ys, eps);
        assert((xs + ys).drop_last() =~= xs + rest);
        assert((xs + ys).last() == ys.last());
        lemma_absorb_merged(
            k,
            fold::folded(k, d, xs, eps),
            fold::folded(k, d, rest, eps),
            xs.len(),
            rest.len(),
            s,
            v,
            d,
            g,
            eps,
        );
    }
}

/// Two accumulators of the same weight and values under the same anchor,
/// whichever zero that is.
pub open spec fn same(a: Acc, b: Acc) -> bool {
    &&& a.z == b.z
    &&& a.u == b.u
    &&& a.mu == b.mu || bits::num_eq(a.mu, b.mu)
}

/// Anchors that are equal numbers give equal weights.
proof fn lemma_blind(k: arith::Calc, g: Range, p: u64, q: u64, m: u64, n: u64, eps: Eps)
    requires
        exact(k, g, eps),
        fold::tempered(eps),
        g.scores.contains(p) && g.scores.contains(q),
        g.scores.contains(m) && g.scores.contains(n),
        p == q || bits::num_eq(p, q),
        m == n || bits::num_eq(m, n),
    ensures
        arith::weight(k, p, m, eps.0) == arith::weight(k, q, n, eps.0),
{
    assert(blind(k, g, m, p, q, eps));
    assert(blind(k, g, q, m, n, eps));
}

proof fn lemma_merge_swaps(
    k: arith::Calc,
    a: Acc,
    b: Acc,
    d: nat,
    i: nat,
    j: nat,
    g: Range,
    eps: Eps,
)
    requires
        exact(k, g, eps),
        held(a, d, i, g, eps),
        held(b, d, j, g, eps),
        i + j <= g.rows,
    ensures
        same(fold::merged(k, a, b, eps), fold::merged(k, b, a, eps)),
{
    let x = fold::merged(k, a, b, eps);
    let y = fold::merged(k, b, a, eps);
    if !a.is_vacant() && !b.is_vacant() {
        assert(swaps(k, g, i, j, a.z, b.z));
        assert forall|c: int| 0 <= c < d implies #[trigger] k(Op::Plus, a.u[c], b.u[c]) == k(
            Op::Plus,
            b.u[c],
            a.u[c],
        ) by {
            assert(swaps(k, g, i, j, a.u[c], b.u[c]));
        }
        if fold::tempered(eps) && a.mu != bits::POS_INF && b.mu != bits::POS_INF {
            let m = arith::larger(a.mu, b.mu);
            let n = arith::larger(b.mu, a.mu);
            lemma_blind(k, g, a.mu, a.mu, m, n, eps);
            lemma_blind(k, g, b.mu, b.mu, m, n, eps);
            let p = arith::weight(k, a.mu, m, eps.0);
            let q = arith::weight(k, b.mu, m, eps.0);
            assert(turns(k, g, i, a.z, a.mu, m, eps));
            assert(turns(k, g, j, b.z, b.mu, m, eps));
            assert(swaps(k, g, i, j, k(Op::Times, a.z, p), k(Op::Times, b.z, q)));
            assert forall|c: int| 0 <= c < d implies x.u[c] == y.u[c] by {
                assert(g.has(i, a.u[c]) && g.has(j, b.u[c]));
                assert(turns(k, g, i, a.u[c], a.mu, m, eps));
                assert(turns(k, g, j, b.u[c], b.mu, m, eps));
                assert(swaps(k, g, i, j, k(Op::Times, a.u[c], p), k(Op::Times, b.u[c], q)));
            }
        }
        assert(x.u =~= y.u);
    }
}

proof fn lemma_merge_congruent(
    k: arith::Calc,
    a: Acc,
    b: Acc,
    c: Acc,
    d: nat,
    i: nat,
    j: nat,
    g: Range,
    eps: Eps,
)
    requires
        exact(k, g, eps),
        held(a, d, i, g, eps),
        held(b, d, j, g, eps),
        held(c, d, j, g, eps),
        same(b, c),
    ensures
        same(fold::merged(k, a, b, eps), fold::merged(k, a, c, eps)),
{
    let x = fold::merged(k, a, b, eps);
    let y = fold::merged(k, a, c, eps);
    if fold::tempered(eps) && bits::finite(a.mu) && bits::finite(b.mu) {
        let m = arith::larger(a.mu, b.mu);
        let n = arith::larger(a.mu, c.mu);
        lemma_blind(k, g, a.mu, a.mu, m, n, eps);
        lemma_blind(k, g, b.mu, c.mu, m, n, eps);
    }
    assert(x.u =~= y.u);
}

proof fn lemma_absorb_congruent(
    k: arith::Calc,
    a: Acc,
    b: Acc,
    s: u64,
    v: Seq<u64>,
    d: nat,
    i: nat,
    g: Range,
    eps: Eps,
)
    requires
        exact(k, g, eps),
        held(a, d, i, g, eps),
        held(b, d, i, g, eps),
        same(a, b),
        row_fits((s, v), d, g),
    ensures
        same(fold::absorbed(k, a, s, v, eps), fold::absorbed(k, b, s, v, eps)),
{
    let x = fold::absorbed(k, a, s, v, eps);
    let y = fold::absorbed(k, b, s, v, eps);
    if fold::tempered(eps) && bits::finite(a.mu) && bits::finite(s) {
        let m = arith::larger(a.mu, s);
        let n = arith::larger(b.mu, s);
        lemma_blind(k, g, a.mu, b.mu, m, n, eps);
        lemma_blind(k, g, s, s, m, n, eps);
    }
    assert(x.u =~= y.u);
}

/// A list that fits, in parts.
proof fn lemma_rows_fit(xs: Seq<(u64, Seq<u64>)>, ys: Seq<(u64, Seq<u64>)>, d: nat, g: Range)
    requires
        forall|i: int| 0 <= i < ys.len() ==> xs.contains(#[trigger] ys[i]),
        rows_fit(xs, d, g),
    ensures
        rows_fit(ys, d, g),
{
    assert forall|i: int| 0 <= i < ys.len() implies row_fits(#[trigger] ys[i], d, g) by {
        let j = xs.index_of(ys[i]);
        assert(xs[j] == ys[i]);
    }
}

/// Moving a row to the end changes nothing.
proof fn lemma_row_moves(
    k: arith::Calc,
    d: nat,
    xs: Seq<(u64, Seq<u64>)>,
    i: int,
    g: Range,
    eps: Eps,
)
    requires
        exact(k, g, eps),
        rows_fit(xs, d, g),
        xs.len() <= g.rows,
        0 <= i < xs.len(),
    ensures
        same(fold::folded(k, d, xs, eps), fold::folded(k, d, xs.remove(i).push(xs[i]), eps)),
{
    let p = xs.take(i);
    let r = seq![xs[i]];
    let q = xs.skip(i + 1);
    lemma_rows_fit(xs, p, d, g);
    lemma_rows_fit(xs, r, d, g);
    lemma_rows_fit(xs, q, d, g);
    assert(xs =~= p + (r + q));
    assert(xs.remove(i).push(xs[i]) =~= p + (q + r));
    lemma_rows_fit(xs, r + q, d, g);
    assert forall|j: int| 0 <= j < (q + r).len() implies xs.contains(#[trigger] (q + r)[j]) by {
        if j < q.len() {
            assert(xs[i + 1 + j] == q[j]);
        }
    }
    lemma_rows_fit(xs, q + r, d, g);
    merge_adds_row_sets(k, d, p, r + q, g, eps);
    merge_adds_row_sets(k, d, p, q + r, g, eps);
    merge_adds_row_sets(k, d, r, q, g, eps);
    merge_adds_row_sets(k, d, q, r, g, eps);
    lemma_held(k, d, p, g, eps);
    lemma_held(k, d, q, g, eps);
    lemma_held(k, d, r, g, eps);
    lemma_held(k, d, r + q, g, eps);
    lemma_held(k, d, q + r, g, eps);
    let (fr, fq) = (fold::folded(k, d, r, eps), fold::folded(k, d, q, eps));
    lemma_merge_swaps(k, fr, fq, d, 1, q.len(), g, eps);
    lemma_merge_congruent(
        k,
        fold::folded(k, d, p, eps),
        fold::folded(k, d, r + q, eps),
        fold::folded(k, d, q + r, eps),
        d,
        p.len(),
        (q.len() + 1) as nat,
        g,
        eps,
    );
}

/// The order of the rows does not matter, in exact arithmetic.
pub proof fn row_order_does_not_matter(
    k: arith::Calc,
    d: nat,
    xs: Seq<(u64, Seq<u64>)>,
    ys: Seq<(u64, Seq<u64>)>,
    g: Range,
    eps: Eps,
)
    requires
        exact(k, g, eps),
        rows_fit(xs, d, g),
        xs.len() <= g.rows,
        xs.to_multiset() == ys.to_multiset(),
    ensures
        same(fold::folded(k, d, xs, eps), fold::folded(k, d, ys, eps)),
        fold::output(k, fold::folded(k, d, xs, eps)) == fold::output(
            k,
            fold::folded(k, d, ys, eps),
        ),
    decreases ys.len(),
{
    broadcast use vstd::seq_lib::group_to_multiset_ensures;

    assert(xs.to_multiset().len() == xs.len());
    assert(ys.to_multiset().len() == ys.len());
    if ys.len() == 0 {
        assert(xs =~= ys);
    } else {
        let r = ys.last();
        let rest = ys.drop_last();
        assert(ys =~= rest.push(r));
        assert(ys.to_multiset() =~= rest.to_multiset().insert(r));
        assert(ys.to_multiset().contains(r));
        assert(xs.contains(r));
        let i = xs.index_of(r);
        let less = xs.remove(i);
        assert(less.to_multiset() =~= xs.to_multiset().remove(r));
        assert(less.to_multiset() =~= rest.to_multiset());
        assert forall|j: int| 0 <= j < less.len() implies xs.contains(#[trigger] less[j]) by {
            let t = if j < i { j } else { j + 1 };
            assert(xs[t] == less[j]);
        }
        lemma_rows_fit(xs, less, d, g);
        row_order_does_not_matter(k, d, less, rest, g, eps);
        lemma_row_moves(k, d, xs, i, g, eps);
        assert forall|j: int| 0 <= j < rest.len() implies less.contains(#[trigger] rest[j]) by {
            assert(rest.contains(rest[j]));
            assert(rest.to_multiset().count(rest[j]) > 0);
        }
        lemma_rows_fit(less, rest, d, g);
        lemma_held(k, d, less, g, eps);
        lemma_held(k, d, rest, g, eps);
        assert(row_fits(xs[i], d, g));
        lemma_absorb_congruent(
            k,
            fold::folded(k, d, less, eps),
            fold::folded(k, d, rest, eps),
            r.0,
            r.1,
            d,
            less.len(),
            g,
            eps,
        );
        assert(less.push(r).drop_last() =~= less);
    }
}

} // verus!
