//! Weighted sums over records: how they split, swap and move from anchor to
//! anchor in exact arithmetic.

use vstd::prelude::*;

use crate::arith;
use crate::arith::Op;
use crate::bits;
use crate::crud;
use crate::crud::State;
use crate::distributed;
use crate::distributed::Triple;
use crate::monoid;
use crate::monoid::Range;
use crate::semiring;
use crate::tree;
use crate::types::Eps;

verus! {

/// `0 * w == 0`.
pub open spec fn stays_zero(k: arith::Calc, g: Range, p: u64, m: u64, eps: Eps) -> bool {
    g.upward(p, m) ==> k(Op::Times, arith::ZERO, distributed::heft(k, p, m, eps)) == arith::ZERO
}

/// Arithmetic in which, on the numbers that occur, sums regroup and swap and
/// weights compose, without rounding.
pub open spec fn gathers_exactly(k: arith::Calc, g: Range, eps: Eps) -> bool {
    &&& monoid::adds_exactly(k, g)
    &&& monoid::weighable(g, eps)
    &&& forall|i: nat, a: u64| #[trigger] monoid::unscaled(k, g, i, a)
    &&& !eps.tropical() ==> {
        &&& monoid::weighs_exactly(k, g, eps)
        &&& forall|p: u64, m: u64| #[trigger] stays_zero(k, g, p, m, eps)
    }
}

/// A record with a score that is weighed and a value of width `d`, whose
/// numbers occur.
pub open spec fn record_fits(r: (u64, Seq<u64>), d: nat, g: Range) -> bool {
    g.scores.contains(r.0) && monoid::row_fits(r, d, g)
}

/// Records with scores that are weighed and values of width `d`, whose
/// numbers occur.
pub open spec fn sound(e: Seq<(u64, Seq<u64>)>, d: nat, g: Range) -> bool {
    forall|i: int| 0 <= i < e.len() ==> record_fits(#[trigger] e[i], d, g)
}

/// An anchor that occurs and that no record of `e` is above.
pub open spec fn tops(m: u64, e: Seq<(u64, Seq<u64>)>, g: Range) -> bool {
    &&& g.scores.contains(m)
    &&& !bits::nan(m)
    &&& forall|i: int| 0 <= i < e.len() ==> bits::rank((#[trigger] e[i]).0) <= bits::rank(m)
}

/// Part of a list of records.
pub proof fn lemma_part(
    e: Seq<(u64, Seq<u64>)>,
    f: Seq<(u64, Seq<u64>)>,
    m: u64,
    d: nat,
    g: Range,
)
    requires
        sound(e, d, g),
        forall|i: int| 0 <= i < f.len() ==> e.contains(#[trigger] f[i]),
    ensures
        sound(f, d, g),
        tops(m, e, g) ==> tops(m, f, g),
{
    assert forall|i: int| 0 <= i < f.len() implies record_fits(#[trigger] f[i], d, g) && (tops(
        m,
        e,
        g,
    ) ==> bits::rank(f[i].0) <= bits::rank(m)) by {
        let j = e.index_of(f[i]);
        assert(e[j] == f[i]);
    }
}

/// Two states of the same sums under the same anchor, whichever zero that
/// is.
pub open spec fn agree(a: State, b: State) -> bool {
    &&& a.num == b.num
    &&& a.den == b.den
    &&& a.m == b.m || bits::num_eq(a.m, b.m)
}

/// The sum of a list, from zero, in order.
pub open spec fn total(k: arith::Calc, xs: Seq<u64>) -> u64
    decreases xs.len(),
{
    if xs.len() == 0 {
        arith::ZERO
    } else {
        k(Op::Plus, total(k, xs.drop_last()), xs.last())
    }
}

/// Numbers that one record can add.
pub open spec fn each(g: Range, xs: Seq<u64>) -> bool {
    forall|i: int| 0 <= i < xs.len() ==> g.has(1, #[trigger] xs[i])
}

/// The sum of numbers that occur occurs.
pub proof fn lemma_total_occurs(k: arith::Calc, g: Range, xs: Seq<u64>)
    requires
        monoid::adds_exactly(k, g),
        each(g, xs),
        xs.len() <= g.rows,
    ensures
        g.has(xs.len(), total(k, xs)),
    decreases xs.len(),
{
    if xs.len() > 0 {
        let less = xs.drop_last();
        assert forall|i: int| 0 <= i < less.len() implies g.has(1, #[trigger] less[i]) by {
            assert(less[i] == xs[i]);
        }
        lemma_total_occurs(k, g, less);
        assert(xs.last() == xs[xs.len() - 1]);
        assert(monoid::swaps(k, g, less.len(), 1, total(k, less), xs.last()));
    }
}

/// The sum of two lists is the sum of their sums.
pub proof fn lemma_total_add(k: arith::Calc, g: Range, a: Seq<u64>, b: Seq<u64>)
    requires
        monoid::adds_exactly(k, g),
        each(g, a),
        each(g, b),
        a.len() + b.len() <= g.rows,
    ensures
        total(k, a + b) == k(Op::Plus, total(k, a), total(k, b)),
    decreases b.len(),
{
    lemma_total_occurs(k, g, a);
    if b.len() == 0 {
        assert(a + b =~= a);
        assert(monoid::swaps(k, g, a.len(), 0, total(k, a), arith::ZERO));
        assert(monoid::starts(k, g, a.len(), total(k, a)));
    } else {
        let less = b.drop_last();
        assert forall|i: int| 0 <= i < less.len() implies g.has(1, #[trigger] less[i]) by {
            assert(less[i] == b[i]);
        }
        lemma_total_add(k, g, a, less);
        lemma_total_occurs(k, g, less);
        assert(b.last() == b[b.len() - 1]);
        assert((a + b).drop_last() =~= a + less);
        assert((a + b).last() == b.last());
        assert(monoid::regroups(
            k,
            g,
            a.len(),
            less.len(),
            1,
            total(k, a),
            total(k, less),
            b.last(),
        ));
    }
}

/// What a record adds to a sum: to component `c` of the numerator, or to the
/// denominator where `c` is negative.
pub open spec fn term(k: arith::Calc, r: (u64, Seq<u64>), w: u64, c: int) -> u64 {
    if c < 0 {
        w
    } else {
        k(Op::Times, w, r.1[c])
    }
}

/// What the records add to a sum.
pub open spec fn terms(
    k: arith::Calc,
    e: Seq<(u64, Seq<u64>)>,
    m: u64,
    c: int,
    eps: Eps,
) -> Seq<u64>
    decreases e.len(),
{
    if e.len() == 0 {
        Seq::empty()
    } else {
        let rest = terms(k, e.drop_last(), m, c, eps);
        match distributed::share(k, e.last().0, m, eps) {
            Some(w) => rest.push(term(k, e.last(), w, c)),
            None => rest,
        }
    }
}

/// What records add occurs.
pub proof fn lemma_terms_occur(
    k: arith::Calc,
    g: Range,
    e: Seq<(u64, Seq<u64>)>,
    m: u64,
    c: int,
    d: nat,
    eps: Eps,
)
    requires
        gathers_exactly(k, g, eps),
        sound(e, d, g),
        !eps.tropical() ==> tops(m, e, g),
        e.len() <= g.rows,
        c < d,
    ensures
        each(g, terms(k, e, m, c, eps)),
        terms(k, e, m, c, eps).len() <= e.len(),
    decreases e.len(),
{
    if e.len() > 0 {
        let f = e.drop_last();
        let r = e[e.len() - 1];
        assert(r == e.last());
        assert(record_fits(r, d, g));
        lemma_part(e, f, m, d, g);
        lemma_terms_occur(k, g, f, m, c, d, eps);
        let (x, y) = (terms(k, f, m, c, eps), terms(k, e, m, c, eps));
        if !eps.tropical() {
            assert(monoid::light(k, g, r.0, m, eps));
        }
        if c >= 0 {
            assert(g.has(1, r.1[c]));
            assert(monoid::unscaled(k, g, 1, r.1[c]));
            if !eps.tropical() {
                assert(monoid::turns(k, g, 1, r.1[c], r.0, m, eps));
            }
        }
        assert forall|i: int| 0 <= i < y.len() implies g.has(1, #[trigger] y[i]) by {
            if i < x.len() {
                assert(y[i] == x[i]);
            }
        }
    }
}

/// The sum of what records add occurs.
pub proof fn lemma_term_total(
    k: arith::Calc,
    g: Range,
    e: Seq<(u64, Seq<u64>)>,
    m: u64,
    c: int,
    d: nat,
    eps: Eps,
)
    requires
        gathers_exactly(k, g, eps),
        sound(e, d, g),
        !eps.tropical() ==> tops(m, e, g),
        e.len() <= g.rows,
        c < d,
    ensures
        g.has(e.len(), total(k, terms(k, e, m, c, eps))),
{
    lemma_terms_occur(k, g, e, m, c, d, eps);
    let x = terms(k, e, m, c, eps);
    lemma_total_occurs(k, g, x);
    assert(monoid::grows(g, x.len(), e.len(), total(k, x)));
}

/// What two lists of records add, one after the other.
pub proof fn lemma_terms_add(
    k: arith::Calc,
    a: Seq<(u64, Seq<u64>)>,
    b: Seq<(u64, Seq<u64>)>,
    m: u64,
    c: int,
    eps: Eps,
)
    ensures
        terms(k, a + b, m, c, eps) == terms(k, a, m, c, eps) + terms(k, b, m, c, eps),
    decreases b.len(),
{
    if b.len() == 0 {
        assert(a + b =~= a);
        assert(terms(k, a, m, c, eps) + terms(k, b, m, c, eps) =~= terms(k, a, m, c, eps));
    } else {
        lemma_terms_add(k, a, b.drop_last(), m, c, eps);
        assert((a + b).drop_last() =~= a + b.drop_last());
        assert((a + b).last() == b.last());
        assert(terms(k, a + b, m, c, eps) =~= terms(k, a, m, c, eps) + terms(k, b, m, c, eps));
    }
}

/// The sums over records under an anchor.
pub open spec fn sums(k: arith::Calc, e: Seq<(u64, Seq<u64>)>, m: u64, d: nat, eps: Eps) -> State {
    State {
        m,
        num: Seq::new(d, |c: int| total(k, terms(k, e, m, c, eps))),
        den: total(k, terms(k, e, m, -1, eps)),
    }
}

/// Sums look at no more values than there are scores.
pub proof fn lemma_summed_prefix(
    k: arith::Calc,
    s: Seq<u64>,
    v: Seq<Seq<u64>>,
    x: Seq<Seq<u64>>,
    m: u64,
    d: nat,
    eps: Eps,
)
    requires
        forall|i: int| 0 <= i < s.len() ==> v[i] == x[i],
    ensures
        distributed::summed(k, s, v, m, d, eps) == distributed::summed(k, s, x, m, d, eps),
    decreases s.len(),
{
    if s.len() > 0 {
        lemma_summed_prefix(k, s.drop_last(), v, x, m, d, eps);
        assert(v[s.len() - 1] == x[s.len() - 1]);
    }
}

/// The sums taken record by record are the sums of terms.
pub proof fn lemma_sums(k: arith::Calc, e: Seq<(u64, Seq<u64>)>, m: u64, d: nat, eps: Eps)
    ensures
        ({
            let t = distributed::summed(
                k,
                crud::scores_of(e),
                crud::values_of(e),
                m,
                d,
                eps,
            );
            &&& t.num == sums(k, e, m, d, eps).num
            &&& t.den == sums(k, e, m, d, eps).den
        }),
    decreases e.len(),
{
    let (s, v) = (crud::scores_of(e), crud::values_of(e));
    let t = distributed::summed(k, s, v, m, d, eps);
    if e.len() == 0 {
        assert(t.num =~= sums(k, e, m, d, eps).num);
    } else {
        let f = e.drop_last();
        lemma_sums(k, f, m, d, eps);
        assert(s.drop_last() =~= crud::scores_of(f));
        lemma_summed_prefix(k, crud::scores_of(f), v, crud::values_of(f), m, d, eps);
        let r = distributed::summed(k, crud::scores_of(f), crud::values_of(f), m, d, eps);
        assert(s[s.len() - 1] == e.last().0 && v[s.len() - 1] == e.last().1);
        match distributed::share(k, e.last().0, m, eps) {
            Some(w) => {
                let y = terms(k, e, m, -1, eps);
                assert(y.drop_last() =~= terms(k, f, m, -1, eps));
                assert forall|c: int| 0 <= c < d implies t.num[c] == sums(k, e, m, d, eps).num[c] by {
                    let x = terms(k, e, m, c, eps);
                    assert(x.drop_last() =~= terms(k, f, m, c, eps));
                    assert(r.num[c] == total(k, terms(k, f, m, c, eps)));
                }
            },
            None => {},
        }
        assert(t.num =~= sums(k, e, m, d, eps).num);
    }
}

/// One more record at the end.
pub proof fn lemma_sums_push(
    k: arith::Calc,
    e: Seq<(u64, Seq<u64>)>,
    r: (u64, Seq<u64>),
    m: u64,
    d: nat,
    eps: Eps,
)
    ensures
        ({
            let a = sums(k, e, m, d, eps);
            let b = sums(k, e.push(r), m, d, eps);
            match distributed::share(k, r.0, m, eps) {
                Some(w) => b.num == tree::scaled_add(k, a.num, w, r.1) && b.den == k(
                    Op::Plus,
                    a.den,
                    w,
                ),
                None => b.num == a.num && b.den == a.den,
            }
        }),
{
    let a = sums(k, e, m, d, eps);
    let b = sums(k, e.push(r), m, d, eps);
    assert(e.push(r).drop_last() =~= e);
    match distributed::share(k, r.0, m, eps) {
        Some(w) => {
            assert(terms(k, e.push(r), m, -1, eps).drop_last() =~= terms(k, e, m, -1, eps));
            assert forall|c: int| 0 <= c < d implies b.num[c] == tree::scaled_add(
                k,
                a.num,
                w,
                r.1,
            )[c] by {
                assert(terms(k, e.push(r), m, c, eps).drop_last() =~= terms(k, e, m, c, eps));
            }
            assert(b.num =~= tree::scaled_add(k, a.num, w, r.1));
        },
        None => {
            assert(b.num =~= a.num);
        },
    }
}

/// A sum does not depend on which zero its anchor is.
pub proof fn lemma_terms_blind(
    k: arith::Calc,
    g: Range,
    e: Seq<(u64, Seq<u64>)>,
    m: u64,
    n: u64,
    c: int,
    d: nat,
    eps: Eps,
)
    requires
        gathers_exactly(k, g, eps),
        sound(e, d, g),
        m == n || (bits::num_eq(m, n) && g.scores.contains(m) && g.scores.contains(n)),
    ensures
        terms(k, e, m, c, eps) == terms(k, e, n, c, eps),
    decreases e.len(),
{
    if e.len() > 0 {
        assert(record_fits(e[e.len() - 1], d, g));
        lemma_part(e, e.drop_last(), m, d, g);
        lemma_terms_blind(k, g, e.drop_last(), m, n, c, d, eps);
        if !eps.tropical() {
            assert(monoid::blind(k, g, e.last().0, m, n, eps));
        }
    }
}

/// Sums do not depend on which zero their anchor is.
pub proof fn lemma_sums_blind(
    k: arith::Calc,
    g: Range,
    e: Seq<(u64, Seq<u64>)>,
    m: u64,
    n: u64,
    d: nat,
    eps: Eps,
)
    requires
        gathers_exactly(k, g, eps),
        sound(e, d, g),
        m == n || (bits::num_eq(m, n) && g.scores.contains(m) && g.scores.contains(n)),
    ensures
        agree(sums(k, e, m, d, eps), sums(k, e, n, d, eps)),
{
    lemma_terms_blind(k, g, e, m, n, -1, d, eps);
    assert forall|c: int| 0 <= c < d implies sums(k, e, m, d, eps).num[c] == sums(
        k,
        e,
        n,
        d,
        eps,
    ).num[c] by {
        lemma_terms_blind(k, g, e, m, n, c, d, eps);
    }
    assert(sums(k, e, m, d, eps).num =~= sums(k, e, n, d, eps).num);
}

/// Moving a record to the end changes no sum.
pub proof fn lemma_total_move(
    k: arith::Calc,
    g: Range,
    e: Seq<(u64, Seq<u64>)>,
    i: int,
    m: u64,
    c: int,
    d: nat,
    eps: Eps,
)
    requires
        gathers_exactly(k, g, eps),
        sound(e, d, g),
        !eps.tropical() ==> tops(m, e, g),
        e.len() <= g.rows,
        0 <= i < e.len(),
        c < d,
    ensures
        total(k, terms(k, e, m, c, eps)) == total(
            k,
            terms(k, e.remove(i).push(e[i]), m, c, eps),
        ),
{
    let (p, r, q) = (e.take(i), seq![e[i]], e.skip(i + 1));
    assert(e =~= p + (r + q));
    assert(e.remove(i).push(e[i]) =~= p + (q + r));
    lemma_terms_add(k, p, r + q, m, c, eps);
    lemma_terms_add(k, r, q, m, c, eps);
    lemma_terms_add(k, p, q + r, m, c, eps);
    lemma_terms_add(k, q, r, m, c, eps);
    let (tp, tr, tq) = (
        terms(k, p, m, c, eps),
        terms(k, r, m, c, eps),
        terms(k, q, m, c, eps),
    );
    lemma_part(e, p, m, d, g);
    lemma_part(e, r, m, d, g);
    lemma_part(e, q, m, d, g);
    lemma_terms_occur(k, g, p, m, c, d, eps);
    lemma_terms_occur(k, g, r, m, c, d, eps);
    lemma_terms_occur(k, g, q, m, c, d, eps);
    assert forall|j: int| 0 <= j < (tq + tr).len() implies g.has(1, #[trigger] (tq + tr)[j]) by {
        if j < tq.len() {
            assert((tq + tr)[j] == tq[j]);
        } else {
            assert((tq + tr)[j] == tr[j - tq.len()]);
        }
    }
    assert forall|j: int| 0 <= j < (tr + tq).len() implies g.has(1, #[trigger] (tr + tq)[j]) by {
        if j < tr.len() {
            assert((tr + tq)[j] == tr[j]);
        } else {
            assert((tr + tq)[j] == tq[j - tr.len()]);
        }
    }
    lemma_total_add(k, g, tp, tr + tq);
    lemma_total_add(k, g, tr, tq);
    lemma_total_add(k, g, tp, tq + tr);
    lemma_total_add(k, g, tq, tr);
    lemma_total_occurs(k, g, tr);
    lemma_total_occurs(k, g, tq);
    assert(monoid::swaps(k, g, tr.len(), tq.len(), total(k, tr), total(k, tq)));
}

/// The largest score of records.
pub proof fn lemma_top(e: Seq<(u64, Seq<u64>)>, d: nat, g: Range)
    requires
        sound(e, d, g),
    ensures
        ({
            let m = semiring::peak(crud::scores_of(e));
            &&& !bits::nan(m)
            &&& e.len() == 0 ==> m == bits::NEG_INF
            &&& e.len() > 0 ==> tops(m, e, g) && exists|i: int|
                0 <= i < e.len() && (#[trigger] e[i]).0 == m
            &&& forall|i: int| 0 <= i < e.len() ==> bits::rank((#[trigger] e[i]).0) <= bits::rank(m)
        }),
    decreases e.len(),
{
    if e.len() > 0 {
        let f = e.drop_last();
        lemma_part(e, f, 0, d, g);
        lemma_top(f, d, g);
        let s = crud::scores_of(e);
        assert(s.drop_last() =~= crud::scores_of(f));
        let last = e[e.len() - 1];
        assert(record_fits(last, d, g));
        assert(s.last() == last.0);
        let (a, m) = (semiring::peak(crud::scores_of(f)), semiring::peak(s));
        assert(m == arith::larger(a, last.0));
        if f.len() > 0 && m == a {
            let j = choose|i: int| 0 <= i < f.len() && (#[trigger] f[i]).0 == a;
            assert(e[j].0 == m);
        } else {
            assert(e[e.len() - 1].0 == m);
        }
        assert forall|i: int| 0 <= i < e.len() implies bits::rank((#[trigger] e[i]).0)
            <= bits::rank(m) by {
            if i < f.len() {
                assert(f[i] == e[i]);
            }
        }
    }
}

/// Two lists of the same records have the same largest score.
pub proof fn lemma_same_top(a: Seq<(u64, Seq<u64>)>, b: Seq<(u64, Seq<u64>)>, d: nat, g: Range)
    requires
        sound(a, d, g),
        sound(b, d, g),
        a.len() == b.len(),
        forall|i: int| 0 <= i < a.len() ==> b.contains(#[trigger] a[i]),
        forall|i: int| 0 <= i < b.len() ==> a.contains(#[trigger] b[i]),
    ensures
        ({
            let (m, n) = (semiring::peak(crud::scores_of(a)), semiring::peak(crud::scores_of(b)));
            m == n || bits::num_eq(m, n)
        }),
{
    lemma_top(a, d, g);
    lemma_top(b, d, g);
    if a.len() > 0 {
        let (m, n) = (semiring::peak(crud::scores_of(a)), semiring::peak(crud::scores_of(b)));
        let i = choose|i: int| 0 <= i < a.len() && (#[trigger] a[i]).0 == m;
        let j = choose|i: int| 0 <= i < b.len() && (#[trigger] b[i]).0 == n;
        let x = b.index_of(a[i]);
        let y = a.index_of(b[j]);
        assert(b[x] == a[i] && a[y] == b[j]);
    }
}

/// Sums move from anchor to anchor.
pub proof fn lemma_rescale(
    k: arith::Calc,
    g: Range,
    e: Seq<(u64, Seq<u64>)>,
    m: u64,
    t: u64,
    c: int,
    d: nat,
    eps: Eps,
)
    requires
        gathers_exactly(k, g, eps),
        !eps.tropical(),
        sound(e, d, g),
        tops(m, e, g),
        g.upward(m, t),
        e.len() <= g.rows,
        c < d,
    ensures
        k(Op::Times, total(k, terms(k, e, m, c, eps)), distributed::heft(k, m, t, eps)) == total(
            k,
            terms(k, e, t, c, eps),
        ),
    decreases e.len(),
{
    assert(stays_zero(k, g, m, t, eps));
    if e.len() > 0 {
        let f = e.drop_last();
        let r = e[e.len() - 1];
        assert(r == e.last());
        assert(record_fits(r, d, g));
        lemma_part(e, f, m, d, g);
        lemma_rescale(k, g, f, m, t, c, d, eps);
        lemma_term_total(k, g, f, m, c, d, eps);
        lemma_terms_occur(k, g, e, m, c, d, eps);
        let (x, y) = (terms(k, e, m, c, eps), terms(k, e, t, c, eps));
        assert(x.drop_last() =~= terms(k, f, m, c, eps));
        assert(y.drop_last() =~= terms(k, f, t, c, eps));
        assert(x.last() == x[x.len() - 1]);
        assert(monoid::spreads(k, g, f.len(), 1, total(k, x.drop_last()), x.last(), m, t, eps));
        let w = distributed::heft(k, r.0, m, eps);
        let z = distributed::heft(k, r.0, t, eps);
        assert(monoid::light(k, g, r.0, m, eps));
        assert(monoid::light(k, g, r.0, t, eps));
        if c < 0 {
            assert(monoid::chains(k, g, 1, arith::ONE, r.0, m, t, eps));
            assert(monoid::unscaled(k, g, 1, w));
            assert(monoid::unscaled(k, g, 1, z));
        } else {
            assert(g.has(1, r.1[c]));
            assert(monoid::turns(k, g, 1, r.1[c], r.0, m, eps));
            assert(monoid::turns(k, g, 1, r.1[c], r.0, t, eps));
            assert(monoid::chains(k, g, 1, r.1[c], r.0, m, t, eps));
        }
    }
}

/// In the tropical limit records below the anchor add nothing.
pub proof fn lemma_below(k: arith::Calc, e: Seq<(u64, Seq<u64>)>, m: u64, c: int, eps: Eps)
    requires
        eps.tropical(),
        forall|i: int| 0 <= i < e.len() ==> !bits::num_eq((#[trigger] e[i]).0, m),
    ensures
        terms(k, e, m, c, eps).len() == 0,
    decreases e.len(),
{
    if e.len() > 0 {
        let f = e.drop_last();
        assert forall|i: int| 0 <= i < f.len() implies !bits::num_eq((#[trigger] f[i]).0, m) by {
            assert(f[i] == e[i]);
        }
        assert(e.last() == e[e.len() - 1]);
        lemma_below(k, f, m, c, eps);
    }
}

// ---------------------------------------------------- partition and reduce

/// The records of all parts, one part after the other.
pub open spec fn together(parts: Seq<Seq<(u64, Seq<u64>)>>) -> Seq<(u64, Seq<u64>)>
    decreases parts.len(),
{
    if parts.len() == 0 {
        Seq::empty()
    } else {
        together(parts.drop_last()) + parts.last()
    }
}

/// The contribution of each part.
pub open spec fn contributions(
    k: arith::Calc,
    parts: Seq<Seq<(u64, Seq<u64>)>>,
    eps: Eps,
) -> Seq<Triple> {
    Seq::new(
        parts.len(),
        |j: int|
            distributed::contribution(
                k,
                crud::scores_of(parts[j]),
                crud::values_of(parts[j]),
                eps,
            ),
    )
}

/// Parts that hold records.
pub open spec fn filled(parts: Seq<Seq<(u64, Seq<u64>)>>, d: nat, g: Range) -> bool {
    forall|j: int|
        0 <= j < parts.len() ==> (#[trigger] parts[j]).len() > 0 && sound(parts[j], d, g)
}

/// The contribution of records, over sums.
proof fn lemma_contribution(
    k: arith::Calc,
    e: Seq<(u64, Seq<u64>)>,
    d: nat,
    g: Range,
    eps: Eps,
)
    requires
        sound(e, d, g),
        monoid::weighable(g, eps),
        e.len() > 0,
        d > 0,
    ensures
        ({
            let t = distributed::contribution(k, crud::scores_of(e), crud::values_of(e), eps);
            let m = semiring::peak(crud::scores_of(e));
            &&& t.m == m
            &&& t.num == sums(k, e, m, d, eps).num
            &&& t.den == sums(k, e, m, d, eps).den
        }),
{
    lemma_top(e, d, g);
    let m = semiring::peak(crud::scores_of(e));
    lemma_sums(k, e, m, d, eps);
    assert(crud::values_of(e)[0].len() == d) by {
        assert(record_fits(e[0], d, g));
    }
    lemma_summed_anchor(k, crud::scores_of(e), crud::values_of(e), m, d, eps);
}

/// Sums keep their anchor.
proof fn lemma_summed_anchor(
    k: arith::Calc,
    s: Seq<u64>,
    v: Seq<Seq<u64>>,
    m: u64,
    d: nat,
    eps: Eps,
)
    ensures
        distributed::summed(k, s, v, m, d, eps).m == m,
    decreases s.len(),
{
    if s.len() > 0 {
        lemma_summed_anchor(k, s.drop_last(), v, m, d, eps);
    }
}

/// All records together fit.
proof fn lemma_together(parts: Seq<Seq<(u64, Seq<u64>)>>, d: nat, g: Range)
    requires
        filled(parts, d, g),
    ensures
        sound(together(parts), d, g),
        parts.len() > 0 ==> together(parts).len() > 0,
    decreases parts.len(),
{
    if parts.len() > 0 {
        let less = parts.drop_last();
        assert forall|j: int| 0 <= j < less.len() implies (#[trigger] less[j]).len() > 0 && sound(
            less[j],
            d,
            g,
        ) by {
            assert(less[j] == parts[j]);
        }
        lemma_together(less, d, g);
        let last = parts[parts.len() - 1];
        assert(last == parts.last());
        let e = together(parts);
        assert forall|i: int| 0 <= i < e.len() implies record_fits(#[trigger] e[i], d, g) by {
            let n = together(less).len();
            if i < n {
                assert(e[i] == together(less)[i]);
            } else {
                assert(e[i] == last[i - n]);
            }
        }
    }
}

/// The parts' contributions, moved to an anchor no lower than any of them,
/// add up to the sums over all records.
proof fn lemma_gathered(
    k: arith::Calc,
    parts: Seq<Seq<(u64, Seq<u64>)>>,
    m: u64,
    d: nat,
    g: Range,
    eps: Eps,
)
    requires
        gathers_exactly(k, g, eps),
        filled(parts, d, g),
        together(parts).len() <= g.rows,
        d > 0,
        g.upward(m, m),
        forall|j: int|
            0 <= j < parts.len() ==> bits::rank(
                semiring::peak(crud::scores_of(#[trigger] parts[j])),
            ) <= bits::rank(m),
    ensures
        ({
            let t = distributed::gathered(k, contributions(k, parts, eps), m, d, eps);
            &&& t.num == sums(k, together(parts), m, d, eps).num
            &&& t.den == sums(k, together(parts), m, d, eps).den
        }),
    decreases parts.len(),
{
    let p = contributions(k, parts, eps);
    let t = distributed::gathered(k, p, m, d, eps);
    let all = together(parts);
    let want = sums(k, all, m, d, eps);
    if parts.len() == 0 {
        assert(t.num =~= want.num);
    } else {
        let less = parts.drop_last();
        let e = parts[parts.len() - 1];
        assert(e == parts.last());
        assert forall|j: int| 0 <= j < less.len() implies (#[trigger] less[j]).len() > 0 && sound(
            less[j],
            d,
            g,
        ) && bits::rank(semiring::peak(crud::scores_of(less[j]))) <= bits::rank(m) by {
            assert(less[j] == parts[j]);
        }
        let head = together(less);
        lemma_together(less, d, g);
        lemma_tops(less, m, d, g);
        lemma_gathered(k, less, m, d, g, eps);
        assert(p.drop_last() =~= contributions(k, less, eps));
        lemma_contribution(k, e, d, g, eps);
        lemma_top(e, d, g);
        let q = p.last();
        let n = q.m;
        assert(tops(m, e, g));
        assert forall|c: int| -1 <= c < d implies total(k, #[trigger] terms(k, all, m, c, eps)) == k(
            Op::Plus,
            total(k, terms(k, head, m, c, eps)),
            total(k, terms(k, e, m, c, eps)),
        ) by {
            lemma_terms_add(k, head, e, m, c, eps);
            lemma_terms_occur(k, g, head, m, c, d, eps);
            lemma_terms_occur(k, g, e, m, c, d, eps);
            lemma_total_add(k, g, terms(k, head, m, c, eps), terms(k, e, m, c, eps));
        }
        let r = distributed::gathered(k, p.drop_last(), m, d, eps);
        assert(r.num.len() == d);
        if eps.tropical() {
            if bits::num_eq(n, m) {
                lemma_terms_blind(k, g, e, n, m, -1, d, eps);
                assert(want.den == k(Op::Plus, r.den, q.den)) by {
                    assert(total(k, terms(k, all, m, -1, eps)) == want.den);
                }
                assert forall|c: int| 0 <= c < d implies t.num[c] == want.num[c] by {
                    lemma_terms_blind(k, g, e, n, m, c, d, eps);
                    lemma_term_total(k, g, e, n, c, d, eps);
                    assert(monoid::unscaled(k, g, e.len(), q.num[c]));
                    assert(total(k, terms(k, all, m, c, eps)) == want.num[c]);
                }
            } else {
                assert forall|i: int| 0 <= i < e.len() implies !bits::num_eq(
                    (#[trigger] e[i]).0,
                    m,
                ) by {
                    assert(bits::rank(e[i].0) <= bits::rank(n));
                }
                lemma_below(k, e, m, -1, eps);
                lemma_term_total(k, g, head, m, -1, d, eps);
                assert(monoid::swaps(k, g, head.len(), 0, r.den, arith::ZERO));
                assert(monoid::starts(k, g, head.len(), r.den));
                assert(want.den == r.den) by {
                    assert(total(k, terms(k, all, m, -1, eps)) == want.den);
                }
                assert forall|c: int| 0 <= c < d implies t.num[c] == want.num[c] by {
                    lemma_below(k, e, m, c, eps);
                    lemma_term_total(k, g, head, m, c, d, eps);
                    assert(monoid::swaps(k, g, head.len(), 0, r.num[c], arith::ZERO));
                    assert(monoid::starts(k, g, head.len(), r.num[c]));
                    assert(total(k, terms(k, all, m, c, eps)) == want.num[c]);
                }
            }
        } else if distributed::vacant(q, eps) {
            // rows at minus infinity whose sums are nothing
            lemma_rescale(k, g, e, n, m, -1, d, eps);
            lemma_term_total(k, g, head, m, -1, d, eps);
            assert(stays_zero(k, g, n, m, eps));
            assert(monoid::swaps(k, g, head.len(), 0, r.den, arith::ZERO));
            assert(monoid::starts(k, g, head.len(), r.den));
            assert(want.den == r.den) by {
                assert(total(k, terms(k, all, m, -1, eps)) == want.den);
            }
            assert forall|c: int| 0 <= c < d implies t.num[c] == want.num[c] by {
                lemma_rescale(k, g, e, n, m, c, d, eps);
                lemma_term_total(k, g, head, m, c, d, eps);
                assert(q.num[c] == arith::ZERO);
                assert(monoid::swaps(k, g, head.len(), 0, r.num[c], arith::ZERO));
                assert(monoid::starts(k, g, head.len(), r.num[c]));
                assert(total(k, terms(k, all, m, c, eps)) == want.num[c]);
            }
        } else {
            lemma_rescale(k, g, e, n, m, -1, d, eps);
            assert(want.den == t.den) by {
                assert(total(k, terms(k, all, m, -1, eps)) == want.den);
            }
            assert forall|c: int| 0 <= c < d implies t.num[c] == want.num[c] by {
                lemma_rescale(k, g, e, n, m, c, d, eps);
                lemma_term_total(k, g, e, n, c, d, eps);
                assert(monoid::turns(k, g, e.len(), q.num[c], n, m, eps));
                assert(total(k, terms(k, all, m, c, eps)) == want.num[c]);
            }
        }
        assert(t.num =~= want.num);
    }
}

/// An anchor above the largest score of every part is above every record.
proof fn lemma_tops(parts: Seq<Seq<(u64, Seq<u64>)>>, m: u64, d: nat, g: Range)
    requires
        filled(parts, d, g),
        g.upward(m, m),
        forall|j: int|
            0 <= j < parts.len() ==> bits::rank(
                semiring::peak(crud::scores_of(#[trigger] parts[j])),
            ) <= bits::rank(m),
    ensures
        tops(m, together(parts), g),
    decreases parts.len(),
{
    if parts.len() > 0 {
        let less = parts.drop_last();
        let last = parts[parts.len() - 1];
        assert(last == parts.last());
        assert forall|j: int| 0 <= j < less.len() implies (#[trigger] less[j]).len() > 0 && sound(
            less[j],
            d,
            g,
        ) && bits::rank(semiring::peak(crud::scores_of(less[j]))) <= bits::rank(m) by {
            assert(less[j] == parts[j]);
        }
        lemma_tops(less, m, d, g);
        lemma_top(last, d, g);
        let e = together(parts);
        assert forall|i: int| 0 <= i < e.len() implies bits::rank((#[trigger] e[i]).0)
            <= bits::rank(m) by {
            let n = together(less).len();
            if i < n {
                assert(e[i] == together(less)[i]);
            } else {
                assert(e[i] == last[i - n]);
            }
        }
    }
}

/// The largest anchor of the parts is the largest score of all records.
proof fn lemma_anchor(k: arith::Calc, parts: Seq<Seq<(u64, Seq<u64>)>>, d: nat, g: Range, eps: Eps)
    requires
        filled(parts, d, g),
        monoid::weighable(g, eps),
        d > 0,
    ensures
        semiring::peak(distributed::anchors(contributions(k, parts, eps))) == semiring::peak(
            crud::scores_of(together(parts)),
        ),
        forall|j: int|
            0 <= j < parts.len() ==> bits::rank(
                semiring::peak(crud::scores_of(#[trigger] parts[j])),
            ) <= bits::rank(semiring::peak(crud::scores_of(together(parts)))),
    decreases parts.len(),
{
    if parts.len() > 0 {
        let less = parts.drop_last();
        let e = parts[parts.len() - 1];
        assert(e == parts.last());
        assert forall|j: int| 0 <= j < less.len() implies (#[trigger] less[j]).len() > 0 && sound(
            less[j],
            d,
            g,
        ) by {
            assert(less[j] == parts[j]);
        }
        lemma_anchor(k, less, d, g, eps);
        lemma_contribution(k, e, d, g, eps);
        lemma_together(less, d, g);
        lemma_top(together(less), d, g);
        lemma_top(e, d, g);
        let a = distributed::anchors(contributions(k, parts, eps));
        assert(a.drop_last() =~= distributed::anchors(contributions(k, less, eps)));
        assert(crud::scores_of(together(parts)) =~= crud::scores_of(together(less))
            + crud::scores_of(e));
        distributed::anchor_does_not_depend_on_the_partition(
            crud::scores_of(together(less)),
            crud::scores_of(e),
        );
        let m = semiring::peak(crud::scores_of(together(parts)));
        assert forall|j: int| 0 <= j < parts.len() implies bits::rank(
            semiring::peak(crud::scores_of(#[trigger] parts[j])),
        ) <= bits::rank(m) by {
            if j < less.len() {
                assert(less[j] == parts[j]);
            }
        }
    }
}

/// Partition and reduce: combining the contributions of parts gives the
/// contribution of all records, however they were cut into parts.
pub proof fn combine_is_the_contribution_of_the_whole(
    k: arith::Calc,
    parts: Seq<Seq<(u64, Seq<u64>)>>,
    d: nat,
    g: Range,
    eps: Eps,
)
    requires
        gathers_exactly(k, g, eps),
        filled(parts, d, g),
        together(parts).len() <= g.rows,
        d > 0,
        parts.len() > 0,
    ensures
        distributed::combined(k, contributions(k, parts, eps), eps) == distributed::contribution(
            k,
            crud::scores_of(together(parts)),
            crud::values_of(together(parts)),
            eps,
        ),
{
    let p = contributions(k, parts, eps);
    let all = together(parts);
    lemma_together(parts, d, g);
    lemma_top(all, d, g);
    lemma_contribution(k, all, d, g, eps);
    lemma_anchor(k, parts, d, g, eps);
    assert(parts[0].len() > 0);
    lemma_contribution(k, parts[0], d, g, eps);
    assert(p[0].num.len() == d);
    let m = semiring::peak(crud::scores_of(all));
    lemma_gathered(k, parts, m, d, g, eps);
    lemma_gathered_anchor(k, p, m, d, eps);
}

/// Gathering keeps its anchor.
proof fn lemma_gathered_anchor(k: arith::Calc, p: Seq<Triple>, m: u64, d: nat, eps: Eps)
    ensures
        distributed::gathered(k, p, m, d, eps).m == m,
    decreases p.len(),
{
    if p.len() > 0 {
        lemma_gathered_anchor(k, p.drop_last(), m, d, eps);
    }
}

} // verus!
