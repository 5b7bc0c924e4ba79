//! Exact unlearning: in exact arithmetic, whatever was inserted and deleted,
//! the maintained state is what the surviving records alone give.

use vstd::prelude::*;

use crate::arith;
use crate::arith::Op;
use crate::bits;
use crate::crud;
use crate::crud::{Memory, State};
use crate::distributed;
use crate::maps;
use crate::matrix;
use crate::monoid;
use crate::monoid::Range;
use crate::semiring;
use crate::sums;
use crate::types::Eps;

verus! {

/// What was added with weight `w` can be taken away again.
pub open spec fn undone(k: arith::Calc, rg: Range, i: nat, a: u64, v: u64, w: u64) -> bool {
    rg.has(i, a) && rg.has(1, v) && i + 1 <= rg.rows ==> {
        &&& k(Op::Minus, k(Op::Plus, a, w), w) == a
        &&& k(
            Op::Plus,
            k(Op::Plus, a, k(Op::Times, w, v)),
            k(Op::Times, bits::negated(w), v),
        ) == a
    }
}

/// What was added with the weight of a score can be taken away again.
pub open spec fn undone_at(
    k: arith::Calc,
    rg: Range,
    i: nat,
    a: u64,
    v: u64,
    p: u64,
    m: u64,
    eps: Eps,
) -> bool {
    rg.upward(p, m) ==> undone(k, rg, i, a, v, distributed::heft(k, p, m, eps))
}

/// A little less than a score that occurs is no more than it.
pub open spec fn lowers(k: arith::Calc, rg: Range, m: u64) -> bool {
    let t = k(Op::Minus, m, crud::NEAR);
    rg.scores.contains(m) ==> !bits::nan(t) && bits::rank(t) <= bits::rank(m)
}

/// Arithmetic in which, on the numbers that occur, sums regroup and swap,
/// weights compose, and what was added can be taken away again, all without
/// rounding.
pub open spec fn reversible(k: arith::Calc, rg: Range, eps: Eps) -> bool {
    &&& sums::gathers_exactly(k, rg, eps)
    &&& eps.tropical() ==> forall|i: nat, a: u64, v: u64| #[trigger]
        undone(k, rg, i, a, v, arith::ONE)
    &&& !eps.tropical() ==> {
        &&& forall|i: nat, a: u64, v: u64, p: u64, m: u64| #[trigger]
            undone_at(k, rg, i, a, v, p, m, eps)
        &&& forall|m: u64| #[trigger] lowers(k, rg, m)
    }
}

/// The state that records give, over sums.
proof fn lemma_settled(k: arith::Calc, e: Seq<(u64, Seq<u64>)>, d: nat, eps: Eps)
    ensures
        e.len() > 0 ==> crud::settled(k, e, d, eps) == sums::sums(
            k,
            e,
            semiring::peak(crud::scores_of(e)),
            d,
            eps,
        ),
{
    if e.len() > 0 {
        let m = semiring::peak(crud::scores_of(e));
        sums::lemma_sums(k, e, m, d, eps);
    }
}

/// Taking one more record in is computing over one more record.
proof fn lemma_push(
    k: arith::Calc,
    e: Seq<(u64, Seq<u64>)>,
    r: (u64, Seq<u64>),
    d: nat,
    rg: Range,
    eps: Eps,
)
    requires
        reversible(k, rg, eps),
        sums::sound(e.push(r), d, rg),
        e.len() < rg.rows,
    ensures
        crud::settled(k, e.push(r), d, eps) == crud::state_with(
            k,
            crud::settled(k, e, d, eps),
            r.0,
            r.1,
            eps,
        ),
{
    let g = e.push(r);
    let (s, v) = r;
    assert(g[e.len() as int] == r);
    assert(sums::record_fits(g[e.len() as int], d, rg));
    assert forall|i: int| 0 <= i < e.len() implies g.contains(#[trigger] e[i]) by {
        assert(g[i] == e[i]);
    }
    sums::lemma_part(g, e, 0, d, rg);
    sums::lemma_top(e, d, rg);
    lemma_settled(k, e, d, eps);
    lemma_settled(k, g, d, eps);
    assert(crud::scores_of(g).drop_last() =~= crud::scores_of(e));
    assert(crud::scores_of(g).last() == s);
    let a = crud::settled(k, e, d, eps);
    let m = semiring::peak(crud::scores_of(e));
    let t = semiring::peak(crud::scores_of(g));
    assert(t == arith::larger(m, s));
    sums::lemma_sums_push(k, e, r, t, d, eps);
    let got = crud::state_with(k, a, s, v, eps);
    if bits::num_lt(m, s) {
        assert(t == s);
        if eps.tropical() {
            assert forall|i: int| 0 <= i < e.len() implies !bits::num_eq((#[trigger] e[i]).0, s) by {
                assert(bits::rank(e[i].0) <= bits::rank(m));
            }
            sums::lemma_below(k, e, s, -1, eps);
            assert forall|c: int| 0 <= c < d implies sums::sums(k, e, s, d, eps).num[c]
                == arith::ZERO by {
                sums::lemma_below(k, e, s, c, eps);
            }
            assert(sums::sums(k, e, s, d, eps).num =~= matrix::zeros(d));
        } else if e.len() == 0 {
            assert(sums::sums(k, e, s, d, eps).num =~= matrix::zeros(d));
        } else {
            sums::lemma_rescale(k, rg, e, m, s, -1, d, eps);
            let w = distributed::heft(k, m, s, eps);
            assert forall|c: int| 0 <= c < d implies crud::times_all(k, a.num, w)[c] == sums::sums(
                k,
                e,
                s,
                d,
                eps,
            ).num[c] by {
                sums::lemma_rescale(k, rg, e, m, s, c, d, eps);
            }
            assert(crud::times_all(k, a.num, w) =~= sums::sums(k, e, s, d, eps).num);
            if !bits::finite(m) {
                // only in the uniform limit, where nothing is rescaled
                sums::lemma_term_total(k, rg, e, m, -1, d, eps);
                assert(monoid::unscaled(k, rg, e.len(), a.den));
                assert forall|c: int| 0 <= c < d implies a.num[c] == sums::sums(
                    k,
                    e,
                    s,
                    d,
                    eps,
                ).num[c] by {
                    sums::lemma_term_total(k, rg, e, m, c, d, eps);
                    assert(monoid::unscaled(k, rg, e.len(), a.num[c]));
                }
                assert(a.num =~= sums::sums(k, e, s, d, eps).num);
            }
        }
    } else {
        assert(t == m);
        if e.len() == 0 {
            assert(sums::sums(k, e, m, d, eps).num =~= matrix::zeros(d));
        }
    }
    assert(got == crud::settled(k, g, d, eps));
}

/// The anchor of a state is a score that occurs, or no score at all.
pub open spec fn anchored(a: State, rg: Range) -> bool {
    a.m == bits::NEG_INF || rg.scores.contains(a.m)
}

/// Taking a record in keeps agreement.
proof fn lemma_congruent(
    k: arith::Calc,
    a: State,
    b: State,
    s: u64,
    v: Seq<u64>,
    rg: Range,
    eps: Eps,
)
    requires
        reversible(k, rg, eps),
        sums::agree(a, b),
        rg.scores.contains(s),
        anchored(a, rg),
        anchored(b, rg),
    ensures
        sums::agree(crud::state_with(k, a, s, v, eps), crud::state_with(k, b, s, v, eps)),
{
    if !eps.tropical() && rg.scores.contains(a.m) && rg.scores.contains(b.m) {
        assert(monoid::blind(k, rg, s, a.m, b.m, eps));
    }
}

/// The anchor of what records give.
proof fn lemma_settled_anchored(
    k: arith::Calc,
    e: Seq<(u64, Seq<u64>)>,
    d: nat,
    rg: Range,
    eps: Eps,
)
    requires
        sums::sound(e, d, rg),
    ensures
        anchored(crud::settled(k, e, d, eps), rg),
{
    sums::lemma_top(e, d, rg);
}

/// Moving a record to the end keeps agreement.
proof fn lemma_move(
    k: arith::Calc,
    e: Seq<(u64, Seq<u64>)>,
    i: int,
    d: nat,
    rg: Range,
    eps: Eps,
)
    requires
        reversible(k, rg, eps),
        sums::sound(e, d, rg),
        0 <= i < e.len() <= rg.rows,
    ensures
        sums::agree(
            crud::settled(k, e, d, eps),
            crud::settled(k, e.remove(i).push(e[i]), d, eps),
        ),
        sums::sound(e.remove(i).push(e[i]), d, rg),
{
    let g = e.remove(i).push(e[i]);
    assert forall|j: int| 0 <= j < g.len() implies e.contains(#[trigger] g[j]) by {
        let t = if j < i {
            j
        } else if j < g.len() - 1 {
            j + 1
        } else {
            i
        };
        assert(e[t] == g[j]);
    }
    assert forall|j: int| 0 <= j < e.len() implies g.contains(#[trigger] e[j]) by {
        let t = if j < i {
            j
        } else if j == i {
            g.len() - 1
        } else {
            j - 1
        };
        assert(g[t] == e[j]);
    }
    sums::lemma_part(e, g, 0, d, rg);
    sums::lemma_same_top(e, g, d, rg);
    sums::lemma_top(e, d, rg);
    sums::lemma_top(g, d, rg);
    let (m, n) = (semiring::peak(crud::scores_of(e)), semiring::peak(crud::scores_of(g)));
    lemma_settled(k, e, d, eps);
    lemma_settled(k, g, d, eps);
    sums::lemma_sums_blind(k, rg, g, m, n, d, eps);
    sums::lemma_total_move(k, rg, e, i, m, -1, d, eps);
    assert forall|c: int| 0 <= c < d implies sums::sums(k, e, m, d, eps).num[c] == sums::sums(
        k,
        g,
        m,
        d,
        eps,
    ).num[c] by {
        sums::lemma_total_move(k, rg, e, i, m, c, d, eps);
    }
    assert(sums::sums(k, e, m, d, eps).num =~= sums::sums(k, g, m, d, eps).num);
}

// ---------------------------------------------------------------- listings

/// A record of width `d` that does not count at this temperature, or whose
/// score is weighed and whose numbers occur.
pub open spec fn entry_fits(r: (u64, Seq<u64>), d: nat, rg: Range, eps: Eps) -> bool {
    &&& r.1.len() == d
    &&& crud::counts(r.0, eps) ==> sums::record_fits(r, d, rg)
}

/// No more live records than rows, each of which fits, under an anchor that
/// occurs.
pub open spec fn sound_memory(a: Memory, rg: Range) -> bool {
    &&& a.live.dom().finite() && a.live.dom().len() <= rg.rows
    &&& anchored(a.state, rg)
    &&& forall|key: Seq<char>| #[trigger]
        a.live.contains_key(key) ==> entry_fits(a.live[key], a.d_v, rg, a.eps)
}

/// The state is what the live records give, whichever order they are taken
/// in.
pub open spec fn faithful(k: arith::Calc, a: Memory) -> bool {
    forall|e: Seq<(u64, Seq<u64>)>| #[trigger]
        maps::lists(a.live, e) ==> sums::agree(a.state, crud::recomputed(k, e, a.d_v, a.eps))
}

type Live = Map<Seq<char>, (u64, Seq<u64>)>;

proof fn lemma_listed_sound(
    m: Live,
    keys: Seq<Seq<char>>,
    e: Seq<(u64, Seq<u64>)>,
    d: nat,
    rg: Range,
    eps: Eps,
)
    requires
        maps::listed(m, keys, e),
        m.dom().finite(),
        forall|key: Seq<char>| #[trigger] m.contains_key(key) ==> entry_fits(m[key], d, rg, eps),
    ensures
        sums::sound(crud::counting(e, eps), d, rg),
        e.len() == m.dom().len(),
        crud::counting(e, eps).len() <= e.len(),
{
    keys.unique_seq_to_set();
    assert(keys.to_set() =~= m.dom()) by {
        assert forall|key: Seq<char>| keys.to_set().contains(key) == m.dom().contains(key) by {
            assert(keys.contains(key) <==> m.contains_key(key));
        }
    }
    assert forall|i: int| 0 <= i < e.len() implies entry_fits(#[trigger] e[i], d, rg, eps) by {
        assert(e[i] == m[keys[i]]);
        assert(keys.contains(keys[i]));
        assert(m.contains_key(keys[i]));
    }
    lemma_counting_sound(e, d, rg, eps);
}

proof fn lemma_counting_sound(e: Seq<(u64, Seq<u64>)>, d: nat, rg: Range, eps: Eps)
    requires
        forall|i: int| 0 <= i < e.len() ==> entry_fits(#[trigger] e[i], d, rg, eps),
    ensures
        sums::sound(crud::counting(e, eps), d, rg),
        crud::counting(e, eps).len() <= e.len(),
    decreases e.len(),
{
    reveal(Seq::filter);
    if e.len() > 0 {
        let f = e.drop_last();
        assert forall|i: int| 0 <= i < f.len() implies entry_fits(#[trigger] f[i], d, rg, eps) by {
            assert(f[i] == e[i]);
        }
        lemma_counting_sound(f, d, rg, eps);
        assert(e.last() == e[e.len() - 1]);
        assert(entry_fits(e[e.len() - 1], d, rg, eps));
        let (g, h) = (crud::counting(f, eps), crud::counting(e, eps));
        assert forall|i: int| 0 <= i < h.len() implies sums::record_fits(#[trigger] h[i], d, rg) by {
            if i < g.len() {
                assert(h[i] == g[i]);
            }
        }
    }
}

/// What counts of a list with one more entry.
proof fn lemma_counting_push(e: Seq<(u64, Seq<u64>)>, r: (u64, Seq<u64>), eps: Eps)
    ensures
        crud::counting(e.push(r), eps) == (if crud::counts(r.0, eps) {
            crud::counting(e, eps).push(r)
        } else {
            crud::counting(e, eps)
        }),
{
    reveal(Seq::filter);
    assert(e.push(r).drop_last() =~= e);
}

/// Where an entry of a list stands among those that count.
spec fn place(e: Seq<(u64, Seq<u64>)>, j: int, eps: Eps) -> int {
    crud::counting(e.take(j), eps).len() as int
}

/// What counts of a list with one entry less.
proof fn lemma_counting_remove(e: Seq<(u64, Seq<u64>)>, j: int, eps: Eps)
    requires
        0 <= j < e.len(),
    ensures
        !crud::counts(e[j].0, eps) ==> crud::counting(e, eps) == crud::counting(e.remove(j), eps),
        crud::counts(e[j].0, eps) ==> {
            let c = crud::counting(e, eps);
            let i = place(e, j, eps);
            &&& 0 <= i < c.len()
            &&& c[i] == e[j]
            &&& c.remove(i) == crud::counting(e.remove(j), eps)
        },
{
    let pred = |r: (u64, Seq<u64>)| crud::counts(r.0, eps);
    let (a, r, b) = (e.take(j), seq![e[j]], e.skip(j + 1));
    assert(e =~= (a + r) + b);
    assert(e.remove(j) =~= a + b);
    Seq::filter_distributes_over_add(a + r, b, pred);
    Seq::filter_distributes_over_add(a, r, pred);
    Seq::filter_distributes_over_add(a, b, pred);
    reveal(Seq::filter);
    assert(r.drop_last() =~= Seq::<(u64, Seq<u64>)>::empty());
    assert(r.drop_last().filter(pred) =~= Seq::<(u64, Seq<u64>)>::empty());
    let c = crud::counting(e, eps);
    if crud::counts(e[j].0, eps) {
        assert(r.filter(pred) =~= r);
        assert(c.remove(place(e, j, eps)) =~= a.filter(pred) + b.filter(pred));
    } else {
        assert(r.filter(pred) =~= Seq::<(u64, Seq<u64>)>::empty());
        assert(c =~= a.filter(pred) + b.filter(pred));
    }
}

/// A listing without one of its entries lists the map without its key.
proof fn lemma_listed_less(m: Live, keys: Seq<Seq<char>>, e: Seq<(u64, Seq<u64>)>, j: int)
    requires
        maps::listed(m, keys, e),
        0 <= j < keys.len(),
    ensures
        maps::listed(m.remove(keys[j]), keys.remove(j), e.remove(j)),
{
    let (less, f, n) = (keys.remove(j), e.remove(j), m.remove(keys[j]));
    assert forall|x: int, y: int| 0 <= x < less.len() && 0 <= y < less.len() && x != y implies less[x]
        != less[y] by {
        let p = if x < j { x } else { x + 1 };
        let q = if y < j { y } else { y + 1 };
        assert(keys[p] != keys[q]);
    }
    assert forall|key: Seq<char>| #[trigger] less.contains(key) <==> n.contains_key(key) by {
        if less.contains(key) {
            let x = less.index_of(key);
            let p = if x < j { x } else { x + 1 };
            assert(keys[p] == key);
            assert(keys.contains(key));
            assert(keys[p] != keys[j]);
        }
        if n.contains_key(key) {
            assert(keys.contains(key));
            let p = keys.index_of(key);
            let x = if p < j { p } else { p - 1 };
            assert(less[x] == key);
        }
    }
    assert forall|x: int| 0 <= x < less.len() implies #[trigger] f[x] == n[less[x]] by {
        let p = if x < j { x } else { x + 1 };
        assert(e[p] == m[keys[p]]);
        assert(keys[p] != keys[j]);
    }
}

/// A listing with an entry more lists the map with its key.
proof fn lemma_listed_more(
    m: Live,
    keys: Seq<Seq<char>>,
    e: Seq<(u64, Seq<u64>)>,
    key: Seq<char>,
    r: (u64, Seq<u64>),
)
    requires
        maps::listed(m, keys, e),
        !m.contains_key(key),
    ensures
        maps::listed(m.insert(key, r), keys.push(key), e.push(r)),
{
    let (more, n) = (keys.push(key), m.insert(key, r));
    assert(!keys.contains(key));
    assert forall|x: Seq<char>| #[trigger] more.contains(x) <==> n.contains_key(x) by {
        if more.contains(x) {
            let i = more.index_of(x);
            if i < keys.len() {
                assert(keys[i] == x);
                assert(keys.contains(x));
            }
        }
        if n.contains_key(x) {
            if x == key {
                assert(more[keys.len() as int] == x);
            } else {
                assert(keys.contains(x));
                assert(more[keys.index_of(x)] == x);
            }
        }
    }
    assert forall|i: int| 0 <= i < more.len() implies #[trigger] e.push(r)[i] == n[more[i]] by {
        if i < keys.len() {
            assert(e[i] == m[keys[i]]);
            assert(keys.contains(keys[i]));
        }
    }
    assert forall|x: int, y: int| 0 <= x < more.len() && 0 <= y < more.len() && x != y implies more[x]
        != more[y] by {
        if x < keys.len() && y < keys.len() {
            assert(keys[x] != keys[y]);
        } else if x < keys.len() {
            assert(keys.contains(keys[x]));
        } else {
            assert(keys.contains(keys[y]));
        }
    }
}

/// Computing over a list is taking one of its entries in after the others.
proof fn lemma_one_in(
    k: arith::Calc,
    e: Seq<(u64, Seq<u64>)>,
    j: int,
    d: nat,
    rg: Range,
    eps: Eps,
)
    requires
        reversible(k, rg, eps),
        sums::sound(crud::counting(e, eps), d, rg),
        crud::counting(e, eps).len() <= rg.rows,
        0 <= j < e.len(),
    ensures
        sums::agree(
            crud::recomputed(k, e, d, eps),
            crud::state_with(k, crud::recomputed(k, e.remove(j), d, eps), e[j].0, e[j].1, eps),
        ),
{
    lemma_counting_remove(e, j, eps);
    if crud::counts(e[j].0, eps) {
        let c = crud::counting(e, eps);
        let i = place(e, j, eps);
        lemma_move(k, c, i, d, rg, eps);
        lemma_push(k, c.remove(i), e[j], d, rg, eps);
    }
}

/// Any two listings of the same records give the same state.
proof fn lemma_listings(
    k: arith::Calc,
    m: Live,
    ka: Seq<Seq<char>>,
    a: Seq<(u64, Seq<u64>)>,
    kb: Seq<Seq<char>>,
    b: Seq<(u64, Seq<u64>)>,
    d: nat,
    rg: Range,
    eps: Eps,
)
    requires
        reversible(k, rg, eps),
        maps::listed(m, ka, a),
        maps::listed(m, kb, b),
        m.dom().finite() && m.dom().len() <= rg.rows,
        forall|key: Seq<char>| #[trigger] m.contains_key(key) ==> entry_fits(m[key], d, rg, eps),
    ensures
        sums::agree(crud::recomputed(k, a, d, eps), crud::recomputed(k, b, d, eps)),
    decreases b.len(),
{
    lemma_listed_sound(m, ka, a, d, rg, eps);
    lemma_listed_sound(m, kb, b, d, rg, eps);
    if b.len() == 0 {
        if a.len() > 0 {
            assert(ka.contains(ka[0]));
            assert(m.contains_key(ka[0]));
            assert(kb.contains(ka[0]));
        }
    } else {
        let last = b.len() - 1;
        let key = kb[last];
        assert(kb.contains(key));
        assert(m.contains_key(key));
        assert(ka.contains(key));
        let j = ka.index_of(key);
        lemma_listed_less(m, ka, a, j);
        lemma_listed_less(m, kb, b, last);
        let n = m.remove(key);
        lemma_listings(
            k,
            n,
            ka.remove(j),
            a.remove(j),
            kb.remove(last),
            b.remove(last),
            d,
            rg,
            eps,
        );
        lemma_listed_sound(n, ka.remove(j), a.remove(j), d, rg, eps);
        lemma_listed_sound(n, kb.remove(last), b.remove(last), d, rg, eps);
        lemma_settled_anchored(k, crud::counting(a.remove(j), eps), d, rg, eps);
        lemma_settled_anchored(k, crud::counting(b.remove(last), eps), d, rg, eps);
        assert(entry_fits(m[key], d, rg, eps));
        assert(b.remove(last).push(b[last]) =~= b);
        assert(a[j] == m[ka[j]] && b[last] == m[kb[last]]);
        let r = b[last];
        lemma_one_in(k, a, j, d, rg, eps);
        lemma_counting_push(b.remove(last), r, eps);
        if crud::counts(r.0, eps) {
            lemma_push(k, crud::counting(b.remove(last), eps), r, d, rg, eps);
            lemma_congruent(
                k,
                crud::recomputed(k, a.remove(j), d, eps),
                crud::recomputed(k, b.remove(last), d, eps),
                r.0,
                r.1,
                rg,
                eps,
            );
        }
    }
}

// ------------------------------------------------------------------- laws

/// A memory without records is faithful, and sound whatever numbers will
/// occur.
pub proof fn fresh_memory_is_faithful(k: arith::Calc, a: Memory, rg: Range)
    requires
        a.live == Map::<Seq<char>, (u64, Seq<u64>)>::empty(),
        a.state == crud::blank(a.d_v),
    ensures
        sound_memory(a, rg),
        faithful(k, a),
{
    assert(a.live.dom() =~= Set::empty());
    assert forall|e: Seq<(u64, Seq<u64>)>| #[trigger] maps::lists(a.live, e) implies sums::agree(
        a.state,
        crud::recomputed(k, e, a.d_v, a.eps),
    ) by {
        let keys = choose|keys: Seq<Seq<char>>| maps::listed(a.live, keys, e);
        if e.len() > 0 {
            assert(keys.contains(keys[0]));
        }
        reveal(Seq::filter);
    }
}

/// An insert keeps a memory faithful.
pub proof fn insert_keeps_faithful(
    k: arith::Calc,
    a: Memory,
    key: Seq<char>,
    s: u64,
    v: Seq<u64>,
    rg: Range,
)
    requires
        reversible(k, rg, a.eps),
        sound_memory(a, rg),
        faithful(k, a),
        !a.live.contains_key(key),
        a.live.dom().len() < rg.rows,
        entry_fits((s, v), a.d_v, rg, a.eps),
    ensures
        sound_memory(crud::inserted(k, a, key, s, v), rg),
        faithful(k, crud::inserted(k, a, key, s, v)),
{
    let b = crud::inserted(k, a, key, s, v);
    let (d, eps) = (a.d_v, a.eps);
    assert(b.live.dom() =~= a.live.dom().insert(key));
    assert forall|e: Seq<(u64, Seq<u64>)>| #[trigger] maps::lists(b.live, e) implies sums::agree(
        b.state,
        crud::recomputed(k, e, d, eps),
    ) by {
        let keys = choose|keys: Seq<Seq<char>>| maps::listed(b.live, keys, e);
        lemma_listed_sound(b.live, keys, e, d, rg, eps);
        assert(b.live.contains_key(key));
        assert(keys.contains(key));
        let j = keys.index_of(key);
        lemma_listed_less(b.live, keys, e, j);
        assert(b.live.remove(key) =~= a.live);
        let f = e.remove(j);
        assert(maps::lists(a.live, f));
        assert(e[j] == b.live[keys[j]]);
        lemma_one_in(k, e, j, d, rg, eps);
        if crud::counts(s, eps) {
            lemma_listed_sound(a.live, keys.remove(j), f, d, rg, eps);
            lemma_settled_anchored(k, crud::counting(f, eps), d, rg, eps);
            lemma_congruent(k, a.state, crud::recomputed(k, f, d, eps), s, v, rg, eps);
        }
    }
}

/// A delete keeps a memory faithful: the deleted record leaves no trace.
pub proof fn delete_keeps_faithful(
    k: arith::Calc,
    a: Memory,
    key: Seq<char>,
    b: Memory,
    rg: Range,
)
    requires
        reversible(k, rg, a.eps),
        sound_memory(a, rg),
        faithful(k, a),
        a.live.contains_key(key),
        crud::deleted(k, a, key, b),
    ensures
        sound_memory(b, rg),
        faithful(k, b),
{
    let (d, eps) = (a.d_v, a.eps);
    let (s, v) = a.live[key];
    let live = a.live.remove(key);
    let stale = crud::goes_stale(k, a.state, s, v, eps);
    assert(live.dom() =~= a.live.dom().remove(key));
    assert(entry_fits(a.live[key], d, rg, eps));
    if stale {
        let f = choose|f: Seq<(u64, Seq<u64>)>| #[trigger]
            maps::lists(live, f) && b == (Memory {
                state: crud::recomputed(k, f, a.d_v, a.eps),
                live,
                n_ops: a.n_ops + 1,
                n_rescales: a.n_rescales + 1,
                ..a
            });
        let kf = choose|kf: Seq<Seq<char>>| maps::listed(live, kf, f);
        lemma_listed_sound(live, kf, f, d, rg, eps);
        lemma_settled_anchored(k, crud::counting(f, eps), d, rg, eps);
    }
    assert forall|e: Seq<(u64, Seq<u64>)>| #[trigger] maps::lists(b.live, e) implies sums::agree(
        b.state,
        crud::recomputed(k, e, d, eps),
    ) by {
        let keys = choose|keys: Seq<Seq<char>>| maps::listed(live, keys, e);
        lemma_listed_sound(live, keys, e, d, rg, eps);
        if stale {
            let f = choose|f: Seq<(u64, Seq<u64>)>| #[trigger]
                maps::lists(live, f) && b == (Memory {
                    state: crud::recomputed(k, f, a.d_v, a.eps),
                    live,
                    n_ops: a.n_ops + 1,
                    n_rescales: a.n_rescales + 1,
                    ..a
                });
            let kf = choose|kf: Seq<Seq<char>>| maps::listed(live, kf, f);
            lemma_listings(k, live, kf, f, keys, e, d, rg, eps);
        } else {
            let g = e.push((s, v));
            lemma_listed_more(live, keys, e, key, (s, v));
            assert(live.insert(key, (s, v)) =~= a.live);
            assert(maps::lists(a.live, g));
            lemma_listed_sound(a.live, keys.push(key), g, d, rg, eps);
            lemma_counting_push(e, (s, v), eps);
            if crud::counts(s, eps) {
                lemma_taken(k, a.state, crud::counting(e, eps), s, v, d, rg, eps);
            }
        }
    }
}

/// Taking away the last record leaves what the others give.
proof fn lemma_taken(
    k: arith::Calc,
    a: State,
    e: Seq<(u64, Seq<u64>)>,
    s: u64,
    v: Seq<u64>,
    d: nat,
    rg: Range,
    eps: Eps,
)
    requires
        reversible(k, rg, eps),
        anchored(a, rg),
        e.len() < rg.rows,
        sums::sound(e, d, rg),
        sums::sound(e.push((s, v)), d, rg),
        sums::agree(a, crud::settled(k, e.push((s, v)), d, eps)),
        !crud::goes_stale(k, a, s, v, eps),
    ensures
        sums::agree(crud::parted(k, a, s, v, eps), crud::settled(k, e, d, eps)),
{
    let r = (s, v);
    let g = e.push(r);
    assert(g[e.len() as int] == r);
    assert(sums::record_fits(g[e.len() as int], d, rg));
    sums::lemma_top(e, d, rg);
    sums::lemma_top(g, d, rg);
    assert(monoid::grows(rg, 0, 1, arith::ZERO));
    lemma_settled(k, e, d, eps);
    lemma_settled(k, g, d, eps);
    let p = semiring::peak(crud::scores_of(e));
    let t = semiring::peak(crud::scores_of(g));
    assert(crud::scores_of(g).drop_last() =~= crud::scores_of(e));
    assert(crud::scores_of(g).last() == s);
    assert(t == arith::larger(p, s));
    sums::lemma_sums_push(k, e, r, t, d, eps);
    assert(sums::tops(t, e, rg)) by {
        assert forall|i: int| 0 <= i < e.len() implies bits::rank((#[trigger] e[i]).0)
            <= bits::rank(t) by {
            assert(g[i] == e[i]);
        }
    }
    let x = sums::sums(k, e, t, d, eps);
    sums::lemma_term_total(k, rg, e, t, -1, d, eps);
    let got = crud::parted(k, a, s, v, eps);
    if eps.tropical() {
        if bits::num_eq(s, a.m) {
            assert(undone(k, rg, e.len(), x.den, arith::ZERO, arith::ONE));
            assert(bits::negated(arith::ONE) == crud::MINUS_ONE);
            assert forall|c: int| 0 <= c < d implies got.num[c] == x.num[c] by {
                sums::lemma_term_total(k, rg, e, t, c, d, eps);
                assert(rg.has(1, r.1[c]));
                assert(undone(k, rg, e.len(), x.num[c], v[c], arith::ONE));
            }
            assert(got.num =~= x.num);
            assert(got.den == x.den);
            if !bits::num_eq(p, t) {
                assert forall|i: int| 0 <= i < e.len() implies !bits::num_eq(
                    (#[trigger] e[i]).0,
                    t,
                ) by {
                    assert(bits::rank(e[i].0) <= bits::rank(p));
                }
                sums::lemma_below(k, e, t, -1, eps);
                assert(got.den == arith::ZERO);
            }
        } else {
            assert(got.num =~= x.num);
        }
    } else {
        assert(lowers(k, rg, a.m));
        assert(monoid::blind(k, rg, s, a.m, t, eps));
        let w = distributed::heft(k, s, t, eps);
        assert(undone_at(k, rg, e.len(), x.den, arith::ZERO, s, t, eps));
        assert forall|c: int| 0 <= c < d implies got.num[c] == x.num[c] by {
            sums::lemma_term_total(k, rg, e, t, c, d, eps);
            assert(rg.has(1, r.1[c]));
            assert(undone_at(k, rg, e.len(), x.num[c], v[c], s, t, eps));
        }
        assert(got.num =~= x.num);
    }
    sums::lemma_sums_blind(k, rg, e, t, p, d, eps);
}

} // verus!
