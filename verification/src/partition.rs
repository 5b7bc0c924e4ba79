//! Partition and order of the masked and grouped averages, in exact
//! arithmetic: neither how the work was cut nor in which order it came
//! changes an answer.

use vstd::prelude::*;

use crate::arith;
use crate::bits;
use crate::fold;
use crate::mask;
use crate::mask::{Bracket, Cut, PairScore, RangeRows, RowScore};
use crate::matrix;
use crate::monoid;
use crate::types::Eps;

verus! {

/// The rows of a range are those of its halves, one after the other; they
/// fit, and there are no more than the range has items.
pub open spec fn splits(rows: RangeRows, d: nat, n: int, gr: monoid::Range) -> bool {
    &&& forall|lo: int, hi: int|
        0 <= lo <= hi <= n ==> monoid::rows_fit(#[trigger] rows(lo, hi), d, gr)
            && rows(lo, hi).len() <= hi - lo
    &&& forall|lo: int, mid: int, hi: int|
        0 <= lo <= mid <= hi <= n ==> rows(lo, hi) == #[trigger] rows(lo, mid) + #[trigger] rows(
            mid,
            hi,
        )
}

/// Where part `t` begins.
pub open spec fn edge(bounds: Seq<(usize, usize)>, n: int, t: int) -> int {
    if t < bounds.len() {
        bounds[t].0 as int
    } else {
        n
    }
}

proof fn lemma_edge(bounds: Seq<(usize, usize)>, n: int, s: int, t: int)
    requires
        mask::consecutive(bounds, n),
        0 <= n,
        0 <= s <= t <= bounds.len(),
    ensures
        0 <= edge(bounds, n, s) <= edge(bounds, n, t) <= n,
        s < bounds.len() ==> bounds[s].1 == edge(bounds, n, s + 1),
    decreases t - s,
{
    if s < bounds.len() {
        assert(bounds[s].0 <= bounds[s].1 <= n);
        if s < bounds.len() - 1 {
            assert(bounds[s].1 == bounds[s + 1].0);
        }
    }
    if s < t {
        lemma_edge(bounds, n, s + 1, t);
    }
}

/// The parts of a cut, folded.
spec fn folded_parts(
    k: arith::Calc,
    d: nat,
    bounds: Seq<(usize, usize)>,
    rows: RangeRows,
    eps: Eps,
) -> Seq<fold::Acc> {
    Seq::new(
        bounds.len(),
        |t: int| fold::folded(k, d, rows(bounds[t].0 as int, bounds[t].1 as int), eps),
    )
}

proof fn lemma_bracket(
    k: arith::Calc,
    d: nat,
    bounds: Seq<(usize, usize)>,
    b: Bracket,
    lo: int,
    rows: RangeRows,
    n: int,
    gr: monoid::Range,
    eps: Eps,
)
    requires
        monoid::exact(k, gr, eps),
        mask::consecutive(bounds, n),
        0 <= n <= gr.rows,
        splits(rows, d, n, gr),
        mask::numbered(b, lo),
        0 <= lo,
        lo + mask::size(b) <= bounds.len(),
    ensures
        mask::reduced(k, d, folded_parts(k, d, bounds, rows, eps), b, eps) == fold::folded(
            k,
            d,
            rows(edge(bounds, n, lo), edge(bounds, n, lo + mask::size(b))),
            eps,
        ),
    decreases b,
{
    lemma_edge(bounds, n, lo, lo + mask::size(b));
    match b {
        Bracket::Unit => {
            let e = edge(bounds, n, lo);
            assert(rows(e, e).len() == 0);
        },
        Bracket::Part(_) => {},
        Bracket::Both(x, y) => {
            let mid = lo + mask::size(*x);
            lemma_bracket(k, d, bounds, *x, lo, rows, n, gr, eps);
            lemma_bracket(k, d, bounds, *y, mid, rows, n, gr, eps);
            let hi = mid + mask::size(*y);
            lemma_edge(bounds, n, lo, mid);
            lemma_edge(bounds, n, mid, hi);
            let (p, q, r) = (edge(bounds, n, lo), edge(bounds, n, mid), edge(bounds, n, hi));
            assert(rows(p, r) == rows(p, q) + rows(q, r));
            monoid::merge_adds_row_sets(k, d, rows(p, q), rows(q, r), gr, eps);
        },
    }
}

/// However the items are cut and the parts bracketed, their merge is the
/// fold of all of them in order.
pub proof fn cut_does_not_matter(
    k: arith::Calc,
    d: nat,
    c: Cut,
    rows: RangeRows,
    n: int,
    gr: monoid::Range,
    eps: Eps,
)
    requires
        monoid::exact(k, gr, eps),
        mask::valid_cut(c, n),
        0 <= n <= gr.rows,
        splits(rows, d, n, gr),
    ensures
        mask::cut_acc(k, d, c, |lo: int, hi: int| fold::folded(k, d, rows(lo, hi), eps), eps)
            == fold::folded(k, d, rows(0, n), eps),
{
    let part = |lo: int, hi: int| fold::folded(k, d, rows(lo, hi), eps);
    lemma_bracket(k, d, c.bounds, c.bracket, 0, rows, n, gr, eps);
    lemma_edge(c.bounds, n, 0, c.bounds.len() as int);
    assert(folded_parts(k, d, c.bounds, rows, eps) =~= Seq::new(
        c.bounds.len(),
        |t: int| part(c.bounds[t].0 as int, c.bounds[t].1 as int),
    ));
}

// ------------------------------------------------------------ masked pairs

/// A value of width `d`, of numbers that occur unless it holds a NaN.
pub open spec fn value_fits(v: Seq<u64>, d: nat, gr: monoid::Range) -> bool {
    &&& v.len() == d
    &&& matrix::present(v) && 1 <= gr.rows ==> forall|c: int|
        0 <= c < d ==> gr.has(1, #[trigger] v[c])
}

/// Values of one width, of numbers that occur.
pub open spec fn wide(v: Seq<Seq<u64>>, d: nat, gr: monoid::Range) -> bool {
    forall|j: int| 0 <= j < v.len() ==> value_fits(#[trigger] v[j], d, gr)
}

/// A score that is NaN, infinite, or one that occurs.
pub open spec fn score_fits(s: u64, gr: monoid::Range) -> bool {
    bits::finite(s) ==> gr.scores.contains(s)
}

/// Every pair names a value and has a score that occurs.
pub open spec fn named(
    sc: PairScore,
    pairs: Seq<(usize, usize)>,
    v: Seq<Seq<u64>>,
    gr: monoid::Range,
) -> bool {
    forall|t: int|
        0 <= t < pairs.len() ==> (#[trigger] pairs[t]).1 < v.len() && score_fits(
            sc(pairs[t].0, pairs[t].1),
            gr,
        )
}

proof fn lemma_pair_rows_fit(
    sc: PairScore,
    v: Seq<Seq<u64>>,
    pairs: Seq<(usize, usize)>,
    i: int,
    d: nat,
    gr: monoid::Range,
)
    requires
        wide(v, d, gr),
        named(sc, pairs, v, gr),
    ensures
        monoid::rows_fit(mask::pair_rows(sc, v, pairs, i), d, gr),
        mask::pair_rows(sc, v, pairs, i).len() <= pairs.len(),
    decreases pairs.len(),
{
    if pairs.len() > 0 {
        let less = pairs.drop_last();
        assert forall|t: int| 0 <= t < less.len() implies (#[trigger] less[t]).1 < v.len()
            && score_fits(sc(less[t].0, less[t].1), gr) by {
            assert(less[t] == pairs[t]);
        }
        lemma_pair_rows_fit(sc, v, less, i, d, gr);
        assert(pairs.last() == pairs[pairs.len() - 1]);
        let rest = mask::pair_rows(sc, v, less, i);
        let rows = mask::pair_rows(sc, v, pairs, i);
        assert forall|x: int| 0 <= x < rows.len() implies monoid::row_fits(
            #[trigger] rows[x],
            d,
            gr,
        ) by {
            if x < rest.len() {
                assert(rows[x] == rest[x]);
            } else {
                assert(value_fits(rows[x].1, d, gr));
            }
        }
    }
}

proof fn lemma_pair_rows_add(
    sc: PairScore,
    v: Seq<Seq<u64>>,
    a: Seq<(usize, usize)>,
    b: Seq<(usize, usize)>,
    i: int,
)
    ensures
        mask::pair_rows(sc, v, a + b, i) == mask::pair_rows(sc, v, a, i) + mask::pair_rows(
            sc,
            v,
            b,
            i,
        ),
    decreases b.len(),
{
    if b.len() == 0 {
        assert(a + b =~= a);
        assert(mask::pair_rows(sc, v, a, i) + mask::pair_rows(sc, v, b, i) =~= mask::pair_rows(
            sc,
            v,
            a,
            i,
        ));
    } else {
        lemma_pair_rows_add(sc, v, a, b.drop_last(), i);
        assert((a + b).drop_last() =~= a + b.drop_last());
        assert((a + b).last() == b.last());
        assert(mask::pair_rows(sc, v, a + b, i) =~= mask::pair_rows(sc, v, a, i)
            + mask::pair_rows(sc, v, b, i));
    }
}

/// Every query row folded over all its pairs in order.
pub open spec fn whole_rows(
    k: arith::Calc,
    sc: PairScore,
    v: Seq<Seq<u64>>,
    d: nat,
    pairs: Seq<(usize, usize)>,
    n_q: nat,
    eps: Eps,
) -> Seq<fold::Acc> {
    Seq::new(n_q, |i: int| fold::folded(k, d, mask::pair_rows(sc, v, pairs, i), eps))
}

/// A masked attention, in parts or not, answers what one pass over the
/// pairs answers.
pub proof fn parallel_mask_is_one_pass(
    k: arith::Calc,
    sc: PairScore,
    v: Seq<Seq<u64>>,
    d: nat,
    pairs: Seq<(usize, usize)>,
    n_q: nat,
    gr: monoid::Range,
    eps: Eps,
    out: Seq<Seq<u64>>,
    covered: Seq<bool>,
)
    requires
        mask::masked_outcome(k, sc, v, d, pairs, n_q, eps, out, covered),
        monoid::exact(k, gr, eps),
        pairs.len() <= gr.rows,
        wide(v, d, gr),
        named(sc, pairs, v, gr),
    ensures
        mask::answers(k, d, whole_rows(k, sc, v, d, pairs, n_q, eps), out, covered),
{
    let n = pairs.len() as int;
    let c = choose|c: Cut| #[trigger]
        mask::valid_cut(c, n) && (pairs.len() < mask::PAIR_PARALLEL_THRESHOLD ==> c == mask::whole(
            n,
        )) && mask::answers(
            k,
            d,
            mask::masked_accs(k, sc, v, d, pairs, n_q, c, eps),
            out,
            covered,
        );
    let got = mask::masked_accs(k, sc, v, d, pairs, n_q, c, eps);
    let want = whole_rows(k, sc, v, d, pairs, n_q, eps);
    assert forall|i: int| 0 <= i < n_q implies got[i] == want[i] by {
        let rows: RangeRows = |lo: int, hi: int|
            mask::pair_rows(sc, v, pairs.subrange(lo, hi), i);
        assert forall|lo: int, hi: int| 0 <= lo <= hi <= n implies monoid::rows_fit(
            #[trigger] rows(lo, hi),
            d,
            gr,
        ) && rows(lo, hi).len() <= hi - lo by {
            let s = pairs.subrange(lo, hi);
            assert forall|t: int| 0 <= t < s.len() implies (#[trigger] s[t]).1 < v.len()
                && score_fits(sc(s[t].0, s[t].1), gr) by {
                assert(s[t] == pairs[lo + t]);
            }
            lemma_pair_rows_fit(sc, v, s, i, d, gr);
        }
        assert forall|lo: int, mid: int, hi: int| 0 <= lo <= mid <= hi <= n implies rows(lo, hi)
            == #[trigger] rows(lo, mid) + #[trigger] rows(mid, hi) by {
            assert(pairs.subrange(lo, hi) =~= pairs.subrange(lo, mid) + pairs.subrange(mid, hi));
            lemma_pair_rows_add(sc, v, pairs.subrange(lo, mid), pairs.subrange(mid, hi), i);
        }
        cut_does_not_matter(k, d, c, rows, n, gr, eps);
        assert(pairs.subrange(0, n) =~= pairs);
        let part = mask::pair_part(k, sc, v, d, pairs, i, eps);
        let other = |lo: int, hi: int| fold::folded(k, d, rows(lo, hi), eps);
        assert(part =~= other);
    }
    assert(got =~= want);
}

proof fn lemma_pair_rows_multiset(
    sc: PairScore,
    v: Seq<Seq<u64>>,
    a: Seq<(usize, usize)>,
    b: Seq<(usize, usize)>,
    i: int,
)
    requires
        a.to_multiset() == b.to_multiset(),
    ensures
        mask::pair_rows(sc, v, a, i).to_multiset() == mask::pair_rows(sc, v, b, i).to_multiset(),
    decreases b.len(),
{
    broadcast use vstd::seq_lib::group_to_multiset_ensures;

    if b.len() == 0 {
        assert(a.to_multiset().len() == a.len());
        assert(b.to_multiset().len() == b.len());
        assert(a =~= b);
    } else {
        let r = b.last();
        let rest = b.drop_last();
        assert(b =~= rest.push(r));
        assert(b.to_multiset() =~= rest.to_multiset().insert(r));
        assert(b.to_multiset().contains(r));
        assert(a.contains(r));
        let j = a.index_of(r);
        let less = a.remove(j);
        assert(less.to_multiset() =~= rest.to_multiset());
        lemma_pair_rows_multiset(sc, v, less, rest, i);
        let (p, q, one) = (a.take(j), a.skip(j + 1), seq![r]);
        assert(a =~= p + (one + q));
        assert(less =~= p + q);
        assert(b =~= rest + one);
        lemma_pair_rows_add(sc, v, p, one + q, i);
        lemma_pair_rows_add(sc, v, one, q, i);
        lemma_pair_rows_add(sc, v, p, q, i);
        lemma_pair_rows_add(sc, v, rest, one, i);
        let (rp, rq, ro, rr) = (
            mask::pair_rows(sc, v, p, i),
            mask::pair_rows(sc, v, q, i),
            mask::pair_rows(sc, v, one, i),
            mask::pair_rows(sc, v, rest, i),
        );
        vstd::seq_lib::lemma_multiset_commutative(rp, ro + rq);
        vstd::seq_lib::lemma_multiset_commutative(ro, rq);
        vstd::seq_lib::lemma_multiset_commutative(rp, rq);
        vstd::seq_lib::lemma_multiset_commutative(rr, ro);
        assert(mask::pair_rows(sc, v, a, i).to_multiset() =~= mask::pair_rows(
            sc,
            v,
            b,
            i,
        ).to_multiset());
    }
}

/// The order of the pairs does not matter: two masked attentions over the
/// same pairs in any two orders answer the same.
pub proof fn pair_order_does_not_matter(
    k: arith::Calc,
    sc: PairScore,
    v: Seq<Seq<u64>>,
    d: nat,
    a: Seq<(usize, usize)>,
    b: Seq<(usize, usize)>,
    n_q: nat,
    gr: monoid::Range,
    eps: Eps,
    out_a: Seq<Seq<u64>>,
    covered_a: Seq<bool>,
    out_b: Seq<Seq<u64>>,
    covered_b: Seq<bool>,
)
    requires
        mask::masked_outcome(k, sc, v, d, a, n_q, eps, out_a, covered_a),
        mask::masked_outcome(k, sc, v, d, b, n_q, eps, out_b, covered_b),
        a.to_multiset() == b.to_multiset(),
        monoid::exact(k, gr, eps),
        a.len() <= gr.rows,
        wide(v, d, gr),
        named(sc, a, v, gr),
    ensures
        out_a == out_b,
        covered_a == covered_b,
{
    broadcast use vstd::seq_lib::group_to_multiset_ensures;

    assert(a.to_multiset().len() == a.len());
    assert(b.to_multiset().len() == b.len());
    assert forall|t: int| 0 <= t < b.len() implies (#[trigger] b[t]).1 < v.len() && score_fits(
        sc(b[t].0, b[t].1),
        gr,
    ) by {
        assert(b.contains(b[t]));
        assert(b.to_multiset().count(b[t]) > 0);
        assert(a.contains(b[t]));
        let j = a.index_of(b[t]);
        assert(a[j].1 < v.len());
    }
    parallel_mask_is_one_pass(k, sc, v, d, a, n_q, gr, eps, out_a, covered_a);
    parallel_mask_is_one_pass(k, sc, v, d, b, n_q, gr, eps, out_b, covered_b);
    let (xs, ys) = (whole_rows(k, sc, v, d, a, n_q, eps), whole_rows(k, sc, v, d, b, n_q, eps));
    assert forall|i: int| 0 <= i < n_q implies fold::output(k, #[trigger] xs[i]) == fold::output(
        k,
        ys[i],
    ) by {
        lemma_pair_rows_fit(sc, v, a, i, d, gr);
        lemma_pair_rows_multiset(sc, v, a, b, i);
        monoid::row_order_does_not_matter(
            k,
            d,
            mask::pair_rows(sc, v, a, i),
            mask::pair_rows(sc, v, b, i),
            gr,
            eps,
        );
    }
    assert forall|i: int| 0 <= i < n_q implies out_a[i] == out_b[i] && covered_a[i]
        == covered_b[i] by {
        assert(fold::output(k, xs[i]) == fold::output(k, ys[i]));
    }
    assert(out_a =~= out_b);
    assert(covered_a =~= covered_b);
}

// ------------------------------------------------------------ grouped rows

proof fn lemma_group_rows_fit(
    sc: RowScore,
    v: Seq<Seq<u64>>,
    gid: Seq<u32>,
    sel: Option<Seq<bool>>,
    lo: int,
    hi: int,
    g: int,
    d: nat,
    gr: monoid::Range,
)
    requires
        wide(v, d, gr),
        0 <= lo <= hi <= v.len(),
        v.len() <= usize::MAX,
        forall|r: usize| r < v.len() ==> score_fits(#[trigger] sc(r), gr),
    ensures
        monoid::rows_fit(mask::group_rows(sc, v, gid, sel, lo, hi, g), d, gr),
        mask::group_rows(sc, v, gid, sel, lo, hi, g).len() <= hi - lo,
    decreases hi - lo,
{
    if lo < hi {
        lemma_group_rows_fit(sc, v, gid, sel, lo, hi - 1, g, d, gr);
        let rest = mask::group_rows(sc, v, gid, sel, lo, hi - 1, g);
        let rows = mask::group_rows(sc, v, gid, sel, lo, hi, g);
        assert(value_fits(v[hi - 1], d, gr));
        assert(score_fits(sc((hi - 1) as usize), gr));
        assert forall|x: int| 0 <= x < rows.len() implies monoid::row_fits(
            #[trigger] rows[x],
            d,
            gr,
        ) by {
            if x < rest.len() {
                assert(rows[x] == rest[x]);
            } else {
                assert(value_fits(rows[x].1, d, gr));
            }
        }
    }
}

proof fn lemma_group_rows_add(
    sc: RowScore,
    v: Seq<Seq<u64>>,
    gid: Seq<u32>,
    sel: Option<Seq<bool>>,
    lo: int,
    mid: int,
    hi: int,
    g: int,
)
    requires
        lo <= mid <= hi,
    ensures
        mask::group_rows(sc, v, gid, sel, lo, hi, g) == mask::group_rows(
            sc,
            v,
            gid,
            sel,
            lo,
            mid,
            g,
        ) + mask::group_rows(sc, v, gid, sel, mid, hi, g),
    decreases hi - mid,
{
    let a = mask::group_rows(sc, v, gid, sel, lo, mid, g);
    if mid < hi {
        lemma_group_rows_add(sc, v, gid, sel, lo, mid, hi - 1, g);
    }
    assert(mask::group_rows(sc, v, gid, sel, lo, hi, g) =~= a + mask::group_rows(
        sc,
        v,
        gid,
        sel,
        mid,
        hi,
        g,
    ));
}

/// Every group folded over all its rows in order.
pub open spec fn whole_groups(
    k: arith::Calc,
    sc: RowScore,
    v: Seq<Seq<u64>>,
    d: nat,
    gid: Seq<u32>,
    sel: Option<Seq<bool>>,
    n_groups: nat,
    eps: Eps,
) -> Seq<fold::Acc> {
    Seq::new(
        n_groups,
        |g: int|
            fold::folded(
                k,
                d,
                mask::group_rows(sc, v, gid, sel, 0, v.len() as int, g),
                eps,
            ),
    )
}

/// A grouped soft-average, in parts or not, answers what one pass over the
/// rows answers.
pub proof fn parallel_grouping_is_one_pass(
    k: arith::Calc,
    sc: RowScore,
    v: Seq<Seq<u64>>,
    d: nat,
    gid: Seq<u32>,
    sel: Option<Seq<bool>>,
    n_groups: nat,
    gr: monoid::Range,
    eps: Eps,
    out: Seq<Seq<u64>>,
    covered: Seq<bool>,
)
    requires
        mask::grouped_outcome(k, sc, v, d, gid, sel, n_groups, eps, out, covered),
        monoid::exact(k, gr, eps),
        v.len() <= gr.rows,
        v.len() <= usize::MAX,
        forall|r: usize| r < v.len() ==> score_fits(#[trigger] sc(r), gr),
        wide(v, d, gr),
    ensures
        mask::answers(k, d, whole_groups(k, sc, v, d, gid, sel, n_groups, eps), out, covered),
{
    let n = v.len() as int;
    let c = choose|c: Cut| #[trigger]
        mask::valid_cut(c, n) && (v.len() < mask::PAIR_PARALLEL_THRESHOLD ==> c == mask::whole(n))
            && mask::answers(
            k,
            d,
            mask::grouped_accs(k, sc, v, d, gid, sel, n_groups, c, eps),
            out,
            covered,
        );
    let got = mask::grouped_accs(k, sc, v, d, gid, sel, n_groups, c, eps);
    let want = whole_groups(k, sc, v, d, gid, sel, n_groups, eps);
    assert forall|g: int| 0 <= g < n_groups implies got[g] == want[g] by {
        let rows: RangeRows = |lo: int, hi: int| mask::group_rows(sc, v, gid, sel, lo, hi, g);
        assert forall|lo: int, hi: int| 0 <= lo <= hi <= n implies monoid::rows_fit(
            #[trigger] rows(lo, hi),
            d,
            gr,
        ) && rows(lo, hi).len() <= hi - lo by {
            lemma_group_rows_fit(sc, v, gid, sel, lo, hi, g, d, gr);
        }
        assert forall|lo: int, mid: int, hi: int| 0 <= lo <= mid <= hi <= n implies rows(lo, hi)
            == #[trigger] rows(lo, mid) + #[trigger] rows(mid, hi) by {
            lemma_group_rows_add(sc, v, gid, sel, lo, mid, hi, g);
        }
        cut_does_not_matter(k, d, c, rows, n, gr, eps);
        let part = mask::group_part(k, sc, v, d, gid, sel, g, eps);
        let other = |lo: int, hi: int| fold::folded(k, d, rows(lo, hi), eps);
        assert(part =~= other);
    }
    assert(got =~= want);
}

} // verus!
