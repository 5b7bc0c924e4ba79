//! Masked attention over an intensionally given mask, and the grouped
//! soft-average.
//!
//! The mask is a stream of `(i, j)` pairs in any order: row `i` of the
//! queries attends to row `j` of the keys and values. Scores come from a
//! function that the caller hands in; NaN encodes NULL, and a pair whose
//! score or value holds a NaN is skipped in every regime.

use vstd::prelude::*;

use rayon::iter::{IntoParallelRefIterator, ParallelIterator};

use crate::arith;
use crate::arith::{apply_op, Op};
use crate::bits;
use crate::bits::is_nan;
use crate::error;
use crate::error::BruceError;
use crate::fold;
use crate::fold::RowAcc;
use crate::matrix;
use crate::matrix::{is_present, zero_row, Matrix, Shape};
use crate::text;
use crate::text::push_dec;
use crate::types::Eps;

verus! {

/// From this many pairs or rows on, the fold runs in parallel.
pub const PAIR_PARALLEL_THRESHOLD: usize = 0x8000;

// ----------------------------------------------------------------- scores

/// The score of each pair of a query row and a key row.
pub type PairScore = spec_fn(usize, usize) -> u64;

/// What `f` scores each pair.
pub open spec fn scores<F: Fn(usize, usize) -> u64>(f: F) -> PairScore {
    |i: usize, j: usize| choose|r: u64| call_ensures(f, (i, j), r)
}

/// `f` scores every pair of the first `rows` query rows and the first `cols`
/// key rows, and the same pair always the same.
pub open spec fn steady_scores<F: Fn(usize, usize) -> u64>(f: F, rows: int, cols: int) -> bool {
    &&& forall|i: usize, j: usize|
        i < rows && j < cols ==> #[trigger] call_requires(f, (i, j))
    &&& forall|i: usize, j: usize, x: u64, y: u64|
        #[trigger] call_ensures(f, (i, j), x) && #[trigger] call_ensures(f, (i, j), y) ==> x == y
}

/// The score of one pair.
pub fn score_of<F: Fn(usize, usize) -> u64>(f: &F, i: usize, j: usize) -> (r: u64)
    requires
        steady_scores(*f, i + 1, j + 1),
    ensures
        r == scores(*f)(i, j),
{
    let r: u64 = f(i, j);
    assert(call_ensures(*f, (i, j), r));
    r
}

// ------------------------------------------------------------------ folds

/// The rows that the pairs bring to query row `i`: score and value of each
/// pair that is not NULL, in order.
pub open spec fn pair_rows(
    sc: PairScore,
    v: Seq<Seq<u64>>,
    pairs: Seq<(usize, usize)>,
    i: int,
) -> Seq<(u64, Seq<u64>)>
    decreases pairs.len(),
{
    if pairs.len() == 0 {
        Seq::empty()
    } else {
        let rest = pair_rows(sc, v, pairs.drop_last(), i);
        let p = pairs.last();
        let s = sc(p.0, p.1);
        if p.0 == i && !bits::nan(s) && matrix::present(v[p.1 as int]) {
            rest.push((s, v[p.1 as int]))
        } else {
            rest
        }
    }
}

/// The views of a list of accumulators.
pub open spec fn accs_view(a: Seq<RowAcc>) -> Seq<fold::Acc> {
    Seq::new(a.len(), |i: int| a[i]@)
}

/// Accumulators that have absorbed nothing.
pub fn vacant_rows(n: usize, d_v: usize) -> (r: Vec<RowAcc>)
    ensures
        r@.len() == n,
        forall|i: int| 0 <= i < n ==> (#[trigger] r@[i])@ == fold::vacant(d_v as nat),
{
    let mut r: Vec<RowAcc> = Vec::new();
    let mut i: usize = 0;
    while i < n
        invariant
            i <= n,
            r@.len() == i,
            forall|t: int| 0 <= t < i ==> (#[trigger] r@[t])@ == fold::vacant(d_v as nat),
        decreases n - i,
    {
        r.push(RowAcc::new(d_v));
        i += 1;
    }
    r
}

/// Every accumulator holds values of this width.
pub open spec fn all_wide(a: Seq<RowAcc>, d: nat) -> bool {
    forall|i: int| 0 <= i < a.len() ==> (#[trigger] a[i]).u@.len() == d
}

/// Merges accumulators row by row.
pub fn merge_rows<F: Fn(Op, u64, u64) -> u64>(
    mut a: Vec<RowAcc>,
    b: Vec<RowAcc>,
    eps: Eps,
    f: &F,
) -> (r: Vec<RowAcc>)
    requires
        arith::steady(*f),
        a@.len() == b@.len(),
        forall|i: int| 0 <= i < a@.len() ==> (#[trigger] a@[i]).u@.len() == b@[i].u@.len(),
    ensures
        r@.len() == a@.len(),
        forall|i: int|
            0 <= i < a@.len() ==> (#[trigger] r@[i])@ == fold::merged(
                arith::computes(*f),
                a@[i]@,
                b@[i]@,
                eps,
            ),
{
    let ghost before = a@;
    let n: usize = a.len();
    let mut i: usize = 0;
    while i < n
        invariant
            i <= n == a@.len(),
            n == b@.len(),
            n == before.len(),
            arith::steady(*f),
            forall|t: int| 0 <= t < n ==> (#[trigger] before[t]).u@.len() == b@[t].u@.len(),
            forall|t: int| i <= t < n ==> a@[t] == before[t],
            forall|t: int|
                0 <= t < i ==> (#[trigger] a@[t])@ == fold::merged(
                    arith::computes(*f),
                    before[t]@,
                    b@[t]@,
                    eps,
                ),
        decreases n - i,
    {
        assert(before[i as int].u@.len() == b@[i as int].u@.len());
        a[i].merge(&b[i], eps, f);
        i += 1;
    }
    a
}

/// Folds the pairs from `lo` up to `hi`, in order.
pub fn fold_sequential<S: Fn(usize, usize) -> u64, F: Fn(Op, u64, u64) -> u64>(
    n_q: usize,
    v: &Matrix<u64>,
    v_ok: &[bool],
    pairs: &[(usize, usize)],
    lo: usize,
    hi: usize,
    eps: Eps,
    score: &S,
    f: &F,
) -> (accs: Vec<RowAcc>)
    requires
        v.wf(),
        v_ok@.len() == v@.len(),
        forall|j: int| 0 <= j < v@.len() ==> #[trigger] v_ok@[j] == matrix::present(v@[j]),
        lo <= hi <= pairs@.len(),
        forall|t: int|
            0 <= t < pairs@.len() ==> (#[trigger] pairs@[t]).0 < n_q && pairs@[t].1 < v@.len(),
        steady_scores(*score, n_q as int, v@.len() as int),
        arith::steady(*f),
    ensures
        accs@.len() == n_q,
        forall|i: int|
            0 <= i < n_q ==> (#[trigger] accs@[i])@ == fold::folded(
                arith::computes(*f),
                v.width(),
                pair_rows(scores(*score), v@, pairs@.subrange(lo as int, hi as int), i),
                eps,
            ),
        all_wide(accs@, v.width()),
{
    let ghost k = arith::computes(*f);
    let ghost sc = scores(*score);
    let mut accs = vacant_rows(n_q, v.ncols());
    let mut t: usize = lo;
    assert(pairs@.subrange(lo as int, lo as int) =~= Seq::<(usize, usize)>::empty());
    while t < hi
        invariant
            v.wf(),
            v_ok@.len() == v@.len(),
            forall|j: int| 0 <= j < v@.len() ==> #[trigger] v_ok@[j] == matrix::present(v@[j]),
            lo <= t <= hi <= pairs@.len(),
            forall|x: int|
                0 <= x < pairs@.len() ==> (#[trigger] pairs@[x]).0 < n_q && pairs@[x].1 < v@.len(),
            steady_scores(*score, n_q as int, v@.len() as int),
            arith::steady(*f),
            k == arith::computes(*f),
            sc == scores(*score),
            accs@.len() == n_q,
            forall|i: int|
                0 <= i < n_q ==> (#[trigger] accs@[i])@ == fold::folded(
                    k,
                    v.width(),
                    pair_rows(sc, v@, pairs@.subrange(lo as int, t as int), i),
                    eps,
                ),
            all_wide(accs@, v.width()),
        decreases hi - t,
    {
        let (i, j) = pairs[t];
        assert(pairs@[t as int].0 < n_q && pairs@[t as int].1 < v@.len());
        let ghost before = pairs@.subrange(lo as int, t as int);
        let ghost after = pairs@.subrange(lo as int, t + 1);
        let ghost old_accs = accs@;
        assert(after.drop_last() =~= before);
        assert(after.last() == (i, j));
        let s: u64 = score_of(score, i, j);
        if !is_nan(s) && v_ok[j] {
            assert(v_ok@[j as int] == matrix::present(v@[j as int]));
            assert(v@[j as int].len() == v.width());
            accs[i].absorb(s, v.row(j), eps, f);
            proof {
                let rows = pair_rows(sc, v@, after, i as int);
                assert(rows == pair_rows(sc, v@, before, i as int).push((s, v@[j as int])));
                assert(rows.drop_last() =~= pair_rows(sc, v@, before, i as int));
            }
        } else {
            assert(v_ok@[j as int] == matrix::present(v@[j as int]));
        }
        assert forall|x: int| 0 <= x < n_q implies (#[trigger] accs@[x])@ == fold::folded(
            k,
            v.width(),
            pair_rows(sc, v@, after, x),
            eps,
        ) && accs@[x].u@.len() == v.width() by {
            assert(old_accs[x].u@.len() == v.width());
            if x != i {
                assert(accs@[x] == old_accs[x]);
            }
        }
        t += 1;
    }
    accs
}

// --------------------------------------------------------- parallel folds

/// A way of bringing parts together two at a time.
pub enum Bracket {
    /// No part.
    Unit,
    /// One part.
    Part(int),
    /// Two of these, merged.
    Both(Box<Bracket>, Box<Bracket>),
}

/// The number of parts in a bracket.
pub open spec fn size(b: Bracket) -> nat
    decreases b,
{
    match b {
        Bracket::Unit => 0,
        Bracket::Part(t) => 1,
        Bracket::Both(x, y) => size(*x) + size(*y),
    }
}

/// The parts are numbered from `lo` on, in order.
pub open spec fn numbered(b: Bracket, lo: int) -> bool
    decreases b,
{
    match b {
        Bracket::Unit => true,
        Bracket::Part(t) => t == lo,
        Bracket::Both(x, y) => numbered(*x, lo) && numbered(*y, lo + size(*x)),
    }
}

/// The bracket holds the parts from `lo` up to `hi`, each once, in order.
pub open spec fn in_order(b: Bracket, lo: int, hi: int) -> bool {
    numbered(b, lo) && lo + size(b) == hi
}

/// The merge of the parts as the bracket has it.
pub open spec fn reduced(
    k: arith::Calc,
    d: nat,
    parts: Seq<fold::Acc>,
    b: Bracket,
    eps: Eps,
) -> fold::Acc
    decreases b,
{
    match b {
        Bracket::Unit => fold::vacant(d),
        Bracket::Part(t) => parts[t],
        Bracket::Both(x, y) => fold::merged(
            k,
            reduced(k, d, parts, *x, eps),
            reduced(k, d, parts, *y, eps),
            eps,
        ),
    }
}

/// Merged parts keep their width.
proof fn lemma_reduced_width(
    k: arith::Calc,
    d: nat,
    parts: Seq<fold::Acc>,
    b: Bracket,
    lo: int,
    hi: int,
    eps: Eps,
)
    requires
        0 <= lo <= hi <= parts.len(),
        in_order(b, lo, hi),
        forall|t: int| 0 <= t < parts.len() ==> (#[trigger] parts[t]).u.len() == d,
    ensures
        reduced(k, d, parts, b, eps).u.len() == d,
    decreases b,
{
    match b {
        Bracket::Unit => {},
        Bracket::Part(t) => {
            assert(parts[t].u.len() == d);
        },
        Bracket::Both(x, y) => {
            let mid = lo + size(*x);
            lemma_reduced_width(k, d, parts, *x, lo, mid, eps);
            lemma_reduced_width(k, d, parts, *y, mid, hi, eps);
        },
    }
}

/// Row `i` of each part.
pub open spec fn column(parts: Seq<Vec<RowAcc>>, i: int) -> Seq<fold::Acc> {
    Seq::new(parts.len(), |t: int| parts[t]@[i]@)
}

/// `rayon::current_num_threads`: how many threads the parallel folds use.
/// The number depends on the machine, and nothing is said of it.
#[verifier::external_body]
fn thread_count() -> (n: usize) {
    rayon::current_num_threads()
}

/// `out` is what the parts that `job` makes of the bounds come to, merged
/// in some bracketing.
pub open spec fn some_reduction<J: Fn(usize, usize) -> Vec<RowAcc>>(
    job: J,
    bounds: Seq<(usize, usize)>,
    k: arith::Calc,
    d: nat,
    eps: Eps,
    out: Seq<RowAcc>,
) -> bool {
    exists|parts: Seq<Vec<RowAcc>>, b: Bracket|
        parts.len() == bounds.len() && (forall|t: int|
            0 <= t < bounds.len() ==> call_ensures(job, bounds[t], #[trigger] parts[t]))
            && #[trigger] in_order(b, 0, parts.len() as int) && (forall|i: int|
            0 <= i < out.len() ==> (#[trigger] out[i])@ == reduced(
                k,
                d,
                column(parts, i),
                b,
                eps,
            ))
}

/// `rayon`'s parallel iterator over a slice, mapped and reduced: every item
/// is mapped, and the results are merged two at a time, neighbours with
/// neighbours, in some bracketing, with identities thrown in at will.
#[verifier::external_body]
fn reduce_parts<
    J: Fn(usize, usize) -> Vec<RowAcc> + Sync,
    F: Fn(Op, u64, u64) -> u64 + Sync,
>(bounds: &[(usize, usize)], job: &J, n: usize, d_v: usize, eps: Eps, f: &F) -> (out: Vec<RowAcc>)
    requires
        arith::steady(*f),
        forall|t: int| 0 <= t < bounds@.len() ==> call_requires(*job, #[trigger] bounds@[t]),
        forall|t: int, r: Vec<RowAcc>|
            0 <= t < bounds@.len() && #[trigger] call_ensures(*job, bounds@[t], r) ==> r@.len() == n
                && all_wide(r@, d_v as nat),
    ensures
        out@.len() == n,
        some_reduction(*job, bounds@, arith::computes(*f), d_v as nat, eps, out@),
{
    bounds.par_iter().map(|&(lo, hi)| job(lo, hi)).reduce(
        || vacant_rows(n, d_v),
        |a, b| merge_rows(a, b, eps, f),
    )
}

/// Where a parallel fold was cut, and how the parts were brought together.
pub struct Cut {
    pub bounds: Seq<(usize, usize)>,
    pub bracket: Bracket,
}

/// The bounds follow one another from `0` to `n`.
pub open spec fn consecutive(bounds: Seq<(usize, usize)>, n: int) -> bool {
    &&& n > 0 ==> bounds.len() > 0
    &&& bounds.len() > 0 ==> bounds[0].0 == 0 && bounds[bounds.len() - 1].1 == n
    &&& forall|t: int| 0 <= t < bounds.len() ==> (#[trigger] bounds[t]).0 <= bounds[t].1 <= n
    &&& forall|t: int|
        0 <= t < bounds.len() - 1 ==> (#[trigger] bounds[t]).1 == bounds[t + 1].0
}

/// A cut of `n` items.
pub open spec fn valid_cut(c: Cut, n: int) -> bool {
    consecutive(c.bounds, n) && in_order(c.bracket, 0, c.bounds.len() as int)
}

/// No cut at all: one part.
pub open spec fn whole(n: int) -> Cut {
    Cut { bounds: seq![(0usize, n as usize)], bracket: Bracket::Part(0) }
}

/// The accumulator that a cut gives, where `part` gives that of a range.
pub open spec fn cut_acc(
    k: arith::Calc,
    d: nat,
    c: Cut,
    part: spec_fn(int, int) -> fold::Acc,
    eps: Eps,
) -> fold::Acc {
    reduced(
        k,
        d,
        Seq::new(c.bounds.len(), |t: int| part(c.bounds[t].0 as int, c.bounds[t].1 as int)),
        c.bracket,
        eps,
    )
}

proof fn lemma_whole(
    k: arith::Calc,
    d: nat,
    n: int,
    part: spec_fn(int, int) -> fold::Acc,
    eps: Eps,
)
    requires
        0 <= n <= usize::MAX,
    ensures
        valid_cut(whole(n), n),
        cut_acc(k, d, whole(n), part, eps) == part(0, n),
{
}

/// The bounds of parts of `chunk` items each, the last perhaps shorter.
fn part_bounds(n: usize, chunk: usize) -> (bounds: Vec<(usize, usize)>)
    requires
        chunk > 0,
    ensures
        consecutive(bounds@, n as int),
{
    let mut bounds: Vec<(usize, usize)> = Vec::new();
    let mut lo: usize = 0;
    while lo < n
        invariant
            chunk > 0,
            lo <= n,
            lo > 0 ==> bounds@.len() > 0,
            lo == 0 ==> bounds@.len() == 0,
            bounds@.len() > 0 ==> bounds@[0].0 == 0 && bounds@[bounds@.len() - 1].1 == lo,
            forall|t: int|
                0 <= t < bounds@.len() ==> (#[trigger] bounds@[t]).0 <= bounds@[t].1 <= n,
            forall|t: int|
                0 <= t < bounds@.len() - 1 ==> (#[trigger] bounds@[t]).1 == bounds@[t + 1].0,
        decreases n - lo,
    {
        let hi: usize = if chunk <= n - lo {
            lo + chunk
        } else {
            n
        };
        bounds.push((lo, hi));
        lo = hi;
    }
    bounds
}

/// The size of the parts for this many items on this many threads.
fn chunk_size(n: usize, threads: usize) -> (c: usize)
    requires
        n > 0,
    ensures
        c > 0,
        threads > 0 ==> c == (n + threads - 1) / threads as int,
{
    let t: usize = if threads < 1 {
        1
    } else {
        threads
    };
    let q: usize = n / t;
    proof {
        vstd::arithmetic::div_mod::lemma_fundamental_div_mod(n as int, t as int);
        vstd::arithmetic::div_mod::lemma_mod_pos_bound(n as int, t as int);
    }
    if n % t == 0 {
        proof {
            let (a, b, c) = (n as int, t as int, q as int);
            assert(c > 0) by (nonlinear_arith)
                requires
                    a == b * c,
                    a > 0,
                    b > 0,
            ;
            assert(c * b == b * c) by (nonlinear_arith);
            vstd::arithmetic::div_mod::lemma_fundamental_div_mod_converse(
                a + b - 1,
                b,
                c,
                b - 1,
            );
        }
        q
    } else {
        proof {
            let (a, b, c) = (n as int, t as int, q as int);
            let r = a % b;
            assert((c + 1) * b == b * c + b) by (nonlinear_arith);
            assert(a == b * c + r);
            assert(0 < r < b);
            vstd::arithmetic::div_mod::lemma_fundamental_div_mod_converse(
                a + b - 1,
                b,
                c + 1,
                r - 1,
            );
            assert(c < a) by (nonlinear_arith)
                requires
                    a == b * c + r,
                    0 < r < b,
                    c >= 0,
            ;
        }
        q + 1
    }
}

/// The accumulator of query row `i` after the pairs from `lo` up to `hi`.
pub open spec fn pair_part(
    k: arith::Calc,
    sc: PairScore,
    v: Seq<Seq<u64>>,
    d: nat,
    pairs: Seq<(usize, usize)>,
    i: int,
    eps: Eps,
) -> spec_fn(int, int) -> fold::Acc {
    |lo: int, hi: int| fold::folded(k, d, pair_rows(sc, v, pairs.subrange(lo, hi), i), eps)
}

/// Folds the pairs in parts, on as many threads as there are, and merges
/// the parts.
pub fn fold_parallel<
    S: Fn(usize, usize) -> u64 + Sync,
    F: Fn(Op, u64, u64) -> u64 + Sync,
>(
    n_q: usize,
    v: &Matrix<u64>,
    v_ok: &[bool],
    pairs: &[(usize, usize)],
    eps: Eps,
    score: &S,
    f: &F,
) -> (accs: Vec<RowAcc>)
    requires
        v.wf(),
        v_ok@.len() == v@.len(),
        forall|j: int| 0 <= j < v@.len() ==> #[trigger] v_ok@[j] == matrix::present(v@[j]),
        pairs@.len() > 0,
        forall|t: int|
            0 <= t < pairs@.len() ==> (#[trigger] pairs@[t]).0 < n_q && pairs@[t].1 < v@.len(),
        steady_scores(*score, n_q as int, v@.len() as int),
        arith::steady(*f),
    ensures
        accs@.len() == n_q,
        exists|c: Cut| #[trigger]
            valid_cut(c, pairs@.len() as int) && forall|i: int|
                0 <= i < n_q ==> (#[trigger] accs@[i])@ == cut_acc(
                    arith::computes(*f),
                    v.width(),
                    c,
                    pair_part(
                        arith::computes(*f),
                        scores(*score),
                        v@,
                        v.width(),
                        pairs@,
                        i,
                        eps,
                    ),
                    eps,
                ),
        all_wide(accs@, v.width()),
{
    let n: usize = pairs.len();
    let chunk: usize = chunk_size(n, thread_count());
    let bounds = part_bounds(n, chunk);
    let ghost k = arith::computes(*f);
    let ghost sc = scores(*score);
    let job = |lo: usize, hi: usize| -> (r: Vec<RowAcc>)
        requires
            lo <= hi <= pairs@.len(),
        ensures
            r@.len() == n_q,
            forall|i: int|
                0 <= i < n_q ==> (#[trigger] r@[i])@ == fold::folded(
                    arith::computes(*f),
                    v.width(),
                    pair_rows(scores(*score), v@, pairs@.subrange(lo as int, hi as int), i),
                    eps,
                ),
            all_wide(r@, v.width()),
        { fold_sequential(n_q, v, v_ok, pairs, lo, hi, eps, score, f) };
    let accs = reduce_parts(bounds.as_slice(), &job, n_q, v.ncols(), eps, f);
    proof {
        let (parts, b) = choose|parts: Seq<Vec<RowAcc>>, b: Bracket|
            parts.len() == bounds@.len() && (forall|t: int|
                0 <= t < bounds@.len() ==> call_ensures(job, bounds@[t], #[trigger] parts[t]))
                && #[trigger] in_order(b, 0, parts.len() as int) && (forall|i: int|
                0 <= i < accs@.len() ==> (#[trigger] accs@[i])@ == reduced(
                    k,
                    v.width(),
                    column(parts, i),
                    b,
                    eps,
                ));
        let c = Cut { bounds: bounds@, bracket: b };
        assert(valid_cut(c, n as int));
        assert forall|i: int| 0 <= i < n_q implies (#[trigger] accs@[i])@ == cut_acc(
            k,
            v.width(),
            c,
            pair_part(k, sc, v@, v.width(), pairs@, i, eps),
            eps,
        ) by {
            let part = pair_part(k, sc, v@, v.width(), pairs@, i, eps);
            let want = Seq::new(
                c.bounds.len(),
                |t: int| part(c.bounds[t].0 as int, c.bounds[t].1 as int),
            );
            assert forall|t: int| 0 <= t < parts.len() implies column(parts, i)[t] == want[t] by {
                assert(call_ensures(job, bounds@[t], parts[t]));
            }
            assert(column(parts, i) =~= want);
        }
        assert forall|i: int| 0 <= i < n_q implies (#[trigger] accs@[i]).u@.len() == v.width() by {
            assert forall|t: int| 0 <= t < parts.len() implies (#[trigger] column(
                parts,
                i,
            )[t]).u.len() == v.width() by {
                assert(call_ensures(job, bounds@[t], parts[t]));
                assert(parts[t]@[i].u@.len() == v.width());
            }
            lemma_reduced_width(k, v.width(), column(parts, i), b, 0, parts.len() as int, eps);
        }
    }
    accs
}

// ------------------------------------------------------- masked attention

/// True of a pair that names no row.
pub open spec fn strays(p: (usize, usize), n_q: int, n_k: int) -> bool {
    p.0 >= n_q || p.1 >= n_k
}

/// The first pair that names no row.
pub open spec fn first_stray(pairs: Seq<(usize, usize)>, n_q: int, n_k: int) -> Option<
    (usize, usize),
>
    decreases pairs.len(),
{
    if pairs.len() == 0 {
        None
    } else {
        match first_stray(pairs.drop_last(), n_q, n_k) {
            Some(p) => Some(p),
            None => if strays(pairs.last(), n_q, n_k) {
                Some(pairs.last())
            } else {
                None
            },
        }
    }
}

/// The complaint about a pair that names no row.
pub open spec fn stray_text(p: (usize, usize), n_q: nat, n_k: nat) -> Seq<char> {
    "mask pair ("@ + text::dec(p.0 as nat) + ", "@ + text::dec(p.1 as nat)
        + ") out of range for N_q = "@ + text::dec(n_q) + ", N_k = "@ + text::dec(n_k)
}

/// What is wrong with the arguments of a masked attention, if anything.
pub open spec fn mask_error(q: Shape, k: Shape, v_rows: nat, pairs: Seq<(usize, usize)>) -> Option<
    error::BruceErrorView,
> {
    if v_rows != k.rows {
        Some(error::BruceErrorView::DimensionMismatch(k.rows as nat, v_rows))
    } else if q.cols != k.cols {
        Some(error::BruceErrorView::DimensionMismatch(q.cols as nat, k.cols as nat))
    } else {
        match first_stray(pairs, q.rows as int, k.rows as int) {
            Some(p) => Some(
                error::BruceErrorView::InvalidArgument(
                    stray_text(p, q.rows as nat, k.rows as nat),
                ),
            ),
            None => None,
        }
    }
}

proof fn lemma_first_stray(pairs: Seq<(usize, usize)>, n_q: int, n_k: int)
    ensures
        first_stray(pairs, n_q, n_k) is None <==> forall|t: int|
            0 <= t < pairs.len() ==> !strays(#[trigger] pairs[t], n_q, n_k),
    decreases pairs.len(),
{
    if pairs.len() > 0 {
        let rest = pairs.drop_last();
        lemma_first_stray(rest, n_q, n_k);
        assert(pairs[pairs.len() - 1] == pairs.last());
        if first_stray(pairs, n_q, n_k) is None {
            assert forall|t: int| 0 <= t < pairs.len() implies !strays(
                #[trigger] pairs[t],
                n_q,
                n_k,
            ) by {
                if t < rest.len() {
                    assert(rest[t] == pairs[t]);
                }
            }
        } else if first_stray(rest, n_q, n_k) is Some {
            let t = choose|t: int| 0 <= t < rest.len() && strays(#[trigger] rest[t], n_q, n_k);
            assert(pairs[t] == rest[t]);
        }
    }
}

/// The answer rows: the output of each accumulator, or zeros and no
/// coverage where it holds nothing.
pub open spec fn answers(
    k: arith::Calc,
    d: nat,
    accs: Seq<fold::Acc>,
    out: Seq<Seq<u64>>,
    covered: Seq<bool>,
) -> bool {
    &&& out.len() == accs.len()
    &&& covered.len() == accs.len()
    &&& forall|i: int|
        0 <= i < accs.len() ==> #[trigger] covered[i] == (fold::output(k, accs[i]) is Some)
    &&& forall|i: int|
        0 <= i < accs.len() ==> #[trigger] out[i] == (match fold::output(k, accs[i]) {
            Some(row) => row,
            None => matrix::zeros(d),
        })
}

fn answer_rows<F: Fn(Op, u64, u64) -> u64>(accs: &Vec<RowAcc>, d_v: usize, f: &F) -> (r: (
    Matrix<u64>,
    Vec<bool>,
))
    requires
        arith::steady(*f),
        all_wide(accs@, d_v as nat),
    ensures
        r.0.wf(),
        r.0.width() == d_v,
        answers(arith::computes(*f), d_v as nat, accs_view(accs@), r.0@, r.1@),
{
    let ghost k = arith::computes(*f);
    let mut rows: Vec<Vec<u64>> = Vec::new();
    let mut covered: Vec<bool> = Vec::new();
    let mut i: usize = 0;
    while i < accs.len()
        invariant
            i <= accs@.len(),
            rows@.len() == i,
            covered@.len() == i,
            arith::steady(*f),
            k == arith::computes(*f),
            all_wide(accs@, d_v as nat),
            forall|t: int| 0 <= t < i ==> (#[trigger] rows@[t])@.len() == d_v,
            forall|t: int|
                0 <= t < i ==> #[trigger] covered@[t] == (fold::output(k, accs@[t]@) is Some),
            forall|t: int|
                0 <= t < i ==> (#[trigger] rows@[t])@ == (match fold::output(k, accs@[t]@) {
                    Some(row) => row,
                    None => matrix::zeros(d_v as nat),
                }),
        decreases accs.len() - i,
    {
        assert(accs@[i as int].u@.len() == d_v);
        match accs[i].finalize(f) {
            Some(row) => {
                covered.push(true);
                rows.push(row);
            },
            None => {
                covered.push(false);
                rows.push(zero_row(d_v));
            },
        }
        i += 1;
    }
    match Matrix::new(rows, d_v) {
        Some(m) => (m, covered),
        None => {
            assert(false);
            (Matrix::empty(d_v), covered)
        },
    }
}

/// For each value row, whether none of its components is NaN.
pub fn value_row_ok(v: &Matrix<u64>) -> (ok: Vec<bool>)
    ensures
        ok@.len() == v@.len(),
        forall|j: int| 0 <= j < v@.len() ==> #[trigger] ok@[j] == matrix::present(v@[j]),
{
    let mut ok: Vec<bool> = Vec::new();
    let mut j: usize = 0;
    while j < v.nrows()
        invariant
            j <= v@.len(),
            ok@.len() == j,
            forall|t: int| 0 <= t < j ==> #[trigger] ok@[t] == matrix::present(v@[t]),
        decreases v@.len() - j,
    {
        ok.push(is_present(v.row(j)));
        j += 1;
    }
    ok
}

/// The accumulators of all query rows under a cut.
pub open spec fn masked_accs(
    k: arith::Calc,
    sc: PairScore,
    v: Seq<Seq<u64>>,
    d: nat,
    pairs: Seq<(usize, usize)>,
    n_q: nat,
    c: Cut,
    eps: Eps,
) -> Seq<fold::Acc> {
    Seq::new(n_q, |i: int| cut_acc(k, d, c, pair_part(k, sc, v, d, pairs, i, eps), eps))
}

/// The outcome of a masked attention: every query row folded over its
/// pairs, in one pass or, from the threshold on, in parts.
pub open spec fn masked_outcome(
    k: arith::Calc,
    sc: PairScore,
    v: Seq<Seq<u64>>,
    d: nat,
    pairs: Seq<(usize, usize)>,
    n_q: nat,
    eps: Eps,
    out: Seq<Seq<u64>>,
    covered: Seq<bool>,
) -> bool {
    exists|c: Cut| #[trigger]
        valid_cut(c, pairs.len() as int) && (pairs.len() < PAIR_PARALLEL_THRESHOLD ==> c == whole(
            pairs.len() as int,
        )) && answers(k, d, masked_accs(k, sc, v, d, pairs, n_q, c, eps), out, covered)
}

/// Masked attention over a pair stream.
///
/// `q` and `k` are the shapes of the queries and keys, `v` holds the
/// values, `score` gives the score of a query row and a key row. Pairs are
/// taken as they come: one that comes twice counts twice.
///
/// Returns the output rows and, for each, whether it is covered: a row is
/// zero and not covered where no pair names it or all its pairs are NULL or
/// of no weight.
pub fn masked_attention<
    S: Fn(usize, usize) -> u64 + Sync,
    F: Fn(Op, u64, u64) -> u64 + Sync,
>(
    q: Shape,
    k: Shape,
    v: &Matrix<u64>,
    pairs: &[(usize, usize)],
    eps: Eps,
    score: &S,
    f: &F,
) -> (r: Result<(Matrix<u64>, Vec<bool>), BruceError>)
    requires
        v.wf(),
        mask_error(q, k, v@.len(), pairs@) is None ==> steady_scores(
            *score,
            q.rows as int,
            k.rows as int,
        ),
        arith::steady(*f),
    ensures
        match mask_error(q, k, v@.len(), pairs@) {
            Some(e) => error::fails(r, e),
            None => r matches Ok((out, covered)) && out.wf() && out.width() == v.width()
                && masked_outcome(
                arith::computes(*f),
                scores(*score),
                v@,
                v.width(),
                pairs@,
                q.rows as nat,
                eps,
                out@,
                covered@,
            ),
        },
{
    if v.nrows() != k.rows {
        return Err(BruceError::DimensionMismatch { expected: k.rows, got: v.nrows() });
    }
    if q.cols != k.cols {
        return Err(BruceError::DimensionMismatch { expected: q.cols, got: k.cols });
    }
    let n: usize = pairs.len();
    let mut t: usize = 0;
    while t < n
        invariant
            t <= n == pairs@.len(),
            v@.len() == k.rows,
            q.cols == k.cols,
            first_stray(pairs@.take(t as int), q.rows as int, k.rows as int) is None,
        decreases n - t,
    {
        let (i, j) = pairs[t];
        assert(pairs@.take(t + 1).drop_last() =~= pairs@.take(t as int));
        if i >= q.rows || j >= k.rows {
            let mut s = String::from_str("mask pair (");
            push_dec(&mut s, i as u64);
            s.append(", ");
            push_dec(&mut s, j as u64);
            s.append(") out of range for N_q = ");
            push_dec(&mut s, q.rows as u64);
            s.append(", N_k = ");
            push_dec(&mut s, k.rows as u64);
            proof {
                lemma_stray_found(pairs@, q.rows as int, k.rows as int, t as int);
                assert(s@ =~= stray_text((i, j), q.rows as nat, k.rows as nat));
            }
            return Err(BruceError::InvalidArgument(s));
        }
        t += 1;
    }
    proof {
        assert(pairs@.take(t as int) =~= pairs@);
        lemma_first_stray(pairs@, q.rows as int, k.rows as int);
        assert forall|x: int| 0 <= x < pairs@.len() implies (#[trigger] pairs@[x]).0 < q.rows
            && pairs@[x].1 < v@.len() by {
            assert(!strays(pairs@[x], q.rows as int, k.rows as int));
        }
    }
    let v_ok = value_row_ok(v);
    let ghost kc = arith::computes(*f);
    let ghost sc = scores(*score);
    if n < PAIR_PARALLEL_THRESHOLD {
        let accs = fold_sequential(q.rows, v, v_ok.as_slice(), pairs, 0, n, eps, score, f);
        let (out, covered) = answer_rows(&accs, v.ncols(), f);
        proof {
            let c = whole(n as int);
            assert(valid_cut(c, n as int));
            let want = masked_accs(kc, sc, v@, v.width(), pairs@, q.rows as nat, c, eps);
            assert forall|i: int| 0 <= i < q.rows implies accs_view(accs@)[i] == want[i] by {
                lemma_whole(
                    kc,
                    v.width(),
                    n as int,
                    pair_part(kc, sc, v@, v.width(), pairs@, i, eps),
                    eps,
                );
                assert(accs@[i]@ == fold::folded(
                    kc,
                    v.width(),
                    pair_rows(sc, v@, pairs@.subrange(0, n as int), i),
                    eps,
                ));
            }
            assert(accs_view(accs@) =~= want);
        }
        Ok((out, covered))
    } else {
        let accs = fold_parallel(q.rows, v, v_ok.as_slice(), pairs, eps, score, f);
        let (out, covered) = answer_rows(&accs, v.ncols(), f);
        proof {
            let c = choose|c: Cut| #[trigger]
                valid_cut(c, pairs@.len() as int) && forall|i: int|
                    0 <= i < q.rows ==> (#[trigger] accs@[i])@ == cut_acc(
                        kc,
                        v.width(),
                        c,
                        pair_part(kc, sc, v@, v.width(), pairs@, i, eps),
                        eps,
                    );
            assert(accs_view(accs@) =~= masked_accs(
                kc,
                sc,
                v@,
                v.width(),
                pairs@,
                q.rows as nat,
                c,
                eps,
            ));
        }
        Ok((out, covered))
    }
}

proof fn lemma_stray_found(pairs: Seq<(usize, usize)>, n_q: int, n_k: int, t: int)
    requires
        0 <= t < pairs.len(),
        first_stray(pairs.take(t), n_q, n_k) is None,
        strays(pairs[t], n_q, n_k),
    ensures
        first_stray(pairs, n_q, n_k) == Some(pairs[t]),
    decreases pairs.len(),
{
    if t == pairs.len() - 1 {
        assert(pairs.take(t) =~= pairs.drop_last());
    } else {
        let rest = pairs.drop_last();
        assert(rest.take(t) =~= pairs.take(t));
        lemma_stray_found(rest, n_q, n_k, t);
    }
}

// ------------------------------------------------------------ generators

/// The pairs of row `i` with the rows from `lo` up to and with itself.
pub open spec fn span_row(i: int, lo: int) -> Seq<(usize, usize)> {
    Seq::new((i - lo + 1) as nat, |t: int| (i as usize, (lo + t) as usize))
}

/// The first row that a window of `w` rows before row `i` reaches.
pub open spec fn window_start(i: int, w: int) -> int {
    if i < w {
        0
    } else {
        i - w
    }
}

/// The causal mask on `n` rows, row by row.
pub open spec fn causal(n: nat) -> Seq<(usize, usize)>
    decreases n,
{
    if n == 0 {
        Seq::empty()
    } else {
        causal((n - 1) as nat) + span_row(n - 1, 0)
    }
}

/// The sliding-window mask on `n` rows, row by row.
pub open spec fn window(n: nat, w: int) -> Seq<(usize, usize)>
    decreases n,
{
    if n == 0 {
        Seq::empty()
    } else {
        window((n - 1) as nat, w) + span_row(n - 1, window_start(n - 1, w))
    }
}

fn push_span(p: &mut Vec<(usize, usize)>, i: usize, lo: usize)
    requires
        lo <= i,
    ensures
        final(p)@ == old(p)@ + span_row(i as int, lo as int),
{
    let mut j: usize = lo;
    while j < i
        invariant
            lo <= j <= i,
            p@ == old(p)@ + span_row(i as int, lo as int).take(j - lo),
        decreases i - j,
    {
        p.push((i, j));
        j += 1;
        assert(p@ =~= old(p)@ + span_row(i as int, lo as int).take(j - lo));
    }
    p.push((i, i));
    assert(p@ =~= old(p)@ + span_row(i as int, lo as int));
}

/// The causal mask `{(i, j) : j <= i}` on `n` rows, in row-major order.
pub fn causal_pairs(n: usize) -> (p: Vec<(usize, usize)>)
    ensures
        p@ == causal(n as nat),
{
    let mut p: Vec<(usize, usize)> = Vec::new();
    let mut i: usize = 0;
    while i < n
        invariant
            i <= n,
            p@ == causal(i as nat),
        decreases n - i,
    {
        push_span(&mut p, i, 0);
        i += 1;
    }
    p
}

/// The sliding-window mask `{(i, j) : 0 <= i - j <= w}` on `n` rows.
pub fn window_pairs(n: usize, w: usize) -> (p: Vec<(usize, usize)>)
    ensures
        p@ == window(n as nat, w as int),
{
    let mut p: Vec<(usize, usize)> = Vec::new();
    let mut i: usize = 0;
    while i < n
        invariant
            i <= n,
            p@ == window(i as nat, w as int),
        decreases n - i,
    {
        let lo: usize = if i < w {
            0
        } else {
            i - w
        };
        push_span(&mut p, i, lo);
        i += 1;
    }
    p
}

/// The window mask holds exactly the pairs at most `w` rows apart, the
/// second not after the first.
pub proof fn window_holds_the_near_pairs(n: nat, w: int, i: usize, j: usize)
    requires
        n <= usize::MAX,
        w >= 0,
    ensures
        window(n, w).contains((i, j)) <==> i < n && 0 <= i - j <= w,
    decreases n,
{
    if n > 0 {
        let m = (n - 1) as nat;
        window_holds_the_near_pairs(m, w, i, j);
        let p = window(m, w);
        let lo = window_start(m as int, w);
        let r = span_row(m as int, lo);
        let q = window(n, w);
        if q.contains((i, j)) {
            let t = q.index_of((i, j));
            if t < p.len() {
                assert(p[t] == (i, j));
                assert(p.contains((i, j)));
            } else {
                assert(r[t - p.len()] == (i, j));
            }
        }
        if i < n && 0 <= i - j <= w {
            if i == m {
                assert(r[j - lo] == (i, j));
                assert(q[p.len() + (j - lo)] == (i, j));
            } else {
                assert(p.contains((i, j)));
                assert(q[p.index_of((i, j))] == (i, j));
            }
        }
    }
}

/// No pair comes twice in a window mask.
pub proof fn window_holds_no_pair_twice(n: nat, w: int)
    requires
        n <= usize::MAX,
        w >= 0,
    ensures
        window(n, w).no_duplicates(),
    decreases n,
{
    if n > 0 {
        let m = (n - 1) as nat;
        window_holds_no_pair_twice(m, w);
        let p = window(m, w);
        let r = span_row(m as int, window_start(m as int, w));
        let q = window(n, w);
        assert forall|s: int, t: int| 0 <= s < q.len() && 0 <= t < q.len() && s != t implies q[s]
            != q[t] by {
            if s < p.len() {
                assert(p.contains(p[s]));
                window_holds_the_near_pairs(m, w, p[s].0, p[s].1);
            } else {
                assert(q[s] == r[s - p.len()]);
            }
            if t < p.len() {
                assert(p.contains(p[t]));
                window_holds_the_near_pairs(m, w, p[t].0, p[t].1);
            } else {
                assert(q[t] == r[t - p.len()]);
            }
        }
    }
}

/// A window as wide as the rows are many is the causal mask.
pub proof fn widest_window_is_causal(n: nat, w: int)
    requires
        n <= w + 1,
    ensures
        window(n, w) == causal(n),
    decreases n,
{
    if n > 0 {
        widest_window_is_causal((n - 1) as nat, w);
    }
}

/// The causal mask on `n` rows holds `n (n + 1) / 2` pairs.
pub proof fn causal_holds_half_the_square(n: nat)
    ensures
        2 * causal(n).len() == n * (n + 1),
    decreases n,
{
    if n > 0 {
        let m = (n - 1) as nat;
        causal_holds_half_the_square(m);
        assert(causal(n).len() == causal(m).len() + n);
        assert(n * (n + 1) == m * (m + 1) + 2 * n) by (nonlinear_arith)
            requires
                n == m + 1,
        ;
    } else {
        assert(n * (n + 1) == 0) by (nonlinear_arith)
            requires
                n == 0,
        ;
    }
}

/// A window of width `w` on `n` rows holds at most `n (w + 1)` pairs.
pub proof fn window_holds_at_most_its_width_per_row(n: nat, w: nat)
    ensures
        window(n, w as int).len() <= n * (w + 1),
    decreases n,
{
    if n > 0 {
        let m = (n - 1) as nat;
        window_holds_at_most_its_width_per_row(m, w);
        assert(n * (w + 1) == m * (w + 1) + (w + 1)) by (nonlinear_arith)
            requires
                n == m + 1,
        ;
    }
}

// --------------------------------------------------- grouped soft-average

/// The score of each row.
pub type RowScore = spec_fn(usize) -> u64;

/// What `f` scores each row.
pub open spec fn row_scores<F: Fn(usize) -> u64>(f: F) -> RowScore {
    |r: usize| choose|s: u64| call_ensures(f, (r,), s)
}

/// `f` scores each of the first `n` rows as `sc` has it.
pub open spec fn scores_as<F: Fn(usize) -> u64>(f: F, sc: RowScore, n: nat) -> bool {
    &&& forall|r: usize| r < n ==> #[trigger] call_requires(f, (r,))
    &&& forall|r: usize, s: u64| r < n && #[trigger] call_ensures(f, (r,), s) ==> s == sc(r)
}

/// `f` scores each of the first `n` rows, and the same row always the same.
pub open spec fn steady_rows<F: Fn(usize) -> u64>(f: F, n: nat) -> bool {
    &&& forall|r: usize| r < n ==> #[trigger] call_requires(f, (r,))
    &&& forall|r: usize, x: u64, y: u64|
        r < n && #[trigger] call_ensures(f, (r,), x) && #[trigger] call_ensures(f, (r,), y) ==> x
            == y
}

/// True where row `r` is selected.
pub open spec fn selected(sel: Option<Seq<bool>>, r: int) -> bool {
    match sel {
        Some(s) => s[r],
        None => true,
    }
}

/// The rows from `lo` up to `hi` that group `g` takes in: score and value
/// of each selected row that is not NULL, in order.
pub open spec fn group_rows(
    sc: RowScore,
    v: Seq<Seq<u64>>,
    gid: Seq<u32>,
    sel: Option<Seq<bool>>,
    lo: int,
    hi: int,
    g: int,
) -> Seq<(u64, Seq<u64>)>
    decreases hi - lo,
{
    if hi <= lo {
        Seq::empty()
    } else {
        let rest = group_rows(sc, v, gid, sel, lo, hi - 1, g);
        let r = hi - 1;
        let s = sc(r as usize);
        if gid[r] == g && selected(sel, r) && !bits::nan(s) && matrix::present(v[r]) {
            rest.push((s, v[r]))
        } else {
            rest
        }
    }
}

/// The view of an optional selection.
pub open spec fn sel_view(sel: Option<&[bool]>) -> Option<Seq<bool>> {
    match sel {
        Some(s) => Some(s@),
        None => None,
    }
}

/// The largest group id.
pub open spec fn largest(gid: Seq<u32>) -> u32
    decreases gid.len(),
{
    if gid.len() == 0 {
        0
    } else {
        let m = largest(gid.drop_last());
        if m < gid.last() {
            gid.last()
        } else {
            m
        }
    }
}

proof fn lemma_largest(gid: Seq<u32>, r: int)
    requires
        0 <= r < gid.len(),
    ensures
        gid[r] <= largest(gid),
    decreases gid.len(),
{
    if r < gid.len() - 1 {
        lemma_largest(gid.drop_last(), r);
        assert(gid.drop_last()[r] == gid[r]);
    }
}

/// What is wrong with the arguments of a grouped soft-average, if anything.
pub open spec fn group_error(
    x_len: nat,
    k: Shape,
    v_rows: nat,
    gid: Seq<u32>,
    n_groups: nat,
    sel: Option<Seq<bool>>,
) -> Option<error::BruceErrorView> {
    let n = k.rows as nat;
    if v_rows != n {
        Some(error::BruceErrorView::DimensionMismatch(n, v_rows))
    } else if k.cols != x_len {
        Some(error::BruceErrorView::DimensionMismatch(x_len, k.cols as nat))
    } else if gid.len() != n {
        Some(error::BruceErrorView::DimensionMismatch(n, gid.len()))
    } else if sel is Some && sel->0.len() != n {
        Some(error::BruceErrorView::DimensionMismatch(n, sel->0.len()))
    } else if gid.len() > 0 && largest(gid) >= n_groups {
        Some(error::BruceErrorView::DimensionMismatch(n_groups, (largest(gid) + 1) as nat))
    } else {
        None
    }
}

/// Every group id has a successor among the sizes that this machine can
/// express.
pub open spec fn ids_fit(gid: Seq<u32>) -> bool {
    largest(gid) < usize::MAX
}

/// Folds the rows from `lo` up to `hi` into their groups.
fn fold_range<S: Fn(usize) -> u64, F: Fn(Op, u64, u64) -> u64>(
    v: &Matrix<u64>,
    gid: &[u32],
    n_groups: usize,
    sel: Option<&[bool]>,
    lo: usize,
    hi: usize,
    eps: Eps,
    score: &S,
    f: &F,
    sc: Ghost<RowScore>,
) -> (accs: Vec<RowAcc>)
    requires
        v.wf(),
        gid@.len() == v@.len(),
        forall|r: int| 0 <= r < gid@.len() ==> #[trigger] gid@[r] < n_groups,
        sel matches Some(s) ==> s@.len() == v@.len(),
        lo <= hi <= v@.len(),
        scores_as(*score, sc@, v@.len()),
        arith::steady(*f),
    ensures
        accs@.len() == n_groups,
        forall|g: int|
            0 <= g < n_groups ==> (#[trigger] accs@[g])@ == fold::folded(
                arith::computes(*f),
                v.width(),
                group_rows(sc@, v@, gid@, sel_view(sel), lo as int, hi as int, g),
                eps,
            ),
        all_wide(accs@, v.width()),
{
    let ghost k = arith::computes(*f);
    let mut accs = vacant_rows(n_groups, v.ncols());
    let mut r: usize = lo;
    while r < hi
        invariant
            v.wf(),
            gid@.len() == v@.len(),
            forall|x: int| 0 <= x < gid@.len() ==> #[trigger] gid@[x] < n_groups,
            sel matches Some(s) ==> s@.len() == v@.len(),
            lo <= r <= hi <= v@.len(),
            scores_as(*score, sc@, v@.len()),
            arith::steady(*f),
            k == arith::computes(*f),
            accs@.len() == n_groups,
            forall|g: int|
                0 <= g < n_groups ==> (#[trigger] accs@[g])@ == fold::folded(
                    k,
                    v.width(),
                    group_rows(sc@, v@, gid@, sel_view(sel), lo as int, r as int, g),
                    eps,
                ),
            all_wide(accs@, v.width()),
        decreases hi - r,
    {
        let chosen = match sel {
            Some(s) => s[r],
            None => true,
        };
        let ghost old_accs = accs@;
        let ghost sv = sel_view(sel);
        assert(gid@[r as int] < n_groups);
        if chosen {
            let s: u64 = score(r);
            if !is_nan(s) && is_present(v.row(r)) {
                let g: usize = gid[r] as usize;
                assert(v@[r as int].len() == v.width());
                assert(old_accs[g as int].u@.len() == v.width());
                accs[g].absorb(s, v.row(r), eps, f);
                proof {
                    let before = group_rows(sc@, v@, gid@, sv, lo as int, r as int, g as int);
                    let after = group_rows(sc@, v@, gid@, sv, lo as int, r + 1, g as int);
                    assert(after == before.push((s, v@[r as int])));
                    assert(after.drop_last() =~= before);
                }
            }
        }
        assert forall|g: int| 0 <= g < n_groups implies (#[trigger] accs@[g])@ == fold::folded(
            k,
            v.width(),
            group_rows(sc@, v@, gid@, sv, lo as int, r + 1, g),
            eps,
        ) && accs@[g].u@.len() == v.width() by {
            assert(old_accs[g].u@.len() == v.width());
            if g != gid@[r as int] {
                assert(accs@[g] == old_accs[g]);
            }
        }
        r += 1;
    }
    accs
}

/// The accumulator of group `g` after the rows from `lo` up to `hi`.
pub open spec fn group_part(
    k: arith::Calc,
    sc: RowScore,
    v: Seq<Seq<u64>>,
    d: nat,
    gid: Seq<u32>,
    sel: Option<Seq<bool>>,
    g: int,
    eps: Eps,
) -> spec_fn(int, int) -> fold::Acc {
    |lo: int, hi: int| fold::folded(k, d, group_rows(sc, v, gid, sel, lo, hi, g), eps)
}

/// The accumulators of all groups under a cut.
pub open spec fn grouped_accs(
    k: arith::Calc,
    sc: RowScore,
    v: Seq<Seq<u64>>,
    d: nat,
    gid: Seq<u32>,
    sel: Option<Seq<bool>>,
    n_groups: nat,
    c: Cut,
    eps: Eps,
) -> Seq<fold::Acc> {
    Seq::new(n_groups, |g: int| cut_acc(k, d, c, group_part(k, sc, v, d, gid, sel, g, eps), eps))
}

/// The outcome of a grouped soft-average: every group folded over its
/// rows, in one pass or, from the threshold on, in parts.
pub open spec fn grouped_outcome(
    k: arith::Calc,
    sc: RowScore,
    v: Seq<Seq<u64>>,
    d: nat,
    gid: Seq<u32>,
    sel: Option<Seq<bool>>,
    n_groups: nat,
    eps: Eps,
    out: Seq<Seq<u64>>,
    covered: Seq<bool>,
) -> bool {
    exists|c: Cut| #[trigger]
        valid_cut(c, v.len() as int) && (v.len() < PAIR_PARALLEL_THRESHOLD ==> c == whole(
            v.len() as int,
        )) && answers(k, d, grouped_accs(k, sc, v, d, gid, sel, n_groups, c, eps), out, covered)
}

/// The largest group id.
fn largest_id(gid: &[u32]) -> (m: u32)
    ensures
        m == largest(gid@),
{
    let mut m: u32 = 0;
    let mut r: usize = 0;
    while r < gid.len()
        invariant
            r <= gid@.len(),
            m == largest(gid@.take(r as int)),
        decreases gid.len() - r,
    {
        assert(gid@.take(r + 1).drop_last() =~= gid@.take(r as int));
        if m < gid[r] {
            m = gid[r];
        }
        r += 1;
    }
    assert(gid@.take(r as int) =~= gid@);
    m
}

/// Checks the arguments of a grouped soft-average.
fn check_groups(
    x_len: usize,
    k: Shape,
    v_rows: usize,
    gid: &[u32],
    n_groups: usize,
    sel: Option<&[bool]>,
) -> (r: Result<(), BruceError>)
    requires
        ids_fit(gid@),
    ensures
        match group_error(
            x_len as nat,
            k,
            v_rows as nat,
            gid@,
            n_groups as nat,
            sel_view(sel),
        ) {
            Some(e) => error::fails(r, e),
            None => r is Ok,
        },
{
    let n: usize = k.rows;
    if v_rows != n {
        return Err(BruceError::DimensionMismatch { expected: n, got: v_rows });
    }
    if k.cols != x_len {
        return Err(BruceError::DimensionMismatch { expected: x_len, got: k.cols });
    }
    if gid.len() != n {
        return Err(BruceError::DimensionMismatch { expected: n, got: gid.len() });
    }
    if let Some(s) = sel {
        if s.len() != n {
            return Err(BruceError::DimensionMismatch { expected: n, got: s.len() });
        }
    }
    if gid.len() > 0 {
        let g: usize = largest_id(gid) as usize;
        if g >= n_groups {
            return Err(BruceError::DimensionMismatch { expected: n_groups, got: g + 1 });
        }
    }
    Ok(())
}

/// Folds all rows into their groups.
fn grouped_fold<
    S: Fn(usize) -> u64 + Sync,
    F: Fn(Op, u64, u64) -> u64 + Sync,
>(
    v: &Matrix<u64>,
    gid: &[u32],
    n_groups: usize,
    sel: Option<&[bool]>,
    eps: Eps,
    score: &S,
    f: &F,
    sc: Ghost<RowScore>,
) -> (r: (Matrix<u64>, Vec<bool>))
    requires
        v.wf(),
        gid@.len() == v@.len(),
        forall|x: int| 0 <= x < gid@.len() ==> #[trigger] gid@[x] < n_groups,
        sel matches Some(s) ==> s@.len() == v@.len(),
        scores_as(*score, sc@, v@.len()),
        arith::steady(*f),
    ensures
        r.0.wf(),
        r.0.width() == v.width(),
        grouped_outcome(
            arith::computes(*f),
            sc@,
            v@,
            v.width(),
            gid@,
            sel_view(sel),
            n_groups as nat,
            eps,
            r.0@,
            r.1@,
        ),
{
    let n: usize = v.nrows();
    let ghost k = arith::computes(*f);
    let ghost sv = sel_view(sel);
    if n < PAIR_PARALLEL_THRESHOLD {
        let accs = fold_range(v, gid, n_groups, sel, 0, n, eps, score, f, sc);
        let r = answer_rows(&accs, v.ncols(), f);
        proof {
            let c = whole(n as int);
            assert(valid_cut(c, n as int));
            let want = grouped_accs(k, sc@, v@, v.width(), gid@, sv, n_groups as nat, c, eps);
            assert forall|g: int| 0 <= g < n_groups implies accs_view(accs@)[g] == want[g] by {
                lemma_whole(
                    k,
                    v.width(),
                    n as int,
                    group_part(k, sc@, v@, v.width(), gid@, sv, g, eps),
                    eps,
                );
                assert(accs@[g]@ == fold::folded(
                    k,
                    v.width(),
                    group_rows(sc@, v@, gid@, sv, 0, n as int, g),
                    eps,
                ));
            }
            assert(accs_view(accs@) =~= want);
        }
        r
    } else {
        let chunk: usize = chunk_size(n, thread_count());
        let bounds = part_bounds(n, chunk);
        let job = |lo: usize, hi: usize| -> (r: Vec<RowAcc>)
            requires
                lo <= hi <= v@.len(),
            ensures
                r@.len() == n_groups,
                forall|g: int|
                    0 <= g < n_groups ==> (#[trigger] r@[g])@ == fold::folded(
                        arith::computes(*f),
                        v.width(),
                        group_rows(sc@, v@, gid@, sel_view(sel), lo as int, hi as int, g),
                        eps,
                    ),
                all_wide(r@, v.width()),
            { fold_range(v, gid, n_groups, sel, lo, hi, eps, score, f, sc) };
        let accs = reduce_parts(bounds.as_slice(), &job, n_groups, v.ncols(), eps, f);
        proof {
            let (parts, b) = choose|parts: Seq<Vec<RowAcc>>, b: Bracket|
                parts.len() == bounds@.len() && (forall|t: int|
                    0 <= t < bounds@.len() ==> call_ensures(job, bounds@[t], #[trigger] parts[t]))
                    && #[trigger] in_order(b, 0, parts.len() as int) && (forall|i: int|
                    0 <= i < accs@.len() ==> (#[trigger] accs@[i])@ == reduced(
                        k,
                        v.width(),
                        column(parts, i),
                        b,
                        eps,
                    ));
            let c = Cut { bounds: bounds@, bracket: b };
            assert(valid_cut(c, n as int));
            let want = grouped_accs(k, sc@, v@, v.width(), gid@, sv, n_groups as nat, c, eps);
            assert forall|g: int| 0 <= g < n_groups implies (#[trigger] accs@[g])@ == want[g]
                && accs@[g].u@.len() == v.width() by {
                let part = group_part(k, sc@, v@, v.width(), gid@, sv, g, eps);
                let each = Seq::new(
                    c.bounds.len(),
                    |t: int| part(c.bounds[t].0 as int, c.bounds[t].1 as int),
                );
                assert forall|t: int| 0 <= t < parts.len() implies column(parts, g)[t] == each[t]
                    && (#[trigger] column(parts, g)[t]).u.len() == v.width() by {
                    assert(call_ensures(job, bounds@[t], parts[t]));
                    assert(parts[t]@[g].u@.len() == v.width());
                }
                assert(column(parts, g) =~= each);
                lemma_reduced_width(k, v.width(), column(parts, g), b, 0, parts.len() as int, eps);
            }
            assert(accs_view(accs@) =~= want);
        }
        answer_rows(&accs, v.ncols(), f)
    }
}

/// Grouped soft-average: per group, the mean of the values weighted by
/// `e^(score / eps)`, over the selected rows, in one scan.
///
/// `k` is the shape of the keys and `x_len` the length of the query;
/// `score` gives the score of a row; `gid` holds the group of each row, and
/// `sel`, where given, the rows that an exact filter admits.
///
/// A row whose score or value holds a NaN is skipped in every regime. A
/// group is zero and not covered where no row of weight is left.
pub fn grouped_softavg<
    S: Fn(usize) -> u64 + Sync,
    F: Fn(Op, u64, u64) -> u64 + Sync,
>(
    x_len: usize,
    k: Shape,
    v: &Matrix<u64>,
    gid: &[u32],
    n_groups: usize,
    sel: Option<&[bool]>,
    eps: Eps,
    score: &S,
    f: &F,
) -> (r: Result<(Matrix<u64>, Vec<bool>), BruceError>)
    requires
        v.wf(),
        ids_fit(gid@),
        steady_rows(*score, k.rows as nat),
        arith::steady(*f),
    ensures
        match group_error(x_len as nat, k, v@.len(), gid@, n_groups as nat, sel_view(sel)) {
            Some(e) => error::fails(r, e),
            None => r matches Ok((out, covered)) && out.wf() && out.width() == v.width()
                && grouped_outcome(
                arith::computes(*f),
                row_scores(*score),
                v@,
                v.width(),
                gid@,
                sel_view(sel),
                n_groups as nat,
                eps,
                out@,
                covered@,
            ),
        },
{
    check_groups(x_len, k, v.nrows(), gid, n_groups, sel)?;
    proof {
        assert forall|r: int| 0 <= r < gid@.len() implies #[trigger] gid@[r] < n_groups by {
            lemma_largest(gid@, r);
        }
    }
    Ok(
        grouped_fold(
            v,
            gid,
            n_groups,
            sel,
            eps,
            score,
            f,
            Ghost(row_scores(*score)),
        ),
    )
}

// ----------------------------------------------- single-precision scoring

/// One of four partial sums: every fourth product from `lane` on.
pub open spec fn lane_sum(g: arith::Calc32, a: Seq<u32>, b: Seq<u32>, lane: int, m: nat) -> u32
    decreases m,
{
    if m == 0 {
        0
    } else {
        let c = 4 * (m - 1) + lane;
        g(Op::Plus, lane_sum(g, a, b, lane, (m - 1) as nat), g(Op::Times, a[c], b[c]))
    }
}

/// A partial sum with the products from `lo` up to `hi` added.
pub open spec fn tail_sum(
    g: arith::Calc32,
    a: Seq<u32>,
    b: Seq<u32>,
    acc: u32,
    lo: int,
    hi: int,
) -> u32
    decreases hi - lo,
{
    if hi <= lo {
        acc
    } else {
        g(
            Op::Plus,
            tail_sum(g, a, b, acc, lo, hi - 1),
            g(Op::Times, a[hi - 1], b[hi - 1]),
        )
    }
}

/// The inner product in four partial sums, the rest going to the first.
pub open spec fn dot_four(g: arith::Calc32, a: Seq<u32>, b: Seq<u32>) -> u32 {
    let m = (a.len() / 4) as nat;
    let first = tail_sum(g, a, b, lane_sum(g, a, b, 0, m), 4 * m as int, a.len() as int);
    g(
        Op::Plus,
        g(Op::Plus, first, lane_sum(g, a, b, 1, m)),
        g(Op::Plus, lane_sum(g, a, b, 2, m), lane_sum(g, a, b, 3, m)),
    )
}

/// Single-precision inner product with four partial sums.
pub fn dot_f32<G: Fn(Op, u32, u32) -> u32>(a: &[u32], b: &[u32], g: &G) -> (r: u32)
    requires
        a@.len() == b@.len(),
        arith::steady(*g),
    ensures
        r == dot_four(arith::computes(*g), a@, b@),
{
    let ghost k = arith::computes(*g);
    let n: usize = a.len();
    let m: usize = n / 4;
    let mut acc0: u32 = 0;
    let mut acc1: u32 = 0;
    let mut acc2: u32 = 0;
    let mut acc3: u32 = 0;
    let mut t: usize = 0;
    while t < m
        invariant
            t <= m,
            4 * m <= n,
            n == a@.len(),
            n == b@.len(),
            arith::steady(*g),
            k == arith::computes(*g),
            acc0 == lane_sum(k, a@, b@, 0, t as nat),
            acc1 == lane_sum(k, a@, b@, 1, t as nat),
            acc2 == lane_sum(k, a@, b@, 2, t as nat),
            acc3 == lane_sum(k, a@, b@, 3, t as nat),
        decreases m - t,
    {
        let c: usize = 4 * t;
        let p0: u32 = apply_op(g, Op::Times, a[c], b[c]);
        let p1: u32 = apply_op(g, Op::Times, a[c + 1], b[c + 1]);
        let p2: u32 = apply_op(g, Op::Times, a[c + 2], b[c + 2]);
        let p3: u32 = apply_op(g, Op::Times, a[c + 3], b[c + 3]);
        acc0 = apply_op(g, Op::Plus, acc0, p0);
        acc1 = apply_op(g, Op::Plus, acc1, p1);
        acc2 = apply_op(g, Op::Plus, acc2, p2);
        acc3 = apply_op(g, Op::Plus, acc3, p3);
        t += 1;
    }
    let ghost lane = acc0;
    let mut c: usize = 4 * m;
    while c < n
        invariant
            4 * m <= c <= n,
            n == a@.len(),
            n == b@.len(),
            arith::steady(*g),
            k == arith::computes(*g),
            acc0 == tail_sum(k, a@, b@, lane, 4 * m as int, c as int),
        decreases n - c,
    {
        let p: u32 = apply_op(g, Op::Times, a[c], b[c]);
        acc0 = apply_op(g, Op::Plus, acc0, p);
        c += 1;
    }
    let x: u32 = apply_op(g, Op::Plus, acc0, acc1);
    let y: u32 = apply_op(g, Op::Plus, acc2, acc3);
    apply_op(g, Op::Plus, x, y)
}

/// The score of each row: the single-precision inner product of the query
/// with its key, widened once.
pub open spec fn narrow_scores(
    k: arith::Calc,
    g: arith::Calc32,
    x: Seq<u32>,
    keys: Seq<Seq<u32>>,
) -> RowScore {
    |r: usize| k(Op::Widen, dot_four(g, x, keys[r as int]) as u64, 0)
}

/// Variant of the grouped soft-average with single-precision keys and
/// scoring: the inner product is taken in single precision (`g`), the score
/// is widened once per row, and everything after is as in
/// `grouped_softavg`.
pub fn grouped_softavg_f32<
    G: Fn(Op, u32, u32) -> u32 + Sync,
    F: Fn(Op, u64, u64) -> u64 + Sync,
>(
    x: &[u32],
    k: &Matrix<u32>,
    v: &Matrix<u64>,
    gid: &[u32],
    n_groups: usize,
    sel: Option<&[bool]>,
    eps: Eps,
    g: &G,
    f: &F,
) -> (r: Result<(Matrix<u64>, Vec<bool>), BruceError>)
    requires
        k.wf(),
        v.wf(),
        ids_fit(gid@),
        arith::steady(*g),
        arith::steady(*f),
    ensures
        match group_error(
            x@.len(),
            Shape { rows: k@.len() as usize, cols: k.width() as usize },
            v@.len(),
            gid@,
            n_groups as nat,
            sel_view(sel),
        ) {
            Some(e) => error::fails(r, e),
            None => r matches Ok((out, covered)) && out.wf() && out.width() == v.width()
                && grouped_outcome(
                arith::computes(*f),
                narrow_scores(arith::computes(*f), arith::computes(*g), x@, k@),
                v@,
                v.width(),
                gid@,
                sel_view(sel),
                n_groups as nat,
                eps,
                out@,
                covered@,
            ),
        },
{
    let shape = Shape { rows: k.nrows(), cols: k.ncols() };
    check_groups(x.len(), shape, v.nrows(), gid, n_groups, sel)?;
    proof {
        assert forall|r: int| 0 <= r < gid@.len() implies #[trigger] gid@[r] < n_groups by {
            lemma_largest(gid@, r);
        }
    }
    let score = |r: usize| -> (s: u64)
        requires
            r < k@.len(),
        ensures
            s == narrow_scores(arith::computes(*f), arith::computes(*g), x@, k@)(r),
        {
            assert(k@[r as int].len() == k.width());
            let d: u32 = dot_f32(x, k.row(r), g);
            apply_op(f, Op::Widen, d as u64, 0)
        };
    Ok(
        grouped_fold(
            v,
            gid,
            n_groups,
            sel,
            eps,
            &score,
            f,
            Ghost(narrow_scores(arith::computes(*f), arith::computes(*g), x@, k@)),
        ),
    )
}

// ------------------------------------------------------------------ laws

/// The rows of a range.
pub type RangeRows = spec_fn(int, int) -> Seq<(u64, Seq<u64>)>;

/// Some row of the list carries weight.
pub open spec fn heavy(rows: Seq<(u64, Seq<u64>)>, eps: Eps) -> bool {
    exists|i: int| 0 <= i < rows.len() && fold::weighs((#[trigger] rows[i]).0, eps)
}

/// The rows of every range are scored and no more than its items.
pub open spec fn lawful_ranges(rows: RangeRows, n: int) -> bool {
    forall|lo: int, hi: int|
        0 <= lo <= hi <= n ==> fold::scored(#[trigger] rows(lo, hi)) && rows(lo, hi).len() <= hi
            - lo
}

proof fn lemma_consecutive(bounds: Seq<(usize, usize)>, n: int, s: int, t: int)
    requires
        consecutive(bounds, n),
        0 <= s <= t < bounds.len(),
    ensures
        bounds[s].0 <= bounds[t].0,
        bounds[s].1 <= bounds[t].1,
    decreases t - s,
{
    if s < t {
        lemma_consecutive(bounds, n, s, t - 1);
        assert(bounds[t - 1].1 == bounds[t - 1 + 1].0);
        assert(bounds[t - 1].0 <= bounds[t - 1].1);
        assert(bounds[t].0 <= bounds[t].1);
    }
}

proof fn lemma_bracket_covered(
    k: arith::Calc,
    d: nat,
    bounds: Seq<(usize, usize)>,
    b: Bracket,
    lo: int,
    rows: RangeRows,
    n: int,
    eps: Eps,
)
    requires
        fold::keeps_count(k, eps),
        consecutive(bounds, n),
        0 <= n <= fold::countable(),
        lawful_ranges(rows, n),
        numbered(b, lo),
        0 <= lo,
        lo + size(b) <= bounds.len(),
    ensures
        ({
            let parts = Seq::new(
                bounds.len(),
                |t: int| fold::folded(k, d, rows(bounds[t].0 as int, bounds[t].1 as int), eps),
            );
            let a = reduced(k, d, parts, b, eps);
            &&& !a.is_vacant() <==> exists|t: int|
                lo <= t < lo + size(b) && #[trigger] heavy(
                    rows(bounds[t].0 as int, bounds[t].1 as int),
                    eps,
                )
            &&& fold::proper(
                k,
                a,
                if size(b) == 0 {
                    0
                } else {
                    (bounds[lo + size(b) - 1].1 - bounds[lo].0) as nat
                },
                eps,
            )
        }),
    decreases b,
{
    let parts = Seq::new(
        bounds.len(),
        |t: int| fold::folded(k, d, rows(bounds[t].0 as int, bounds[t].1 as int), eps),
    );
    let a = reduced(k, d, parts, b, eps);
    match b {
        Bracket::Unit => {
            assert(fold::vacant(d).is_vacant());
        },
        Bracket::Part(t) => {
            let (p, q) = (bounds[t].0 as int, bounds[t].1 as int);
            assert(bounds[t].0 <= bounds[t].1 <= n);
            let rs = rows(p, q);
            fold::lemma_covered(k, d, rs, eps);
            assert(a == fold::folded(k, d, rs, eps));
            assert(fold::vacant(d).is_vacant());
            if heavy(rs, eps) {
                assert(heavy(rows(bounds[t].0 as int, bounds[t].1 as int), eps));
            }
            fold::lemma_proper_grows(k, a, rs.len(), (q - p) as nat, eps);
        },
        Bracket::Both(x, y) => {
            let mid = lo + size(*x);
            lemma_bracket_covered(k, d, bounds, *x, lo, rows, n, eps);
            lemma_bracket_covered(k, d, bounds, *y, mid, rows, n, eps);
            let (ax, ay) = (reduced(k, d, parts, *x, eps), reduced(k, d, parts, *y, eps));
            let nx = if size(*x) == 0 {
                0
            } else {
                (bounds[mid - 1].1 - bounds[lo].0) as nat
            };
            let end = mid + size(*y);
            let ny = if size(*y) == 0 {
                0
            } else {
                (bounds[end - 1].1 - bounds[mid].0) as nat
            };
            if size(*x) > 0 {
                lemma_consecutive(bounds, n, lo, mid - 1);
                assert(bounds[mid - 1].1 <= n && bounds[lo].0 <= bounds[lo].1);
            }
            if size(*y) > 0 {
                lemma_consecutive(bounds, n, mid, end - 1);
                assert(bounds[end - 1].1 <= n && bounds[mid].0 <= bounds[mid].1);
            }
            if size(*x) > 0 && size(*y) > 0 {
                assert(bounds[mid - 1].1 == bounds[mid - 1 + 1].0);
            }
            fold::merge_is_covered_iff_a_side_is(k, ax, ay, nx, ny, eps);
            if !ax.is_vacant() {
                let t = choose|t: int|
                    lo <= t < lo + size(*x) && #[trigger] heavy(
                        rows(bounds[t].0 as int, bounds[t].1 as int),
                        eps,
                    );
                assert(lo <= t < lo + size(b));
            }
            if !ay.is_vacant() {
                let t = choose|t: int|
                    mid <= t < mid + size(*y) && #[trigger] heavy(
                        rows(bounds[t].0 as int, bounds[t].1 as int),
                        eps,
                    );
                assert(lo <= t < lo + size(b));
            }
        },
    }
}

/// The part that an item falls into.
proof fn lemma_part_of(bounds: Seq<(usize, usize)>, n: int, r: int, t: int) -> (found: int)
    requires
        consecutive(bounds, n),
        0 <= r < n,
        0 <= t < bounds.len(),
        r < bounds[t].1,
    ensures
        0 <= found < bounds.len(),
        bounds[found].0 <= r < bounds[found].1,
    decreases t,
{
    if bounds[t].0 <= r {
        t
    } else {
        assert(t > 0);
        assert(bounds[t - 1].1 == bounds[t - 1 + 1].0);
        lemma_part_of(bounds, n, r, t - 1)
    }
}

/// Row `r` counts towards group `g`: it is of that group, selected, not
/// NULL, and its score carries weight.
pub open spec fn contributes(
    sc: RowScore,
    v: Seq<Seq<u64>>,
    gid: Seq<u32>,
    sel: Option<Seq<bool>>,
    g: int,
    r: int,
    eps: Eps,
) -> bool {
    gid[r] == g && selected(sel, r) && !bits::nan(sc(r as usize)) && matrix::present(v[r])
        && fold::weighs(sc(r as usize), eps)
}

proof fn lemma_group_rows(
    sc: RowScore,
    v: Seq<Seq<u64>>,
    gid: Seq<u32>,
    sel: Option<Seq<bool>>,
    lo: int,
    hi: int,
    g: int,
    eps: Eps,
)
    requires
        0 <= lo <= hi,
    ensures
        ({
            let rows = group_rows(sc, v, gid, sel, lo, hi, g);
            &&& fold::scored(rows)
            &&& rows.len() <= hi - lo
            &&& heavy(rows, eps) <==> exists|r: int|
                lo <= r < hi && #[trigger] contributes(sc, v, gid, sel, g, r, eps)
        }),
    decreases hi - lo,
{
    if lo < hi {
        lemma_group_rows(sc, v, gid, sel, lo, hi - 1, g, eps);
        let rest = group_rows(sc, v, gid, sel, lo, hi - 1, g);
        let rows = group_rows(sc, v, gid, sel, lo, hi, g);
        let r = hi - 1;
        let s = sc(r as usize);
        let here = gid[r] == g && selected(sel, r) && !bits::nan(s) && matrix::present(v[r]);
        assert forall|i: int| 0 <= i < rows.len() implies !bits::nan((#[trigger] rows[i]).0) by {
            if i < rest.len() {
                assert(rows[i] == rest[i]);
            }
        }
        if heavy(rows, eps) {
            let i = choose|i: int| 0 <= i < rows.len() && fold::weighs((#[trigger] rows[i]).0, eps);
            if i < rest.len() {
                assert(rows[i] == rest[i]);
                assert(heavy(rest, eps));
                let x = choose|x: int|
                    lo <= x < hi - 1 && #[trigger] contributes(sc, v, gid, sel, g, x, eps);
                assert(lo <= x < hi);
            } else {
                assert(contributes(sc, v, gid, sel, g, r, eps));
            }
        }
        if exists|x: int| lo <= x < hi && #[trigger] contributes(sc, v, gid, sel, g, x, eps) {
            let x = choose|x: int|
                lo <= x < hi && #[trigger] contributes(sc, v, gid, sel, g, x, eps);
            if x == r {
                assert(fold::weighs(rows[rows.len() - 1].0, eps));
            } else {
                assert(lo <= x < hi - 1);
                assert(heavy(rest, eps));
                let i = choose|i: int|
                    0 <= i < rest.len() && fold::weighs((#[trigger] rest[i]).0, eps);
                assert(rows[i] == rest[i]);
            }
        }
    }
}

/// Complete: however the rows were cut, a group is covered exactly where
/// some row counts towards it.
pub proof fn group_is_covered_iff_a_row_contributes(
    k: arith::Calc,
    sc: RowScore,
    v: Seq<Seq<u64>>,
    d: nat,
    gid: Seq<u32>,
    sel: Option<Seq<bool>>,
    n_groups: nat,
    eps: Eps,
    out: Seq<Seq<u64>>,
    covered: Seq<bool>,
    g: int,
)
    requires
        grouped_outcome(k, sc, v, d, gid, sel, n_groups, eps, out, covered),
        fold::keeps_count(k, eps),
        v.len() <= fold::countable(),
        0 <= g < n_groups,
    ensures
        covered[g] <==> exists|r: int|
            0 <= r < v.len() && #[trigger] contributes(sc, v, gid, sel, g, r, eps),
{
    let n = v.len() as int;
    let c = choose|c: Cut| #[trigger]
        valid_cut(c, n) && (v.len() < PAIR_PARALLEL_THRESHOLD ==> c == whole(n)) && answers(
            k,
            d,
            grouped_accs(k, sc, v, d, gid, sel, n_groups, c, eps),
            out,
            covered,
        );
    let rows: RangeRows = |lo: int, hi: int| group_rows(sc, v, gid, sel, lo, hi, g);
    assert forall|lo: int, hi: int| 0 <= lo <= hi <= n implies fold::scored(
        #[trigger] rows(lo, hi),
    ) && rows(lo, hi).len() <= hi - lo by {
        lemma_group_rows(sc, v, gid, sel, lo, hi, g, eps);
    }
    lemma_bracket_covered(k, d, c.bounds, c.bracket, 0, rows, n, eps);
    let part = group_part(k, sc, v, d, gid, sel, g, eps);
    let parts = Seq::new(
        c.bounds.len(),
        |t: int|
            fold::folded(k, d, rows(c.bounds[t].0 as int, c.bounds[t].1 as int), eps),
    );
    assert(parts =~= Seq::new(
        c.bounds.len(),
        |t: int| part(c.bounds[t].0 as int, c.bounds[t].1 as int),
    ));
    let accs = grouped_accs(k, sc, v, d, gid, sel, n_groups, c, eps);
    assert(accs[g] == reduced(k, d, parts, c.bracket, eps));
    assert(covered[g] == (fold::output(k, accs[g]) is Some));
    if covered[g] {
        let t = choose|t: int|
            0 <= t < size(c.bracket) && #[trigger] heavy(
                rows(c.bounds[t].0 as int, c.bounds[t].1 as int),
                eps,
            );
        let (lo, hi) = (c.bounds[t].0 as int, c.bounds[t].1 as int);
        assert(c.bounds[t].0 <= c.bounds[t].1 <= n);
        lemma_group_rows(sc, v, gid, sel, lo, hi, g, eps);
        let r = choose|r: int| lo <= r < hi && #[trigger] contributes(sc, v, gid, sel, g, r, eps);
        assert(0 <= r < n);
    }
    if exists|r: int| 0 <= r < v.len() && #[trigger] contributes(sc, v, gid, sel, g, r, eps) {
        let r = choose|r: int|
            0 <= r < v.len() && #[trigger] contributes(sc, v, gid, sel, g, r, eps);
        let t = lemma_part_of(c.bounds, n, r, c.bounds.len() - 1);
        let (lo, hi) = (c.bounds[t].0 as int, c.bounds[t].1 as int);
        lemma_group_rows(sc, v, gid, sel, lo, hi, g, eps);
        assert(heavy(rows(lo, hi), eps));
    }
}

/// The pair brings something to query row `i`: it names it, is not NULL,
/// and its score carries weight.
pub open spec fn pair_contributes(
    sc: PairScore,
    v: Seq<Seq<u64>>,
    p: (usize, usize),
    i: int,
    eps: Eps,
) -> bool {
    p.0 == i && !bits::nan(sc(p.0, p.1)) && matrix::present(v[p.1 as int]) && fold::weighs(
        sc(p.0, p.1),
        eps,
    )
}

proof fn lemma_pair_rows(
    sc: PairScore,
    v: Seq<Seq<u64>>,
    pairs: Seq<(usize, usize)>,
    i: int,
    eps: Eps,
)
    ensures
        ({
            let rows = pair_rows(sc, v, pairs, i);
            &&& fold::scored(rows)
            &&& rows.len() <= pairs.len()
            &&& heavy(rows, eps) <==> exists|t: int|
                0 <= t < pairs.len() && pair_contributes(sc, v, #[trigger] pairs[t], i, eps)
        }),
    decreases pairs.len(),
{
    if pairs.len() > 0 {
        let less = pairs.drop_last();
        lemma_pair_rows(sc, v, less, i, eps);
        let rest = pair_rows(sc, v, less, i);
        let rows = pair_rows(sc, v, pairs, i);
        let p = pairs[pairs.len() - 1];
        assert(p == pairs.last());
        assert forall|x: int| 0 <= x < rows.len() implies !bits::nan((#[trigger] rows[x]).0) by {
            if x < rest.len() {
                assert(rows[x] == rest[x]);
            }
        }
        if heavy(rows, eps) {
            let x = choose|x: int| 0 <= x < rows.len() && fold::weighs((#[trigger] rows[x]).0, eps);
            if x < rest.len() {
                assert(rows[x] == rest[x]);
                assert(heavy(rest, eps));
                let t = choose|t: int|
                    0 <= t < less.len() && pair_contributes(sc, v, #[trigger] less[t], i, eps);
                assert(pairs[t] == less[t]);
            } else {
                assert(pair_contributes(sc, v, pairs[pairs.len() - 1], i, eps));
            }
        }
        if exists|t: int|
            0 <= t < pairs.len() && pair_contributes(sc, v, #[trigger] pairs[t], i, eps) {
            let t = choose|t: int|
                0 <= t < pairs.len() && pair_contributes(sc, v, #[trigger] pairs[t], i, eps);
            if t == pairs.len() - 1 {
                assert(fold::weighs(rows[rows.len() - 1].0, eps));
            } else {
                assert(less[t] == pairs[t]);
                assert(heavy(rest, eps));
                let x = choose|x: int|
                    0 <= x < rest.len() && fold::weighs((#[trigger] rest[x]).0, eps);
                assert(rows[x] == rest[x]);
            }
        }
    }
}

/// However the pairs were cut, a query row is covered exactly where some
/// pair brings something to it.
pub proof fn row_is_covered_iff_a_pair_contributes(
    k: arith::Calc,
    sc: PairScore,
    v: Seq<Seq<u64>>,
    d: nat,
    pairs: Seq<(usize, usize)>,
    n_q: nat,
    eps: Eps,
    out: Seq<Seq<u64>>,
    covered: Seq<bool>,
    i: int,
)
    requires
        masked_outcome(k, sc, v, d, pairs, n_q, eps, out, covered),
        fold::keeps_count(k, eps),
        pairs.len() <= fold::countable(),
        0 <= i < n_q,
    ensures
        covered[i] <==> exists|t: int|
            0 <= t < pairs.len() && pair_contributes(sc, v, #[trigger] pairs[t], i, eps),
        !covered[i] ==> out[i] == matrix::zeros(d),
{
    let n = pairs.len() as int;
    let c = choose|c: Cut| #[trigger]
        valid_cut(c, n) && (pairs.len() < PAIR_PARALLEL_THRESHOLD ==> c == whole(n)) && answers(
            k,
            d,
            masked_accs(k, sc, v, d, pairs, n_q, c, eps),
            out,
            covered,
        );
    let rows: RangeRows = |lo: int, hi: int| pair_rows(sc, v, pairs.subrange(lo, hi), i);
    assert forall|lo: int, hi: int| 0 <= lo <= hi <= n implies fold::scored(
        #[trigger] rows(lo, hi),
    ) && rows(lo, hi).len() <= hi - lo by {
        lemma_pair_rows(sc, v, pairs.subrange(lo, hi), i, eps);
    }
    lemma_bracket_covered(k, d, c.bounds, c.bracket, 0, rows, n, eps);
    let part = pair_part(k, sc, v, d, pairs, i, eps);
    let parts = Seq::new(
        c.bounds.len(),
        |t: int|
            fold::folded(k, d, rows(c.bounds[t].0 as int, c.bounds[t].1 as int), eps),
    );
    assert(parts =~= Seq::new(
        c.bounds.len(),
        |t: int| part(c.bounds[t].0 as int, c.bounds[t].1 as int),
    ));
    let accs = masked_accs(k, sc, v, d, pairs, n_q, c, eps);
    assert(accs[i] == reduced(k, d, parts, c.bracket, eps));
    assert(covered[i] == (fold::output(k, accs[i]) is Some));
    if covered[i] {
        let t = choose|t: int|
            0 <= t < size(c.bracket) && #[trigger] heavy(
                rows(c.bounds[t].0 as int, c.bounds[t].1 as int),
                eps,
            );
        let (lo, hi) = (c.bounds[t].0 as int, c.bounds[t].1 as int);
        assert(c.bounds[t].0 <= c.bounds[t].1 <= n);
        let sub = pairs.subrange(lo, hi);
        lemma_pair_rows(sc, v, sub, i, eps);
        let x = choose|x: int|
            0 <= x < sub.len() && pair_contributes(sc, v, #[trigger] sub[x], i, eps);
        assert(pairs[lo + x] == sub[x]);
    }
    if exists|t: int| 0 <= t < pairs.len() && pair_contributes(sc, v, #[trigger] pairs[t], i, eps) {
        let r = choose|t: int|
            0 <= t < pairs.len() && pair_contributes(sc, v, #[trigger] pairs[t], i, eps);
        let t = lemma_part_of(c.bounds, n, r, c.bounds.len() - 1);
        let (lo, hi) = (c.bounds[t].0 as int, c.bounds[t].1 as int);
        let sub = pairs.subrange(lo, hi);
        lemma_pair_rows(sc, v, sub, i, eps);
        assert(sub[r - lo] == pairs[r]);
        assert(heavy(rows(lo, hi), eps));
    }
}

/// Whether a row is covered does not depend on the order of the pairs, nor
/// on rounding; and a row that is not covered is zero in any order.
pub proof fn pair_order_does_not_change_coverage(
    k: arith::Calc,
    sc: PairScore,
    v: Seq<Seq<u64>>,
    d: nat,
    a: Seq<(usize, usize)>,
    b: Seq<(usize, usize)>,
    n_q: nat,
    eps: Eps,
    out_a: Seq<Seq<u64>>,
    covered_a: Seq<bool>,
    out_b: Seq<Seq<u64>>,
    covered_b: Seq<bool>,
)
    requires
        masked_outcome(k, sc, v, d, a, n_q, eps, out_a, covered_a),
        masked_outcome(k, sc, v, d, b, n_q, eps, out_b, covered_b),
        a.to_multiset() == b.to_multiset(),
        fold::keeps_count(k, eps),
        a.len() <= fold::countable(),
    ensures
        covered_a == covered_b,
        forall|i: int|
            0 <= i < n_q && !(#[trigger] covered_a[i]) ==> out_a[i] == matrix::zeros(d)
                && out_b[i] == matrix::zeros(d),
{
    broadcast use vstd::seq_lib::group_to_multiset_ensures;

    assert(a.to_multiset().len() == a.len());
    assert(b.to_multiset().len() == b.len());
    assert forall|i: int| 0 <= i < n_q implies #[trigger] covered_a[i] == covered_b[i] && (
    !covered_a[i] ==> out_a[i] == matrix::zeros(d) && out_b[i] == matrix::zeros(d)) by {
        row_is_covered_iff_a_pair_contributes(k, sc, v, d, a, n_q, eps, out_a, covered_a, i);
        row_is_covered_iff_a_pair_contributes(k, sc, v, d, b, n_q, eps, out_b, covered_b, i);
        lemma_contributors(sc, v, a, b, i, eps);
        lemma_contributors(sc, v, b, a, i, eps);
    }
    assert(covered_a =~= covered_b);
}

proof fn lemma_contributors(
    sc: PairScore,
    v: Seq<Seq<u64>>,
    a: Seq<(usize, usize)>,
    b: Seq<(usize, usize)>,
    i: int,
    eps: Eps,
)
    requires
        a.to_multiset() == b.to_multiset(),
    ensures
        (exists|t: int| 0 <= t < a.len() && pair_contributes(sc, v, #[trigger] a[t], i, eps)) ==> (
        exists|t: int| 0 <= t < b.len() && pair_contributes(sc, v, #[trigger] b[t], i, eps)),
{
    broadcast use vstd::seq_lib::group_to_multiset_ensures;

    if exists|t: int| 0 <= t < a.len() && pair_contributes(sc, v, #[trigger] a[t], i, eps) {
        let t = choose|t: int| 0 <= t < a.len() && pair_contributes(sc, v, #[trigger] a[t], i, eps);
        assert(a.contains(a[t]));
        assert(a.to_multiset().count(a[t]) > 0);
        assert(b.contains(a[t]));
        let j = b.index_of(a[t]);
        assert(b[j] == a[t]);
    }
}

/// The complaint about an argument.
pub open spec fn out_of_range(e: Option<error::BruceErrorView>) -> bool {
    e matches Some(error::BruceErrorView::InvalidArgument(_))
}

/// Whether pairs are refused does not depend on their order: one pair out of
/// range is enough, wherever it stands.
pub proof fn pair_order_does_not_change_refusal(
    q: Shape,
    k: Shape,
    v_rows: nat,
    a: Seq<(usize, usize)>,
    b: Seq<(usize, usize)>,
)
    requires
        a.to_multiset() == b.to_multiset(),
    ensures
        mask_error(q, k, v_rows, a) is None <==> mask_error(q, k, v_rows, b) is None,
        v_rows == k.rows && q.cols == k.cols && (exists|t: int|
            0 <= t < a.len() && strays(#[trigger] a[t], q.rows as int, k.rows as int))
            ==> out_of_range(mask_error(q, k, v_rows, a)) && out_of_range(
            mask_error(q, k, v_rows, b),
        ),
{
    let (m, n) = (q.rows as int, k.rows as int);
    lemma_first_stray(a, m, n);
    lemma_first_stray(b, m, n);
    lemma_strays(a, b, m, n);
    lemma_strays(b, a, m, n);
}

proof fn lemma_strays(a: Seq<(usize, usize)>, b: Seq<(usize, usize)>, m: int, n: int)
    requires
        a.to_multiset() == b.to_multiset(),
    ensures
        (exists|t: int| 0 <= t < a.len() && strays(#[trigger] a[t], m, n)) ==> (exists|t: int|
            0 <= t < b.len() && strays(#[trigger] b[t], m, n)),
{
    broadcast use vstd::seq_lib::group_to_multiset_ensures;

    if exists|t: int| 0 <= t < a.len() && strays(#[trigger] a[t], m, n) {
        let t = choose|t: int| 0 <= t < a.len() && strays(#[trigger] a[t], m, n);
        assert(a.contains(a[t]));
        assert(a.to_multiset().count(a[t]) > 0);
        assert(b.contains(a[t]));
        let j = b.index_of(a[t]);
        assert(b[j] == a[t]);
    }
}

/// A NULL row might as well not be selected.
pub proof fn null_row_counts_as_unselected(
    sc: RowScore,
    v: Seq<Seq<u64>>,
    gid: Seq<u32>,
    sel: Seq<bool>,
    lo: int,
    hi: int,
    g: int,
    r: int,
)
    requires
        0 <= lo <= hi <= sel.len(),
        0 <= r < sel.len(),
        bits::nan(sc(r as usize)) || !matrix::present(v[r]),
    ensures
        group_rows(sc, v, gid, Some(sel), lo, hi, g) == group_rows(
            sc,
            v,
            gid,
            Some(sel.update(r, false)),
            lo,
            hi,
            g,
        ),
    decreases hi - lo,
{
    if lo < hi {
        null_row_counts_as_unselected(sc, v, gid, sel, lo, hi - 1, g, r);
    }
}

/// The pairs that send each selected row to its group.
pub open spec fn group_pairs(gid: Seq<u32>, sel: Option<Seq<bool>>, n: int) -> Seq<(usize, usize)>
    decreases n,
{
    if n <= 0 {
        Seq::empty()
    } else {
        let rest = group_pairs(gid, sel, n - 1);
        if selected(sel, n - 1) {
            rest.push((gid[n - 1] as usize, (n - 1) as usize))
        } else {
            rest
        }
    }
}

/// The grouped soft-average takes in, group by group, the same rows as a
/// masked attention whose pairs send each selected row to its group.
pub proof fn grouping_is_a_mask(
    sc: RowScore,
    v: Seq<Seq<u64>>,
    gid: Seq<u32>,
    sel: Option<Seq<bool>>,
    n: int,
    g: int,
)
    requires
        0 <= n <= usize::MAX,
        0 <= g <= u32::MAX,
        u32::MAX <= usize::MAX,
    ensures
        group_rows(sc, v, gid, sel, 0, n, g) == pair_rows(
            |i: usize, j: usize| sc(j),
            v,
            group_pairs(gid, sel, n),
            g,
        ),
    decreases n,
{
    if n > 0 {
        grouping_is_a_mask(sc, v, gid, sel, n - 1, g);
        let rest = group_pairs(gid, sel, n - 1);
        let all = group_pairs(gid, sel, n);
        if selected(sel, n - 1) {
            assert(all.drop_last() =~= rest);
            assert(all.last() == (gid[n - 1] as usize, (n - 1) as usize));
        } else {
            assert(all == rest);
        }
    }
}

/// A masked attention is refused exactly where the shapes do not agree or a
/// pair names no row; of several such pairs the first is reported.
pub proof fn mask_is_refused_for_what_is_wrong(
    q: Shape,
    k: Shape,
    v_rows: nat,
    pairs: Seq<(usize, usize)>,
)
    ensures
        mask_error(q, k, v_rows, pairs) is None <==> v_rows == k.rows && q.cols == k.cols && forall|
            t: int,
        |
            0 <= t < pairs.len() ==> (#[trigger] pairs[t]).0 < q.rows && pairs[t].1 < k.rows,
        v_rows != k.rows ==> mask_error(q, k, v_rows, pairs) == Some(
            error::BruceErrorView::DimensionMismatch(k.rows as nat, v_rows),
        ),
        v_rows == k.rows && q.cols != k.cols ==> mask_error(q, k, v_rows, pairs) == Some(
            error::BruceErrorView::DimensionMismatch(q.cols as nat, k.cols as nat),
        ),
        first_stray(pairs, q.rows as int, k.rows as int) matches Some(p) ==> exists|t: int|
            0 <= t < pairs.len() && #[trigger] pairs[t] == p && (p.0 >= q.rows || p.1 >= k.rows)
                && forall|u: int|
                0 <= u < t ==> (#[trigger] pairs[u]).0 < q.rows && pairs[u].1 < k.rows,
{
    lemma_first_stray(pairs, q.rows as int, k.rows as int);
    lemma_stray_is_first(pairs, q.rows as int, k.rows as int);
    assert forall|t: int| 0 <= t < pairs.len() && !strays(
        #[trigger] pairs[t],
        q.rows as int,
        k.rows as int,
    ) implies pairs[t].0 < q.rows && pairs[t].1 < k.rows by {}
    if first_stray(pairs, q.rows as int, k.rows as int) is Some && v_rows == k.rows && q.cols == k.cols {
        let t = choose|t: int|
            0 <= t < pairs.len() && strays(#[trigger] pairs[t], q.rows as int, k.rows as int);
        assert(pairs[t].0 >= q.rows || pairs[t].1 >= k.rows);
    }
}

proof fn lemma_stray_is_first(pairs: Seq<(usize, usize)>, n_q: int, n_k: int)
    ensures
        first_stray(pairs, n_q, n_k) matches Some(p) ==> exists|t: int|
            0 <= t < pairs.len() && #[trigger] pairs[t] == p && (p.0 >= n_q || p.1 >= n_k)
                && forall|u: int|
                0 <= u < t ==> (#[trigger] pairs[u]).0 < n_q && pairs[u].1 < n_k,
    decreases pairs.len(),
{
    if pairs.len() > 0 {
        let rest = pairs.drop_last();
        lemma_stray_is_first(rest, n_q, n_k);
        lemma_first_stray(rest, n_q, n_k);
        if first_stray(rest, n_q, n_k) is Some {
            let p = first_stray(rest, n_q, n_k)->0;
            let t = choose|t: int|
                0 <= t < rest.len() && #[trigger] rest[t] == p && (p.0 >= n_q || p.1 >= n_k)
                    && forall|u: int|
                    0 <= u < t ==> (#[trigger] rest[u]).0 < n_q && rest[u].1 < n_k;
            assert(pairs[t] == p);
            assert forall|u: int| 0 <= u < t implies (#[trigger] pairs[u]).0 < n_q && pairs[u].1
                < n_k by {
                assert(rest[u] == pairs[u]);
            }
        } else if strays(pairs.last(), n_q, n_k) {
            let t = pairs.len() - 1;
            assert(pairs[t] == pairs.last());
            assert forall|u: int| 0 <= u < t implies (#[trigger] pairs[u]).0 < n_q && pairs[u].1
                < n_k by {
                assert(rest[u] == pairs[u]);
                assert(!strays(rest[u], n_q, n_k));
            }
        }
    }
}

/// A grouped soft-average is refused exactly where the shapes do not agree
/// or a row's group is not among the groups; the complaint about groups says
/// how many there would have to be.
pub proof fn grouping_is_refused_for_what_is_wrong(
    x_len: nat,
    k: Shape,
    v_rows: nat,
    gid: Seq<u32>,
    n_groups: nat,
    sel: Option<Seq<bool>>,
)
    ensures
        group_error(x_len, k, v_rows, gid, n_groups, sel) is None <==> v_rows == k.rows && k.cols
            == x_len && gid.len() == k.rows && (sel matches Some(s) ==> s.len() == k.rows) && forall|
            t: int,
        |
            0 <= t < gid.len() ==> #[trigger] gid[t] < n_groups,
        group_error(x_len, k, v_rows, gid, n_groups, sel) is Some && v_rows == k.rows && k.cols
            == x_len && gid.len() == k.rows && (sel matches Some(s) ==> s.len() == k.rows)
            ==> exists|t: int|
            0 <= t < gid.len() && group_error(x_len, k, v_rows, gid, n_groups, sel) == Some(
                error::BruceErrorView::DimensionMismatch(n_groups, (#[trigger] gid[t] + 1) as nat),
            ) && forall|u: int| 0 <= u < gid.len() ==> #[trigger] gid[u] <= gid[t],
        v_rows != k.rows ==> group_error(x_len, k, v_rows, gid, n_groups, sel) == Some(
            error::BruceErrorView::DimensionMismatch(k.rows as nat, v_rows),
        ),
{
    if gid.len() > 0 {
        assert forall|t: int| 0 <= t < gid.len() implies #[trigger] gid[t] <= largest(gid) by {
            lemma_largest(gid, t);
        }
        let t = lemma_largest_is_there(gid);
        assert(gid[t] == largest(gid));
    }
}

proof fn lemma_largest_is_there(gid: Seq<u32>) -> (t: int)
    requires
        gid.len() > 0,
    ensures
        0 <= t < gid.len(),
        gid[t] == largest(gid),
    decreases gid.len(),
{
    let rest = gid.drop_last();
    if rest.len() == 0 {
        assert(largest(rest) == 0);
        0
    } else {
        let t = lemma_largest_is_there(rest);
        if largest(rest) < gid.last() {
            gid.len() - 1
        } else {
            t
        }
    }
}

} // verus!
