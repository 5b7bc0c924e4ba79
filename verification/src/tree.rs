//! Tree-structured causal attention: each query attends to itself and to
//! its ancestors in a tree given by its parents, with `-1` at roots.

use vstd::prelude::*;

use crate::arith;
use crate::arith::{apply_op, Op};
use crate::bits;
use crate::bits::eq;
use crate::error;
use crate::error::BruceError;
use crate::mask;
use crate::matrix;
use crate::matrix::{zero_row, Matrix, Shape};
use crate::parallel::map_each;
use crate::semiring;
use crate::semiring::softmax_eps;
use crate::text;
use crate::text::{dec_int_string, push_dec};
use crate::types::Eps;

verus! {

// --------------------------------------------------------------- weights

/// `acc + w * row`, componentwise.
pub open spec fn scaled_add(k: arith::Calc, acc: Seq<u64>, w: u64, row: Seq<u64>) -> Seq<u64> {
    Seq::new(acc.len(), |c: int| k(Op::Plus, acc[c], k(Op::Times, w, row[c])))
}

/// The weighted sum of rows, taken in order; a weight of zero is passed
/// over.
pub open spec fn mixture(k: arith::Calc, w: Seq<u64>, rows: Seq<Seq<u64>>, d: nat) -> Seq<u64>
    decreases w.len(),
{
    if w.len() == 0 {
        matrix::zeros(d)
    } else {
        let i = w.len() - 1;
        let acc = mixture(k, w.drop_last(), rows, d);
        if bits::num_eq(w[i], arith::ZERO) {
            acc
        } else {
            scaled_add(k, acc, w[i], rows[i])
        }
    }
}

proof fn lemma_mixture_width(k: arith::Calc, w: Seq<u64>, rows: Seq<Seq<u64>>, d: nat)
    ensures
        mixture(k, w, rows, d).len() == d,
    decreases w.len(),
{
    if w.len() > 0 {
        lemma_mixture_width(k, w.drop_last(), rows, d);
    }
}

/// A mixture reads as many rows as there are weights.
pub proof fn lemma_mixture_prefix(
    k: arith::Calc,
    w: Seq<u64>,
    rows: Seq<Seq<u64>>,
    others: Seq<Seq<u64>>,
    d: nat,
)
    requires
        forall|i: int| 0 <= i < w.len() ==> rows[i] == #[trigger] others[i],
    ensures
        mixture(k, w, rows, d) == mixture(k, w, others, d),
    decreases w.len(),
{
    if w.len() > 0 {
        assert(rows[w.len() - 1] == others[w.len() - 1]);
        lemma_mixture_prefix(k, w.drop_last(), rows, others, d);
    }
}

/// `acc + w * row`, componentwise.
pub fn add_scaled<F: Fn(Op, u64, u64) -> u64>(acc: &Vec<u64>, w: u64, row: &[u64], f: &F) -> (r:
    Vec<u64>)
    requires
        arith::steady(*f),
        acc@.len() == row@.len(),
    ensures
        r@ == scaled_add(arith::computes(*f), acc@, w, row@),
{
    let ghost k = arith::computes(*f);
    let ghost want = scaled_add(k, acc@, w, row@);
    let mut r: Vec<u64> = Vec::new();
    let mut c: usize = 0;
    while c < acc.len()
        invariant
            c <= acc@.len(),
            acc@.len() == row@.len(),
            arith::steady(*f),
            k == arith::computes(*f),
            want == scaled_add(k, acc@, w, row@),
            r@ == want.take(c as int),
        decreases acc.len() - c,
    {
        let x: u64 = apply_op(f, Op::Times, w, row[c]);
        r.push(apply_op(f, Op::Plus, acc[c], x));
        c += 1;
        assert(r@ =~= want.take(c as int));
    }
    assert(r@ =~= want);
    r
}

/// The rows of a table at these places.
pub open spec fn picked(v: Seq<Seq<u64>>, at: Seq<usize>) -> Seq<Seq<u64>> {
    Seq::new(at.len(), |i: int| v[at[i] as int])
}

/// The weighted sum of the rows at these places.
pub fn mix_rows<F: Fn(Op, u64, u64) -> u64>(
    w: &Vec<u64>,
    v: &Matrix<u64>,
    at: &Vec<usize>,
    f: &F,
) -> (r: Vec<u64>)
    requires
        arith::steady(*f),
        v.wf(),
        w@.len() == at@.len(),
        forall|i: int| 0 <= i < at@.len() ==> #[trigger] at@[i] < v@.len(),
    ensures
        r@ == mixture(arith::computes(*f), w@, picked(v@, at@), v.width()),
        r@.len() == v.width(),
{
    let ghost k = arith::computes(*f);
    let ghost rows = picked(v@, at@);
    let mut acc = zero_row(v.ncols());
    let mut i: usize = 0;
    while i < w.len()
        invariant
            i <= w@.len(),
            w@.len() == at@.len(),
            v.wf(),
            forall|t: int| 0 <= t < at@.len() ==> #[trigger] at@[t] < v@.len(),
            arith::steady(*f),
            k == arith::computes(*f),
            rows == picked(v@, at@),
            acc@ == mixture(k, w@.take(i as int), rows, v.width()),
            acc@.len() == v.width(),
        decreases w.len() - i,
    {
        assert(w@.take(i + 1).drop_last() =~= w@.take(i as int));
        assert(at@[i as int] < v@.len());
        let j: usize = at[i];
        assert(v@[j as int].len() == v.width());
        if !eq(w[i], arith::ZERO) {
            acc = add_scaled(&acc, w[i], v.row(j), f);
        }
        i += 1;
    }
    assert(w@.take(i as int) =~= w@);
    acc
}

// ----------------------------------------------------------------- trees

/// Every parent comes before its child; roots have `-1`.
pub open spec fn valid_tree(parents: Seq<i64>) -> bool {
    forall|i: int| 0 <= i < parents.len() ==> -1 <= #[trigger] parents[i] < i
}

/// A node and its ancestors, up to the root.
pub open spec fn ancestry(parents: Seq<i64>, i: int) -> Seq<usize>
    decreases i + 1,
{
    if i < 0 {
        Seq::empty()
    } else if -1 <= parents[i] < i {
        seq![i as usize] + ancestry(parents, parents[i] as int)
    } else {
        seq![i as usize]
    }
}

/// A node and its ancestors, up to the root.
pub fn ancestor_path(parents: &[i64], i: usize) -> (path: Vec<usize>)
    requires
        valid_tree(parents@),
        i < parents@.len(),
        parents@.len() <= i64::MAX,
    ensures
        path@ == ancestry(parents@, i as int),
        forall|t: int| 0 <= t < path@.len() ==> #[trigger] path@[t] <= i,
{
    let mut path: Vec<usize> = Vec::new();
    let mut j: i64 = i as i64;
    while j != -1
        invariant
            valid_tree(parents@),
            -1 <= j <= i < parents@.len(),
            parents@.len() <= i64::MAX,
            path@ + ancestry(parents@, j as int) == ancestry(parents@, i as int),
            forall|t: int| 0 <= t < path@.len() ==> #[trigger] path@[t] <= i,
        decreases j + 1,
    {
        let ghost before = path@;
        path.push(j as usize);
        assert(parents@[j as int] < j);
        let p: i64 = parents[j as usize];
        assert(path@ + ancestry(parents@, p as int) =~= before + ancestry(parents@, j as int));
        j = p;
    }
    assert(path@ =~= ancestry(parents@, i as int));
    path
}

/// The parent of node `i` in a balanced tree of `k` children each.
pub open spec fn heap_parent(i: int, k: int) -> int {
    if i == 0 {
        -1
    } else {
        (i - 1) / k
    }
}

/// A balanced tree of `k` children each.
pub open spec fn k_ary(n: nat, k: int) -> Seq<i64> {
    Seq::new(n, |i: int| heap_parent(i, k) as i64)
}

/// A chain: every node the child of the one before.
pub open spec fn chain(n: nat) -> Seq<i64> {
    Seq::new(n, |i: int| (i - 1) as i64)
}

/// A star: every node but the root its child.
pub open spec fn star(n: nat) -> Seq<i64> {
    Seq::new(
        n,
        |i: int|
            if i == 0 {
                -1i64
            } else {
                0i64
            },
    )
}

/// Parents of a chain: recovers full causal attention.
pub fn chain_tree(n: usize) -> (p: Vec<i64>)
    requires
        n <= i64::MAX,
    ensures
        p@ == chain(n as nat),
{
    let mut p: Vec<i64> = Vec::new();
    let mut i: usize = 0;
    while i < n
        invariant
            i <= n <= i64::MAX,
            p@ == chain(i as nat),
        decreases n - i,
    {
        p.push(i as i64 - 1);
        i += 1;
        assert(p@ =~= chain(i as nat));
    }
    p
}

/// Parents of a balanced tree of `k` children each.
pub fn k_ary_balanced_tree(n: usize, k: usize) -> (p: Vec<i64>)
    requires
        n <= i64::MAX,
        k >= 1,
    ensures
        p@ == k_ary(n as nat, k as int),
{
    let mut p: Vec<i64> = Vec::new();
    let mut i: usize = 0;
    while i < n
        invariant
            i <= n <= i64::MAX,
            k >= 1,
            p@ == k_ary(i as nat, k as int),
        decreases n - i,
    {
        if i == 0 {
            p.push(-1);
        } else {
            let q: usize = (i - 1) / k;
            proof {
                vstd::arithmetic::div_mod::lemma_div_is_ordered_by_denominator(
                    i - 1,
                    1,
                    k as int,
                );
                assert((i - 1) / 1 == i - 1);
            }
            p.push(q as i64);
        }
        i += 1;
        assert(p@ =~= k_ary(i as nat, k as int));
    }
    p
}

/// Parents of a heap-like balanced binary tree.
pub fn balanced_binary_tree(n: usize) -> (p: Vec<i64>)
    requires
        n <= i64::MAX,
    ensures
        p@ == k_ary(n as nat, 2),
{
    k_ary_balanced_tree(n, 2)
}

/// Parents of a star: one root, every other node its child.
pub fn star_tree(n: usize) -> (p: Vec<i64>)
    ensures
        p@ == star(n as nat),
{
    let mut p: Vec<i64> = Vec::new();
    let mut i: usize = 0;
    while i < n
        invariant
            i <= n,
            p@ == star(i as nat),
        decreases n - i,
    {
        p.push(
            if i == 0 {
                -1
            } else {
                0
            },
        );
        i += 1;
        assert(p@ =~= star(i as nat));
    }
    p
}

/// The trees that are built are valid.
pub proof fn built_trees_are_valid(n: nat, k: int)
    requires
        n <= i64::MAX,
        k >= 1,
    ensures
        valid_tree(chain(n)),
        valid_tree(star(n)),
        valid_tree(k_ary(n, k)),
{
    assert forall|i: int| 0 <= i < n implies -1 <= #[trigger] k_ary(n, k)[i] < i by {
        lemma_heap_parent(i, k);
    }
}

proof fn lemma_heap_parent(i: int, k: int)
    requires
        0 <= i <= i64::MAX,
        k >= 1,
    ensures
        -1 <= heap_parent(i, k) < i,
        heap_parent(i, k) == heap_parent(i, k) as i64,
{
    if i > 0 {
        vstd::arithmetic::div_mod::lemma_div_is_ordered_by_denominator(i - 1, 1, k);
        assert((i - 1) / 1 == i - 1);
        vstd::arithmetic::div_mod::lemma_div_pos_is_pos(i - 1, k);
    }
}

/// In a chain the ancestry of a node is every node up to it, itself first.
pub proof fn chain_ancestry_is_causal(n: nat, i: int)
    requires
        n <= i64::MAX,
        n <= usize::MAX,
        0 <= i < n,
    ensures
        ancestry(chain(n), i) == Seq::new((i + 1) as nat, |t: int| (i - t) as usize),
    decreases i,
{
    if i > 0 {
        chain_ancestry_is_causal(n, i - 1);
        assert(chain(n)[i] == i - 1);
    } else {
        assert(chain(n)[0] == -1);
        assert(ancestry(chain(n), -1) =~= Seq::<usize>::empty());
    }
    assert(ancestry(chain(n), i) =~= Seq::new((i + 1) as nat, |t: int| (i - t) as usize));
}

/// In a star every node but the root has two ancestors, itself and the
/// root.
pub proof fn star_ancestry_is_short(n: nat, i: int)
    requires
        n <= usize::MAX,
        0 < i < n,
    ensures
        ancestry(star(n), i) == seq![i as usize, 0usize],
{
    assert(star(n)[i] == 0);
    assert(star(n)[0] == -1);
    assert(ancestry(star(n), -1) =~= Seq::<usize>::empty());
    assert(ancestry(star(n), 0) =~= seq![0usize]);
    assert(ancestry(star(n), i) =~= seq![i as usize, 0usize]);
}

/// In a balanced binary tree ancestries are logarithmic: that of node `i`
/// has as many nodes as `i + 1` has binary digits.
pub proof fn balanced_ancestry_is_logarithmic(n: nat, i: int)
    requires
        n <= i64::MAX,
        0 <= i < n,
    ensures
        ancestry(k_ary(n, 2), i).len() >= 1,
        vstd::arithmetic::power2::pow2((ancestry(k_ary(n, 2), i).len() - 1) as nat) <= i + 1
            < vstd::arithmetic::power2::pow2(ancestry(k_ary(n, 2), i).len()),
    decreases i,
{
    let t = k_ary(n, 2);
    lemma_heap_parent(i, 2);
    assert(t[i] == heap_parent(i, 2));
    vstd::arithmetic::power2::lemma2_to64();
    if i == 0 {
        assert(ancestry(t, -1).len() == 0);
        assert(ancestry(t, 0).len() == 1);
    } else {
        let p = (i - 1) / 2;
        balanced_ancestry_is_logarithmic(n, p);
        let len = ancestry(t, p).len();
        assert(ancestry(t, i).len() == len + 1);
        vstd::arithmetic::power2::lemma_pow2_unfold(len + 1);
        vstd::arithmetic::power2::lemma_pow2_unfold(len);
    }
}

/// In a `k`-ary tree the children of node `p` are the `k` nodes from
/// `k p + 1` on.
pub proof fn children_are_consecutive(n: nat, k: int, p: int, i: int)
    requires
        n <= i64::MAX,
        k >= 1,
        0 <= p,
        0 <= i < n,
    ensures
        k_ary(n, k)[i] == p <==> k * p + 1 <= i <= k * p + k,
        k_ary(n, k)[0] == -1 || n == 0,
{
    lemma_heap_parent(i, k);
    if n > 0 {
        lemma_heap_parent(0, k);
    }
    if i > 0 {
        let q = (i - 1) / k;
        vstd::arithmetic::div_mod::lemma_fundamental_div_mod(i - 1, k);
        vstd::arithmetic::div_mod::lemma_mod_bound(i - 1, k);
        if k * p + 1 <= i <= k * p + k {
            vstd::arithmetic::div_mod::lemma_fundamental_div_mod_converse(
                i - 1,
                k,
                p,
                i - 1 - k * p,
            );
        }
        if q == p {
            assert(k * q == k * p);
        }
    } else {
        assert(k * p >= 0) by (nonlinear_arith)
            requires
                k >= 1,
                p >= 0,
        ;
    }
}

/// The ancestry of a node climbs the tree: it starts at the node, goes from
/// each node to its parent, and ends at a root.
pub proof fn ancestry_climbs_to_the_root(parents: Seq<i64>, i: int)
    requires
        valid_tree(parents),
        parents.len() <= usize::MAX,
        0 <= i < parents.len(),
    ensures
        ({
            let path = ancestry(parents, i);
            &&& path.len() > 0
            &&& path[0] == i
            &&& forall|t: int| 0 <= t < path.len() ==> #[trigger] path[t] < parents.len()
            &&& forall|t: int|
                0 <= t < path.len() - 1 ==> parents[(#[trigger] path[t]) as int] == path[t + 1]
            &&& parents[path.last() as int] == -1
        }),
    decreases i,
{
    let path = ancestry(parents, i);
    let up = parents[i] as int;
    assert(-1 <= parents[i] < i);
    if up >= 0 {
        ancestry_climbs_to_the_root(parents, up);
        let rest = ancestry(parents, up);
        assert(path =~= seq![i as usize] + rest);
        assert forall|t: int| 0 <= t < path.len() implies #[trigger] path[t] < parents.len() by {
            if t > 0 {
                assert(path[t] == rest[t - 1]);
            }
        }
        assert forall|t: int| 0 <= t < path.len() - 1 implies parents[(#[trigger] path[t]) as int]
            == path[t + 1] by {
            assert(path[t + 1] == rest[t]);
            if t > 0 {
                assert(path[t] == rest[t - 1]);
                assert(parents[rest[t - 1] as int] == rest[t - 1 + 1]);
            }
        }
        assert(path.last() == rest.last());
    } else {
        assert(ancestry(parents, -1) =~= Seq::<usize>::empty());
        assert(path =~= seq![i as usize]);
    }
}

// ------------------------------------------------------------- attention

/// The smallest of three.
pub open spec fn least(a: nat, b: nat, c: nat) -> nat {
    let m = if a < b {
        a
    } else {
        b
    };
    if m < c {
        m
    } else {
        c
    }
}

/// The first node whose parent does not come before it.
pub open spec fn first_bad(parents: Seq<i64>) -> Option<int>
    decreases parents.len(),
{
    if parents.len() == 0 {
        None
    } else {
        let i = parents.len() - 1;
        match first_bad(parents.drop_last()) {
            Some(b) => Some(b),
            None => if parents[i] < -1 || parents[i] >= i {
                Some(i)
            } else {
                None
            },
        }
    }
}

/// The complaint about a parent that does not come before its child.
pub open spec fn parent_text(i: int, p: i64) -> Seq<char> {
    "parents["@ + text::dec(i as nat) + "] = "@ + text::dec_int(p as int) + "; must be in [-1, "@
        + text::dec(i as nat) + ")"@
}

/// What is wrong with the arguments of a tree attention, if anything.
pub open spec fn tree_error(q: Shape, k: Shape, v_rows: nat, parents: Seq<i64>) -> Option<
    error::BruceErrorView,
> {
    let n = q.rows;
    if k.rows != n || v_rows != n || parents.len() != n {
        Some(
            error::BruceErrorView::DimensionMismatch(
                n as nat,
                least(k.rows as nat, v_rows, parents.len()),
            ),
        )
    } else if q.cols != k.cols {
        Some(error::BruceErrorView::DimensionMismatch(q.cols as nat, k.cols as nat))
    } else {
        match first_bad(parents) {
            Some(i) => Some(error::BruceErrorView::InvalidArgument(parent_text(i, parents[i]))),
            None => None,
        }
    }
}

proof fn lemma_first_bad(parents: Seq<i64>, t: int)
    requires
        0 <= t <= parents.len(),
        first_bad(parents.take(t)) is None,
    ensures
        valid_tree(parents.take(t)),
        t < parents.len() && (parents[t] < -1 || parents[t] >= t) ==> first_bad(parents) == Some(t),
    decreases parents.len(),
{
    lemma_none_bad(parents.take(t));
    if t < parents.len() && (parents[t] < -1 || parents[t] >= t) {
        let r = parents.drop_last();
        if t == r.len() {
            assert(parents.take(t) =~= r);
        } else {
            assert(r.take(t) =~= parents.take(t));
            lemma_first_bad(r, t);
        }
    }
}

proof fn lemma_none_bad(parents: Seq<i64>)
    ensures
        first_bad(parents) is None <==> valid_tree(parents),
    decreases parents.len(),
{
    if parents.len() > 0 {
        let r = parents.drop_last();
        lemma_none_bad(r);
        if valid_tree(parents) {
            assert forall|i: int| 0 <= i < r.len() implies -1 <= #[trigger] r[i] < i by {
                assert(r[i] == parents[i]);
            }
            assert(-1 <= parents[parents.len() - 1] < parents.len() - 1);
        }
        if first_bad(parents) is None {
            assert forall|i: int| 0 <= i < parents.len() implies -1 <= #[trigger] parents[i]
                < i by {
                if i < r.len() {
                    assert(r[i] == parents[i]);
                }
            }
        }
    }
}

/// The output of node `i`: the mean of the values of its ancestry under
/// softmax weights.
pub open spec fn tree_row(
    k: arith::Calc,
    sc: mask::PairScore,
    v: Seq<Seq<u64>>,
    d: nat,
    parents: Seq<i64>,
    i: int,
    eps: Eps,
) -> Seq<u64> {
    let path = ancestry(parents, i);
    let scores = Seq::new(path.len(), |t: int| sc(i as usize, path[t]));
    mixture(k, semiring::softmax(k, scores, eps), picked(v, path), d)
}

fn attend<S: Fn(usize, usize) -> u64, F: Fn(Op, u64, u64) -> u64>(
    v: &Matrix<u64>,
    parents: &[i64],
    i: usize,
    eps: Eps,
    score: &S,
    f: &F,
) -> (r: Vec<u64>)
    requires
        v.wf(),
        valid_tree(parents@),
        parents@.len() == v@.len(),
        parents@.len() <= i64::MAX,
        i < parents@.len(),
        mask::steady_scores(*score, parents@.len() as int, parents@.len() as int),
        arith::steady(*f),
    ensures
        r@ == tree_row(
            arith::computes(*f),
            mask::scores(*score),
            v@,
            v.width(),
            parents@,
            i as int,
            eps,
        ),
        r@.len() == v.width(),
{
    let path = ancestor_path(parents, i);
    let ghost want = Seq::new(path@.len(), |t: int| mask::scores(*score)(i, path@[t]));
    let mut scores: Vec<u64> = Vec::new();
    let mut t: usize = 0;
    while t < path.len()
        invariant
            t <= path@.len(),
            mask::steady_scores(*score, i + 1, i + 1),
            forall|x: int| 0 <= x < path@.len() ==> #[trigger] path@[x] <= i,
            want == Seq::new(path@.len(), |t: int| mask::scores(*score)(i, path@[t])),
            scores@ == want.take(t as int),
        decreases path.len() - t,
    {
        scores.push(mask::score_of(score, i, path[t]));
        t += 1;
        assert(scores@ =~= want.take(t as int));
    }
    assert(scores@ =~= want);
    let w = softmax_eps(scores.as_slice(), eps, f);
    assert forall|x: int| 0 <= x < path@.len() implies #[trigger] path@[x] < v@.len() by {
        assert(path@[x] <= i);
    }
    mix_rows(&w, v, &path, f)
}

/// Tree-structured causal attention: row `i` attends to itself and to its
/// ancestors `parents[i]`, and so on up to a root.
pub fn tree_causal_attention<
    S: Fn(usize, usize) -> u64 + Sync,
    F: Fn(Op, u64, u64) -> u64 + Sync,
>(
    q: Shape,
    k: Shape,
    v: &Matrix<u64>,
    parents: &[i64],
    eps: Eps,
    score: &S,
    f: &F,
) -> (r: Result<Matrix<u64>, BruceError>)
    requires
        v.wf(),
        q.rows <= i64::MAX,
        tree_error(q, k, v@.len(), parents@) is None ==> mask::steady_scores(
            *score,
            q.rows as int,
            k.rows as int,
        ),
        arith::steady(*f),
    ensures
        match tree_error(q, k, v@.len(), parents@) {
            Some(e) => error::fails(r, e),
            None => r matches Ok(out) && out.wf() && out.width() == v.width() && out@ == Seq::new(
                q.rows as nat,
                |i: int|
                    tree_row(
                        arith::computes(*f),
                        mask::scores(*score),
                        v@,
                        v.width(),
                        parents@,
                        i,
                        eps,
                    ),
            ),
        },
{
    let n: usize = q.rows;
    if k.rows != n || v.nrows() != n || parents.len() != n {
        let m: usize = if k.rows < v.nrows() {
            k.rows
        } else {
            v.nrows()
        };
        let got: usize = if m < parents.len() {
            m
        } else {
            parents.len()
        };
        return Err(BruceError::DimensionMismatch { expected: n, got });
    }
    if q.cols != k.cols {
        return Err(BruceError::DimensionMismatch { expected: q.cols, got: k.cols });
    }
    let mut t: usize = 0;
    while t < n
        invariant
            t <= n == parents@.len(),
            n == q.rows,
            n <= i64::MAX,
            k.rows == n,
            v@.len() == n,
            q.cols == k.cols,
            first_bad(parents@.take(t as int)) is None,
        decreases n - t,
    {
        assert(parents@.take(t + 1).drop_last() =~= parents@.take(t as int));
        let p: i64 = parents[t];
        if p < -1 || p >= t as i64 {
            let mut s = String::from_str("parents[");
            push_dec(&mut s, t as u64);
            s.append("] = ");
            s.append(dec_int_string(p).as_str());
            s.append("; must be in [-1, ");
            push_dec(&mut s, t as u64);
            s.append(")");
            proof {
                lemma_first_bad(parents@, t as int);
                assert(s@ =~= parent_text(t as int, p));
            }
            return Err(BruceError::InvalidArgument(s));
        }
        t += 1;
    }
    proof {
        assert(parents@.take(t as int) =~= parents@);
        lemma_none_bad(parents@);
    }
    let job = |i: usize| -> (row: Vec<u64>)
        requires
            i < parents@.len(),
        ensures
            row@ == tree_row(
                arith::computes(*f),
                mask::scores(*score),
                v@,
                v.width(),
                parents@,
                i as int,
                eps,
            ),
            row@.len() == v.width(),
        { attend(v, parents, i, eps, score, f) };
    let rows = map_each(n, &job);
    let ghost want = Seq::new(
        q.rows as nat,
        |i: int|
            tree_row(
                arith::computes(*f),
                mask::scores(*score),
                v@,
                v.width(),
                parents@,
                i,
                eps,
            ),
    );
    proof {
        assert forall|i: int| 0 <= i < rows@.len() implies (#[trigger] rows@[i])@.len() == v.width()
            && rows@[i]@ == want[i] by {
            assert(call_ensures(job, (i as usize,), rows@[(i as usize) as int]));
        }
        assert(matrix::rows_view(rows@) =~= want);
    }
    match Matrix::new(rows, v.ncols()) {
        Some(m) => Ok(m),
        None => {
            assert(false);
            Ok(Matrix::empty(v.ncols()))
        },
    }
}

/// A tree attention is refused exactly where the shapes do not agree or some
/// node's parent does not come before it; of several such nodes the first is
/// reported.
pub proof fn tree_is_refused_for_what_is_wrong(
    q: Shape,
    k: Shape,
    v_rows: nat,
    parents: Seq<i64>,
)
    ensures
        tree_error(q, k, v_rows, parents) is None <==> k.rows == q.rows && v_rows == q.rows
            && parents.len() == q.rows && q.cols == k.cols && valid_tree(parents),
        first_bad(parents) matches Some(i) ==> 0 <= i < parents.len() && !(-1 <= parents[i] < i)
            && forall|j: int| 0 <= j < i ==> -1 <= #[trigger] parents[j] < j,
{
    lemma_which_bad(parents);
}

proof fn lemma_which_bad(parents: Seq<i64>)
    ensures
        first_bad(parents) matches Some(i) ==> 0 <= i < parents.len() && !(-1 <= parents[i] < i)
            && forall|j: int| 0 <= j < i ==> -1 <= #[trigger] parents[j] < j,
        first_bad(parents) is None <==> valid_tree(parents),
    decreases parents.len(),
{
    if parents.len() > 0 {
        let rest = parents.drop_last();
        lemma_which_bad(rest);
        let n = parents.len() - 1;
        assert forall|j: int| 0 <= j < n implies #[trigger] parents[j] == rest[j] by {}
        if first_bad(rest) is None {
            assert(valid_tree(rest));
            assert forall|j: int| 0 <= j < n implies -1 <= #[trigger] parents[j] < j by {
                assert(-1 <= rest[j] < j);
            }
            if first_bad(parents) is None {
                assert(valid_tree(parents));
            } else {
                assert(!(-1 <= parents[n] < n));
            }
        } else {
            let i = first_bad(rest)->0;
            assert(!(-1 <= parents[i] < i));
            assert forall|j: int| 0 <= j < i implies -1 <= #[trigger] parents[j] < j by {
                assert(-1 <= rest[j] < j);
            }
        }
    }
}

} // verus!
