//! Partition-reduce: each partition of the memory gives its largest score
//! with a numerator and denominator shifted by it, and these triples
//! combine.

use vstd::prelude::*;

use crate::arith;
use crate::arith::{apply_op, max, weigh, Op};
use crate::bits;
use crate::bits::{eq, is_finite, is_nan, lt};
use crate::matrix;
use crate::matrix::zero_row;
use crate::semiring;
use crate::semiring::peak_of;
use crate::tree;
use crate::tree::add_scaled;
use crate::types::Eps;

verus! {

/// One partition's contribution.
#[derive(Clone, Debug)]
pub struct PartialTriple {
    /// Largest score of the partition.
    pub m_local: u64,
    /// Shifted numerator: the sum of weighted values.
    pub num_local: Vec<u64>,
    /// Shifted denominator: the sum of weights.
    pub den_local: u64,
}

/// A contribution as a mathematical value.
pub struct Triple {
    pub m: u64,
    pub num: Seq<u64>,
    pub den: u64,
}

impl View for PartialTriple {
    type V = Triple;

    open spec fn view(&self) -> Triple {
        Triple { m: self.m_local, num: self.num_local@, den: self.den_local }
    }
}

/// A contribution of no rows.
pub open spec fn nothing(d: nat) -> Triple {
    Triple { m: bits::NEG_INF, num: matrix::zeros(d), den: arith::ZERO }
}

/// The weight of a score under an anchor, away from the tropical limit. In
/// the uniform limit it is 1, also of an infinite score.
pub open spec fn heft(k: arith::Calc, s: u64, m: u64, eps: Eps) -> u64 {
    if eps.uniform() && !bits::nan(s) {
        arith::ONE
    } else {
        arith::weight(k, s, m, eps.0)
    }
}

/// The weight of a score in a partition: all or nothing in the tropical
/// limit.
pub open spec fn share(k: arith::Calc, s: u64, m: u64, eps: Eps) -> Option<u64> {
    if eps.tropical() {
        if bits::num_eq(s, m) {
            Some(arith::ONE)
        } else {
            None
        }
    } else {
        Some(heft(k, s, m, eps))
    }
}

/// The sums over rows under an anchor, taken in order.
pub open spec fn summed(
    k: arith::Calc,
    s: Seq<u64>,
    v: Seq<Seq<u64>>,
    m: u64,
    d: nat,
    eps: Eps,
) -> Triple
    decreases s.len(),
{
    if s.len() == 0 {
        Triple { m, num: matrix::zeros(d), den: arith::ZERO }
    } else {
        let i = s.len() - 1;
        let t = summed(k, s.drop_last(), v, m, d, eps);
        match share(k, s[i], m, eps) {
            Some(w) => Triple {
                m,
                num: tree::scaled_add(k, t.num, w, v[i]),
                den: k(Op::Plus, t.den, w),
            },
            None => t,
        }
    }
}

/// The contribution of a list of rows.
pub open spec fn contribution(
    k: arith::Calc,
    s: Seq<u64>,
    v: Seq<Seq<u64>>,
    eps: Eps,
) -> Triple {
    let d = if v.len() == 0 {
        0
    } else {
        v[0].len()
    };
    let m = semiring::peak(s);
    if s.len() == 0 || d == 0 || !(bits::finite(m) || eps.uniform()) {
        nothing(d)
    } else {
        summed(k, s, v, m, d, eps)
    }
}

/// The anchors of contributions.
pub open spec fn anchors(p: Seq<Triple>) -> Seq<u64> {
    Seq::new(p.len(), |i: int| p[i].m)
}

/// A contribution of no rows. In the uniform limit rows at minus infinity
/// count, so that the sums tell.
pub open spec fn vacant(q: Triple, eps: Eps) -> bool {
    &&& q.m == bits::NEG_INF
    &&& eps.uniform() ==> q.den == arith::ZERO && q.num == matrix::zeros(q.num.len())
}

/// The contributions moved to a common anchor and added, in order; those of
/// no rows are passed over.
pub open spec fn gathered(k: arith::Calc, p: Seq<Triple>, m: u64, d: nat, eps: Eps) -> Triple
    decreases p.len(),
{
    if p.len() == 0 {
        Triple { m, num: matrix::zeros(d), den: arith::ZERO }
    } else {
        let t = gathered(k, p.drop_last(), m, d, eps);
        let q = p.last();
        if vacant(q, eps) {
            t
        } else {
            match share(k, q.m, m, eps) {
                Some(w) => Triple {
                    m,
                    num: tree::scaled_add(k, t.num, w, q.num),
                    den: if eps.tropical() {
                        k(Op::Plus, t.den, q.den)
                    } else {
                        k(Op::Plus, t.den, k(Op::Times, q.den, w))
                    },
                },
                None => t,
            }
        }
    }
}

/// Several contributions as one.
pub open spec fn combined(k: arith::Calc, p: Seq<Triple>, eps: Eps) -> Triple {
    if p.len() == 0 {
        nothing(0)
    } else {
        let d = p[0].num.len();
        let m = semiring::peak(anchors(p));
        if !(bits::finite(m) || eps.uniform()) {
            nothing(d)
        } else {
            gathered(k, p, m, d, eps)
        }
    }
}

/// The views of a list of values.
pub open spec fn values_view(v: Seq<Vec<u64>>) -> Seq<Seq<u64>> {
    Seq::new(v.len(), |i: int| v[i]@)
}

/// The views of a list of contributions.
pub open spec fn triples_view(p: Seq<PartialTriple>) -> Seq<Triple> {
    Seq::new(p.len(), |i: int| p[i]@)
}

/// The weight of a score under an anchor, away from the tropical limit.
pub(crate) fn heft_of<F: Fn(Op, u64, u64) -> u64>(s: u64, m: u64, eps: Eps, f: &F) -> (w: u64)
    requires
        arith::steady(*f),
    ensures
        w == heft(arith::computes(*f), s, m, eps),
{
    if eps.is_inf() && !is_nan(s) {
        arith::ONE
    } else {
        weigh(f, s, m, eps.0)
    }
}

/// The weight of a score in a partition.
pub(crate) fn share_of<F: Fn(Op, u64, u64) -> u64>(s: u64, m: u64, eps: Eps, f: &F) -> (r: Option<u64>)
    requires
        arith::steady(*f),
    ensures
        r == share(arith::computes(*f), s, m, eps),
{
    if eps.is_zero() {
        if eq(s, m) {
            Some(arith::ONE)
        } else {
            None
        }
    } else {
        Some(heft_of(s, m, eps, f))
    }
}

impl PartialTriple {
    /// An empty contribution, the identity of `combine`.
    pub fn empty(d_v: usize) -> (t: PartialTriple)
        ensures
            t@ == nothing(d_v as nat),
    {
        PartialTriple {
            m_local: bits::NEG_INF,
            num_local: zero_row(d_v),
            den_local: arith::ZERO,
        }
    }

    /// The contribution of a list of scores and values.
    pub fn from_pairs<F: Fn(Op, u64, u64) -> u64>(
        scores: &[u64],
        values: &[Vec<u64>],
        eps: Eps,
        f: &F,
    ) -> (t: PartialTriple)
        requires
            arith::steady(*f),
            scores@.len() == values@.len(),
            forall|i: int|
                0 <= i < values@.len() ==> (#[trigger] values@[i])@.len() == values@[0]@.len(),
        ensures
            t@ == contribution(arith::computes(*f), scores@, values_view(values@), eps),
    {
        let ghost k = arith::computes(*f);
        let ghost vv = values_view(values@);
        if scores.len() == 0 {
            return PartialTriple::empty(0);
        }
        let d: usize = values[0].len();
        if d == 0 {
            return PartialTriple::empty(d);
        }
        let m: u64 = peak_of(scores);
        if !is_finite(m) && !eps.is_inf() {
            return PartialTriple::empty(d);
        }
        let mut num = zero_row(d);
        let mut den: u64 = arith::ZERO;
        let mut i: usize = 0;
        while i < scores.len()
            invariant
                i <= scores@.len(),
                scores@.len() == values@.len(),
                forall|x: int| 0 <= x < values@.len() ==> (#[trigger] values@[x])@.len() == d,
                arith::steady(*f),
                k == arith::computes(*f),
                vv == values_view(values@),
                num@.len() == d,
                (Triple { m, num: num@, den }) == summed(
                    k,
                    scores@.take(i as int),
                    vv,
                    m,
                    d as nat,
                    eps,
                ),
            decreases scores.len() - i,
        {
            assert(scores@.take(i + 1).drop_last() =~= scores@.take(i as int));
            assert(values@[i as int]@.len() == d);
            if let Some(w) = share_of(scores[i], m, eps, f) {
                num = add_scaled(&num, w, values[i].as_slice(), f);
                den = apply_op(f, Op::Plus, den, w);
            }
            i += 1;
        }
        assert(scores@.take(i as int) =~= scores@);
        PartialTriple { m_local: m, num_local: num, den_local: den }
    }
}

fn is_vacant(q: &PartialTriple, eps: Eps) -> (r: bool)
    ensures
        r == vacant(q@, eps),
{
    if q.m_local != bits::NEG_INF {
        return false;
    }
    if !eps.is_inf() {
        return true;
    }
    if q.den_local != arith::ZERO {
        return false;
    }
    let mut c: usize = 0;
    while c < q.num_local.len()
        invariant
            c <= q.num_local@.len(),
            eps.uniform(),
            forall|x: int| 0 <= x < c ==> q.num_local@[x] == arith::ZERO,
        decreases q.num_local.len() - c,
    {
        if q.num_local[c] != arith::ZERO {
            assert(q@.num[c as int] != matrix::zeros(q@.num.len())[c as int]);
            return false;
        }
        c += 1;
    }
    assert(q.num_local@ =~= matrix::zeros(q.num_local@.len()));
    true
}

/// Merge contributions into one at the largest anchor. In the tropical
/// limit only those at the largest anchor count. An empty contribution is
/// the identity, at every temperature.
pub fn combine<F: Fn(Op, u64, u64) -> u64>(partials: &[PartialTriple], eps: Eps, f: &F) -> (t:
    PartialTriple)
    requires
        arith::steady(*f),
        forall|i: int|
            0 <= i < partials@.len() ==> (#[trigger] partials@[i]).num_local@.len()
                == partials@[0].num_local@.len(),
    ensures
        t@ == combined(arith::computes(*f), triples_view(partials@), eps),
{
    let ghost k = arith::computes(*f);
    let ghost p = triples_view(partials@);
    if partials.len() == 0 {
        return PartialTriple::empty(0);
    }
    let d: usize = partials[0].num_local.len();
    let mut m: u64 = bits::NEG_INF;
    let mut i: usize = 0;
    while i < partials.len()
        invariant
            i <= partials@.len(),
            p == triples_view(partials@),
            m == semiring::peak(anchors(p).take(i as int)),
        decreases partials.len() - i,
    {
        assert(anchors(p).take(i + 1).drop_last() =~= anchors(p).take(i as int));
        m = max(m, partials[i].m_local);
        i += 1;
    }
    assert(anchors(p).take(i as int) =~= anchors(p));
    if !is_finite(m) && !eps.is_inf() {
        return PartialTriple::empty(d);
    }
    let mut num = zero_row(d);
    let mut den: u64 = arith::ZERO;
    let mut j: usize = 0;
    while j < partials.len()
        invariant
            j <= partials@.len(),
            forall|x: int|
                0 <= x < partials@.len() ==> (#[trigger] partials@[x]).num_local@.len() == d,
            arith::steady(*f),
            k == arith::computes(*f),
            p == triples_view(partials@),
            num@.len() == d,
            (Triple { m, num: num@, den }) == gathered(k, p.take(j as int), m, d as nat, eps),
        decreases partials.len() - j,
    {
        assert(p.take(j + 1).drop_last() =~= p.take(j as int));
        assert(partials@[j as int].num_local@.len() == d);
        if !is_vacant(&partials[j], eps) {
            if let Some(w) = share_of(partials[j].m_local, m, eps, f) {
                num = add_scaled(&num, w, partials[j].num_local.as_slice(), f);
                if eps.is_zero() {
                    den = apply_op(f, Op::Plus, den, partials[j].den_local);
                } else {
                    let x: u64 = apply_op(f, Op::Times, partials[j].den_local, w);
                    den = apply_op(f, Op::Plus, den, x);
                }
            }
        }
        j += 1;
    }
    assert(p.take(j as int) =~= p);
    PartialTriple { m_local: m, num_local: num, den_local: den }
}

/// The attention output of a contribution: zeros where its denominator is
/// not positive.
pub open spec fn outcome(k: arith::Calc, t: Triple) -> Seq<u64> {
    if bits::num_lt(t.den, arith::ZERO) || bits::num_eq(t.den, arith::ZERO) {
        matrix::zeros(t.num.len())
    } else {
        Seq::new(t.num.len(), |c: int| k(Op::Over, t.num[c], t.den))
    }
}

/// Numerator over denominator; zeros where the denominator is not positive.
pub fn ratio<F: Fn(Op, u64, u64) -> u64>(num: &Vec<u64>, den: u64, f: &F) -> (r: Vec<u64>)
    requires
        arith::steady(*f),
    ensures
        r@ == outcome(arith::computes(*f), Triple { m: 0, num: num@, den }),
{
    let ghost k = arith::computes(*f);
    if lt(den, arith::ZERO) || eq(den, arith::ZERO) {
        return zero_row(num.len());
    }
    let ghost want = Seq::new(num@.len(), |c: int| k(Op::Over, num@[c], den));
    let mut r: Vec<u64> = Vec::new();
    let mut c: usize = 0;
    while c < num.len()
        invariant
            c <= num@.len(),
            arith::steady(*f),
            k == arith::computes(*f),
            want == Seq::new(num@.len(), |c: int| k(Op::Over, num@[c], den)),
            r@ == want.take(c as int),
        decreases num.len() - c,
    {
        r.push(apply_op(f, Op::Over, num[c], den));
        c += 1;
        assert(r@ =~= want.take(c as int));
    }
    assert(r@ =~= want);
    r
}

/// Final attention output from a combined contribution.
pub fn finalize<F: Fn(Op, u64, u64) -> u64>(combined: &PartialTriple, f: &F) -> (r: Vec<u64>)
    requires
        arith::steady(*f),
    ensures
        r@ == outcome(arith::computes(*f), combined@),
{
    ratio(&combined.num_local, combined.den_local, f)
}

// ------------------------------------------------------------------ laws

/// However the scores are cut, the largest anchor of the parts is the
/// largest score of the whole.
pub proof fn anchor_does_not_depend_on_the_partition(a: Seq<u64>, b: Seq<u64>)
    ensures
        semiring::peak(a + b) == arith::larger(semiring::peak(a), semiring::peak(b)),
    decreases b.len(),
{
    semiring::lemma_peak(a);
    semiring::lemma_peak(b);
    if b.len() == 0 {
        assert(a + b =~= a);
        assert(bits::magnitude(semiring::peak(a)) <= bits::POS_INF);
    } else {
        let r = b.drop_last();
        anchor_does_not_depend_on_the_partition(a, r);
        semiring::lemma_peak(r);
        assert((a + b).drop_last() =~= a + r);
        assert(bits::magnitude(semiring::peak(r)) <= bits::POS_INF);
    }
}

proof fn lemma_gathered_skips(
    k: arith::Calc,
    a: Seq<Triple>,
    b: Seq<Triple>,
    m: u64,
    d: nat,
    eps: Eps,
)
    ensures
        gathered(k, a + seq![nothing(d)] + b, m, d, eps) == gathered(k, a + b, m, d, eps),
    decreases b.len(),
{
    let p = a + seq![nothing(d)] + b;
    if b.len() == 0 {
        assert(p.drop_last() =~= a);
        assert(a + b =~= a);
        assert(p.last() == nothing(d));
    } else {
        lemma_gathered_skips(k, a, b.drop_last(), m, d, eps);
        assert(p.drop_last() =~= a + seq![nothing(d)] + b.drop_last());
        assert((a + b).drop_last() =~= a + b.drop_last());
        assert(p.last() == b.last());
        assert((a + b).last() == b.last());
    }
}

/// The empty contribution is the identity: wherever it stands among others
/// of its width, it changes nothing, at every temperature.
pub proof fn empty_part_changes_nothing(
    k: arith::Calc,
    a: Seq<Triple>,
    b: Seq<Triple>,
    d: nat,
    eps: Eps,
)
    requires
        (a + b).len() > 0,
        (a + b)[0].num.len() == d,
    ensures
        combined(k, a + seq![nothing(d)] + b, eps) == combined(k, a + b, eps),
{
    let e = seq![nothing(d)];
    let p = a + e + b;
    let s = anchors(e);
    assert(anchors(p) =~= anchors(a) + s + anchors(b));
    assert(anchors(a + b) =~= anchors(a) + anchors(b));
    assert(s.drop_last() =~= Seq::<u64>::empty());
    anchor_does_not_depend_on_the_partition(anchors(a) + s, anchors(b));
    anchor_does_not_depend_on_the_partition(anchors(a), s);
    anchor_does_not_depend_on_the_partition(anchors(a), anchors(b));
    semiring::lemma_peak(anchors(a));
    assert(semiring::peak(s) == bits::NEG_INF) by {
        reveal_with_fuel(semiring::peak, 2);
    }
    assert(p[0].num.len() == d) by {
        if a.len() > 0 {
            assert(p[0] == a[0]);
            assert((a + b)[0] == a[0]);
        } else {
            assert(p[0] == nothing(d));
        }
    }
    lemma_gathered_skips(k, a, b, semiring::peak(anchors(p)), d, eps);
}

/// `0 + 1 * x == x` and `0 + x * 1 == x`.
pub open spec fn plain(k: arith::Calc, x: u64) -> bool {
    &&& k(Op::Plus, arith::ZERO, k(Op::Times, arith::ONE, x)) == x
    &&& k(Op::Plus, arith::ZERO, k(Op::Times, x, arith::ONE)) == x
    &&& k(Op::Plus, arith::ZERO, x) == x
}

/// A contribution combined with the empty one is itself, on either side and
/// at every temperature, wherever its numbers are unchanged by adding zero
/// and multiplying by one, and its anchor weighs 1 against itself.
pub proof fn combining_with_empty_gives_the_part(k: arith::Calc, p: Triple, eps: Eps)
    requires
        p == nothing(p.num.len()) || bits::finite(p.m) || (eps.uniform() && !bits::nan(p.m)),
        plain(k, p.den),
        forall|c: int| 0 <= c < p.num.len() ==> plain(k, #[trigger] p.num[c]),
        !eps.tropical() ==> heft(k, p.m, p.m, eps) == arith::ONE,
    ensures
        combined(k, seq![nothing(p.num.len()), p], eps) == p,
        combined(k, seq![p, nothing(p.num.len())], eps) == p,
{
    let d = p.num.len();
    let none = Seq::<Triple>::empty();
    let one = seq![p];
    assert(none + one =~= one && one + none =~= one);
    empty_part_changes_nothing(k, none, one, d, eps);
    empty_part_changes_nothing(k, one, none, d, eps);
    assert(none + seq![nothing(d)] + one =~= seq![nothing(d), p]);
    assert(one + seq![nothing(d)] + none =~= seq![p, nothing(d)]);
    assert(anchors(one).drop_last() =~= Seq::<u64>::empty());
    assert(one.drop_last() =~= none);
    let m = semiring::peak(anchors(one));
    assert(m == arith::larger(bits::NEG_INF, p.m)) by {
        reveal_with_fuel(semiring::peak, 2);
    }
    let t = gathered(k, one, m, d, eps);
    assert(gathered(k, none, m, d, eps) == (Triple { m, num: matrix::zeros(d), den: arith::ZERO }));
    assert(m == p.m);
    assert(one.last() == p);
    if !vacant(p, eps) {
        assert forall|c: int| 0 <= c < d implies t.num[c] == p.num[c] by {
            assert(plain(k, p.num[c]));
        }
        assert(t.num =~= p.num);
    }
}

/// In the tropical limit a contribution below the largest anchor changes
/// nothing.
pub proof fn tropical_combine_ignores_lower_parts(
    k: arith::Calc,
    p: Seq<Triple>,
    q: Triple,
    m: u64,
    d: nat,
    eps: Eps,
)
    requires
        eps.tropical(),
        !bits::num_eq(q.m, m),
    ensures
        gathered(k, p.push(q), m, d, eps) == gathered(k, p, m, d, eps),
{
    assert(p.push(q).drop_last() =~= p);
}

/// In the tropical limit a row below the largest score contributes nothing.
pub proof fn tropical_contribution_ignores_lower_rows(
    k: arith::Calc,
    s: Seq<u64>,
    v: Seq<Seq<u64>>,
    t: u64,
    m: u64,
    d: nat,
    eps: Eps,
)
    requires
        eps.tropical(),
        !bits::num_eq(t, m),
    ensures
        summed(k, s.push(t), v, m, d, eps) == summed(k, s, v, m, d, eps),
{
    assert(s.push(t).drop_last() =~= s);
}

} // verus!
