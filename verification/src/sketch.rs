//! Sketch-based fuzzy join: the sums over all rows of their features, and
//! of their features times their values, answer any query in a time that
//! does not depend on the number of rows.

use vstd::prelude::*;

use crate::arith;
use crate::arith::{apply_op, Op};
use crate::bits;
use crate::bits::{eq, lt};
use crate::matrix;
use crate::matrix::{zero_row, Matrix};

verus! {

/// Feature map.
#[derive(Debug, Clone, Copy, PartialEq, Eq, Structural)]
pub enum FeatureMap {
    /// `x + 1` above zero, else `e^x`.
    EluPlus1,
    /// The vector itself.
    Identity,
}

/// The feature of one number.
pub open spec fn feature(k: arith::Calc, phi: FeatureMap, x: u64) -> u64 {
    match phi {
        FeatureMap::EluPlus1 => if bits::num_lt(arith::ZERO, x) {
            k(Op::Plus, x, arith::ONE)
        } else {
            k(Op::Exp, x, 0)
        },
        FeatureMap::Identity => x,
    }
}

/// The features of a vector.
pub open spec fn features(k: arith::Calc, phi: FeatureMap, x: Seq<u64>) -> Seq<u64> {
    Seq::new(x.len(), |i: int| feature(k, phi, x[i]))
}

impl FeatureMap {
    /// The features of a vector.
    pub fn apply<F: Fn(Op, u64, u64) -> u64>(self, x: &[u64], f: &F) -> (r: Vec<u64>)
        requires
            arith::steady(*f),
        ensures
            r@ == features(arith::computes(*f), self, x@),
    {
        let ghost k = arith::computes(*f);
        let ghost want = features(k, self, x@);
        let mut r: Vec<u64> = Vec::new();
        let mut i: usize = 0;
        while i < x.len()
            invariant
                i <= x@.len(),
                arith::steady(*f),
                k == arith::computes(*f),
                want == features(k, self, x@),
                r@ == want.take(i as int),
            decreases x.len() - i,
        {
            let y: u64 = match self {
                FeatureMap::EluPlus1 => if lt(arith::ZERO, x[i]) {
                    apply_op(f, Op::Plus, x[i], arith::ONE)
                } else {
                    apply_op(f, Op::Exp, x[i], 0)
                },
                FeatureMap::Identity => x[i],
            };
            r.push(y);
            i += 1;
            assert(r@ =~= want.take(i as int));
        }
        assert(r@ =~= want);
        r
    }

    /// The features of every row.
    pub fn apply_rows<F: Fn(Op, u64, u64) -> u64>(self, k: &Matrix<u64>, f: &F) -> (r: Matrix<u64>)
        requires
            arith::steady(*f),
            k.wf(),
        ensures
            r.wf(),
            r.width() == k.width(),
            r@ == Seq::new(k@.len(), |i: int| features(arith::computes(*f), self, k@[i])),
    {
        let ghost want = Seq::new(
            k@.len(),
            |i: int| features(arith::computes(*f), self, k@[i]),
        );
        let mut rows: Vec<Vec<u64>> = Vec::new();
        let mut i: usize = 0;
        while i < k.nrows()
            invariant
                i <= k@.len(),
                k.wf(),
                arith::steady(*f),
                want == Seq::new(
                    k@.len(),
                    |i: int| features(arith::computes(*f), self, k@[i]),
                ),
                rows@.len() == i,
                forall|t: int|
                    0 <= t < i ==> (#[trigger] rows@[t])@ == want[t] && rows@[t]@.len()
                        == k.width(),
            decreases k@.len() - i,
        {
            assert(k@[i as int].len() == k.width());
            rows.push(self.apply(k.row(i), f));
            i += 1;
        }
        assert(matrix::rows_view(rows@) =~= want);
        match Matrix::new(rows, k.ncols()) {
            Some(m) => m,
            None => {
                assert(false);
                Matrix::empty(k.ncols())
            },
        }
    }
}

/// A sketch as a mathematical value.
#[verifier::ext_equal]
pub struct Sketch {
    /// The sums of features times values.
    pub num: Seq<Seq<u64>>,
    /// The sums of features.
    pub den: Seq<u64>,
    /// The feature map.
    pub phi: FeatureMap,
    /// The number of rows.
    pub n: nat,
}

/// The sketch of no row.
pub open spec fn blank(d_phi: nat, d_v: nat, phi: FeatureMap) -> Sketch {
    Sketch {
        num: Seq::new(d_phi, |a: int| matrix::zeros(d_v)),
        den: matrix::zeros(d_phi),
        phi,
        n: 0,
    }
}

/// `row + p * v`, componentwise.
pub open spec fn grown(k: arith::Calc, row: Seq<u64>, p: u64, v: Seq<u64>) -> Seq<u64> {
    Seq::new(row.len(), |b: int| k(Op::Plus, row[b], k(Op::Times, p, v[b])))
}

/// The sketch with one more row.
pub open spec fn with_row(k: arith::Calc, s: Sketch, key: Seq<u64>, v: Seq<u64>) -> Sketch {
    let p = features(k, s.phi, key);
    Sketch {
        num: Seq::new(s.num.len(), |a: int| grown(k, s.num[a], p[a], v)),
        den: Seq::new(s.den.len(), |a: int| k(Op::Plus, s.den[a], p[a])),
        phi: s.phi,
        n: s.n + 1,
    }
}

/// The sketch of the first `n` rows of a table.
pub open spec fn sketch_of(
    k: arith::Calc,
    keys: Seq<Seq<u64>>,
    v: Seq<Seq<u64>>,
    d_phi: nat,
    d_v: nat,
    phi: FeatureMap,
    n: nat,
) -> Sketch
    decreases n,
{
    if n == 0 {
        blank(d_phi, d_v, phi)
    } else {
        with_row(
            k,
            sketch_of(k, keys, v, d_phi, d_v, phi, (n - 1) as nat),
            keys[n - 1],
            v[n - 1],
        )
    }
}

/// A fuzzy-join sketch.
#[derive(Clone, Debug)]
pub struct FuzzyJoinSketch {
    /// The sums of features times values, one row per feature.
    pub numerator: Vec<Vec<u64>>,
    /// The sums of features.
    pub denominator: Vec<u64>,
    /// Feature map used.
    pub phi: FeatureMap,
    /// Number of rows aggregated.
    pub n_rows: u64,
}

impl View for FuzzyJoinSketch {
    type V = Sketch;

    open spec fn view(&self) -> Sketch {
        Sketch {
            num: matrix::rows_view(self.numerator@),
            den: self.denominator@,
            phi: self.phi,
            n: self.n_rows as nat,
        }
    }
}

impl FuzzyJoinSketch {
    /// As many rows as features, each as wide as values are.
    pub open spec fn shaped(&self, d_phi: nat, d_v: nat) -> bool {
        &&& self.numerator@.len() == d_phi
        &&& self.denominator@.len() == d_phi
        &&& forall|a: int|
            0 <= a < self.numerator@.len() ==> (#[trigger] self.numerator@[a])@.len() == d_v
    }

    /// The sketch of a table of keys and values.
    pub fn build<F: Fn(Op, u64, u64) -> u64>(
        k: &Matrix<u64>,
        v: &Matrix<u64>,
        phi: FeatureMap,
        f: &F,
    ) -> (s: FuzzyJoinSketch)
        requires
            arith::steady(*f),
            k.wf(),
            v.wf(),
            k@.len() == v@.len(),
        ensures
            s.shaped(k.width(), v.width()),
            s@ == sketch_of(
                arith::computes(*f),
                k@,
                v@,
                k.width(),
                v.width(),
                phi,
                k@.len(),
            ),
    {
        let d_phi: usize = k.ncols();
        let d_v: usize = v.ncols();
        let mut numerator: Vec<Vec<u64>> = Vec::new();
        let mut a: usize = 0;
        while a < d_phi
            invariant
                a <= d_phi,
                numerator@.len() == a,
                forall|t: int|
                    0 <= t < a ==> (#[trigger] numerator@[t])@ == matrix::zeros(d_v as nat),
            decreases d_phi - a,
        {
            numerator.push(zero_row(d_v));
            a += 1;
        }
        let mut s = FuzzyJoinSketch { numerator, denominator: zero_row(d_phi), phi, n_rows: 0 };
        assert(s@ =~= blank(d_phi as nat, d_v as nat, phi)) by {
            assert(s@.num =~= blank(d_phi as nat, d_v as nat, phi).num);
        }
        let n: usize = k.nrows();
        let mut i: usize = 0;
        while i < n
            invariant
                i <= n == k@.len(),
                n == v@.len(),
                k.wf(),
                v.wf(),
                d_phi == k.width(),
                d_v == v.width(),
                arith::steady(*f),
                s.shaped(d_phi as nat, d_v as nat),
                s@ == sketch_of(
                    arith::computes(*f),
                    k@,
                    v@,
                    d_phi as nat,
                    d_v as nat,
                    phi,
                    i as nat,
                ),
                s@.n == i,
            decreases n - i,
        {
            assert(k@[i as int].len() == d_phi);
            assert(v@[i as int].len() == d_v);
            s.add(k.row(i), v.row(i), f);
            i += 1;
        }
        s
    }

    /// Adds one row to the sketch.
    pub fn add<F: Fn(Op, u64, u64) -> u64>(&mut self, k: &[u64], v: &[u64], f: &F)
        requires
            arith::steady(*f),
            old(self).shaped(k@.len(), v@.len()),
            old(self).n_rows < u64::MAX,
        ensures
            final(self).shaped(k@.len(), v@.len()),
            final(self)@ == with_row(arith::computes(*f), old(self)@, k@, v@),
    {
        let ghost kc = arith::computes(*f);
        let ghost before = self@;
        let ghost want = with_row(kc, before, k@, v@);
        let p = self.phi.apply(k, f);
        let d: usize = p.len();
        let mut numerator: Vec<Vec<u64>> = Vec::new();
        let mut denominator: Vec<u64> = Vec::new();
        let mut a: usize = 0;
        while a < d
            invariant
                a <= d == k@.len(),
                p@.len() == d,
                arith::steady(*f),
                kc == arith::computes(*f),
                self.shaped(k@.len(), v@.len()),
                before == self@,
                p@ == features(kc, self.phi, k@),
                want == with_row(kc, before, k@, v@),
                numerator@.len() == a,
                forall|t: int|
                    0 <= t < a ==> (#[trigger] numerator@[t])@ == want.num[t] && numerator@[t]@.len()
                        == v@.len(),
                denominator@ == want.den.take(a as int),
            decreases d - a,
        {
            assert(self.numerator@[a as int]@.len() == v@.len());
            assert(before.num[a as int] == self.numerator@[a as int]@);
            let row = grow_row(&self.numerator[a], p[a], v, f);
            numerator.push(row);
            denominator.push(apply_op(f, Op::Plus, self.denominator[a], p[a]));
            a += 1;
            assert(denominator@ =~= want.den.take(a as int));
        }
        assert(denominator@ =~= want.den);
        self.numerator = numerator;
        self.denominator = denominator;
        self.n_rows = self.n_rows + 1;
        assert(self@.num =~= want.num);
    }

    /// Answers a fuzzy-join query. `dots` gives the inner products of given
    /// features with the columns of a numerator, and with a denominator.
    pub fn query<
        D: Fn(&Vec<u64>, &Vec<Vec<u64>>, &Vec<u64>) -> (Vec<u64>, u64),
        F: Fn(Op, u64, u64) -> u64,
    >(&self, x: &[u64], dots: &D, f: &F) -> (r: Vec<u64>)
        requires
            arith::steady(*f),
            forall|p: &Vec<u64>|
                p@.len() == x@.len() ==> #[trigger] call_requires(
                    *dots,
                    (p, &self.numerator, &self.denominator),
                ),
        ensures
            exists|p: &Vec<u64>, d: (Vec<u64>, u64)|
                p@ == features(arith::computes(*f), self.phi, x@) && #[trigger] call_ensures(
                    *dots,
                    (p, &self.numerator, &self.denominator),
                    d,
                ) && r@ == quotient(arith::computes(*f), d.0@, d.1),
    {
        let p = self.phi.apply(x, f);
        let d = dots(&p, &self.numerator, &self.denominator);
        let r = divided(&d.0, d.1, f);
        assert(call_ensures(*dots, (&p, &self.numerator, &self.denominator), d));
        r
    }

    /// The number of numerator cells.
    pub open spec fn cells(&self) -> nat {
        if self.numerator@.len() == 0 {
            0
        } else {
            self.numerator@.len() * self.numerator@[0]@.len()
        }
    }

    /// Total bytes that the sketch occupies: numerator, denominator and 32
    /// more.
    pub fn size_bytes(&self) -> (n: usize)
        requires
            self.cells() * 8 + self.denominator@.len() * 8 + 32 <= usize::MAX,
        ensures
            n == self.cells() * 8 + self.denominator@.len() * 8 + 32,
            forall|d_phi: nat, d_v: nat| #[trigger]
                self.shaped(d_phi, d_v) ==> n == 8 * (d_phi * (d_v + 1)) + 32,
    {
        proof {
            assert forall|d_phi: nat, d_v: nat| #[trigger] self.shaped(d_phi, d_v) implies self.cells()
                * 8 + self.denominator@.len() * 8 + 32 == 8 * (d_phi * (d_v + 1)) + 32 by {
                if d_phi > 0 {
                    assert(self.numerator@[0]@.len() == d_v);
                }
                assert(d_phi * (d_v + 1) == d_phi * d_v + d_phi) by (nonlinear_arith);
                assert(0 * d_v == 0) by (nonlinear_arith);
            }
        }
        let cells: usize = if self.numerator.len() == 0 {
            0
        } else {
            self.numerator.len() * self.numerator[0].len()
        };
        cells * 8 + self.denominator.len() * 8 + 32
    }
}

/// Quotients by a denominator; zeros where it is zero.
pub open spec fn quotient(k: arith::Calc, num: Seq<u64>, den: u64) -> Seq<u64> {
    if bits::num_eq(den, arith::ZERO) {
        matrix::zeros(num.len())
    } else {
        Seq::new(num.len(), |b: int| k(Op::Over, num[b], den))
    }
}

/// Quotients by a denominator; zeros where it is zero.
pub fn divided<F: Fn(Op, u64, u64) -> u64>(num: &Vec<u64>, den: u64, f: &F) -> (r: Vec<u64>)
    requires
        arith::steady(*f),
    ensures
        r@ == quotient(arith::computes(*f), num@, den),
{
    let ghost k = arith::computes(*f);
    if eq(den, arith::ZERO) {
        return zero_row(num.len());
    }
    let ghost want = quotient(k, num@, den);
    let mut r: Vec<u64> = Vec::new();
    let mut b: usize = 0;
    while b < num.len()
        invariant
            b <= num@.len(),
            arith::steady(*f),
            k == arith::computes(*f),
            !bits::num_eq(den, arith::ZERO),
            want == quotient(k, num@, den),
            r@ == want.take(b as int),
        decreases num.len() - b,
    {
        r.push(apply_op(f, Op::Over, num[b], den));
        b += 1;
        assert(r@ =~= want.take(b as int));
    }
    assert(r@ =~= want);
    r
}

fn grow_row<F: Fn(Op, u64, u64) -> u64>(row: &Vec<u64>, p: u64, v: &[u64], f: &F) -> (r: Vec<u64>)
    requires
        arith::steady(*f),
        row@.len() == v@.len(),
    ensures
        r@ == grown(arith::computes(*f), row@, p, v@),
{
    let ghost k = arith::computes(*f);
    let ghost want = grown(k, row@, p, v@);
    let mut r: Vec<u64> = Vec::new();
    let mut b: usize = 0;
    while b < row.len()
        invariant
            b <= row@.len(),
            row@.len() == v@.len(),
            arith::steady(*f),
            k == arith::computes(*f),
            want == grown(k, row@, p, v@),
            r@ == want.take(b as int),
        decreases row.len() - b,
    {
        let x: u64 = apply_op(f, Op::Times, p, v[b]);
        r.push(apply_op(f, Op::Plus, row[b], x));
        b += 1;
        assert(r@ =~= want.take(b as int));
    }
    assert(r@ =~= want);
    r
}

/// A sketch built at once is the sketch of all rows but the last with the
/// last added: building and adding agree.
pub proof fn incremental_equals_batch(
    k: arith::Calc,
    keys: Seq<Seq<u64>>,
    v: Seq<Seq<u64>>,
    d_phi: nat,
    d_v: nat,
    phi: FeatureMap,
    key: Seq<u64>,
    val: Seq<u64>,
)
    requires
        keys.len() == v.len(),
    ensures
        sketch_of(k, keys.push(key), v.push(val), d_phi, d_v, phi, (keys.len() + 1) as nat)
            == with_row(k, sketch_of(k, keys, v, d_phi, d_v, phi, keys.len()), key, val),
{
    lemma_prefix(k, keys, v, d_phi, d_v, phi, key, val, keys.len());
}

proof fn lemma_prefix(
    k: arith::Calc,
    keys: Seq<Seq<u64>>,
    v: Seq<Seq<u64>>,
    d_phi: nat,
    d_v: nat,
    phi: FeatureMap,
    key: Seq<u64>,
    val: Seq<u64>,
    n: nat,
)
    requires
        keys.len() == v.len(),
        n <= keys.len(),
    ensures
        sketch_of(k, keys.push(key), v.push(val), d_phi, d_v, phi, n) == sketch_of(
            k,
            keys,
            v,
            d_phi,
            d_v,
            phi,
            n,
        ),
    decreases n,
{
    if n > 0 {
        lemma_prefix(k, keys, v, d_phi, d_v, phi, key, val, (n - 1) as nat);
    }
}

/// The size of a sketch does not depend on the number of its rows.
pub proof fn sketch_size_is_independent_of_rows(
    k: arith::Calc,
    keys: Seq<Seq<u64>>,
    v: Seq<Seq<u64>>,
    d_phi: nat,
    d_v: nat,
    phi: FeatureMap,
    n: nat,
)
    ensures
        sketch_of(k, keys, v, d_phi, d_v, phi, n).num.len() == d_phi,
        sketch_of(k, keys, v, d_phi, d_v, phi, n).den.len() == d_phi,
        forall|a: int|
            0 <= a < d_phi ==> (#[trigger] sketch_of(k, keys, v, d_phi, d_v, phi, n).num[a]).len()
                == d_v,
    decreases n,
{
    if n > 0 {
        sketch_size_is_independent_of_rows(k, keys, v, d_phi, d_v, phi, (n - 1) as nat);
    }
}

} // verus!
