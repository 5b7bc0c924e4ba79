//! Differential privacy: the noise that the Laplace and Gaussian mechanisms
//! add, as a function of what chance drew.

use vstd::prelude::*;

use crate::arith;
use crate::arith::{apply_op, Op};
use crate::bits;
use crate::bits::{is_nan, neg};

verus! {

/// The pattern of `1.25`.
pub const ONE_AND_A_QUARTER: u64 = 0x3FF4_0000_0000_0000;

/// The pattern of `1e-5`.
pub const SMALL_DELTA: u64 = 0x3EE4_F8B5_88E3_68F1;

/// The privacy parameters of a mechanism.
#[derive(Debug, Clone, Copy)]
pub struct DpBudget {
    /// Privacy loss. Smaller is stronger.
    pub epsilon: u64,
    /// Slack; zero is none.
    pub delta: u64,
}

impl DpBudget {
    /// A common starting budget.
    pub fn standard() -> (b: DpBudget)
        ensures
            b == (DpBudget { epsilon: arith::ONE, delta: SMALL_DELTA }),
    {
        DpBudget { epsilon: arith::ONE, delta: SMALL_DELTA }
    }

    /// No slack.
    pub fn pure(epsilon: u64) -> (b: DpBudget)
        ensures
            b == (DpBudget { epsilon, delta: arith::ZERO }),
    {
        DpBudget { epsilon, delta: arith::ZERO }
    }
}

/// The number without its sign.
pub open spec fn absolute(x: u64) -> u64 {
    bits::magnitude(x) as u64
}

/// One with the sign of the number; NaN for NaN.
pub open spec fn sign_of(x: u64) -> u64 {
    if bits::nan(x) {
        x
    } else if x >= bits::SIGN {
        bits::negated(arith::ONE)
    } else {
        arith::ONE
    }
}

fn abs(x: u64) -> (r: u64)
    ensures
        r == absolute(x),
{
    if x >= bits::SIGN {
        x - bits::SIGN
    } else {
        x
    }
}

fn signum(x: u64) -> (r: u64)
    ensures
        r == sign_of(x),
{
    if is_nan(x) {
        x
    } else if x >= bits::SIGN {
        neg(arith::ONE)
    } else {
        arith::ONE
    }
}

/// Laplace mechanism: noise of scale sensitivity over privacy loss.
#[derive(Debug, Clone)]
pub struct LaplaceMechanism {
    /// Sensitivity of the query.
    pub l1_sensitivity: u64,
    /// Privacy budget.
    pub budget: DpBudget,
    /// Seed for reproducible draws.
    pub seed: Option<u64>,
}

/// The Laplace noise of a uniform draw `u` between `-1/2` and `1/2`, by the
/// inverse of the distribution: `-b * sign(u) * ln(1 - 2 |u|)`.
pub open spec fn laplace_noise(k: arith::Calc, l1: u64, epsilon: u64, u: u64) -> u64 {
    let b = k(Op::Over, l1, epsilon);
    let tail = k(Op::Minus, arith::ONE, k(Op::Times, arith::TWO, absolute(u)));
    k(Op::Times, k(Op::Times, bits::negated(b), sign_of(u)), k(Op::Ln, tail, 0))
}

/// Values with one noise each added.
pub open spec fn noised(k: arith::Calc, v: Seq<u64>, noise: Seq<u64>) -> Seq<u64> {
    Seq::new(v.len(), |i: int| k(Op::Plus, v[i], noise[i]))
}

impl LaplaceMechanism {
    /// A new mechanism without a seed.
    pub fn new(l1_sensitivity: u64, budget: DpBudget) -> (m: LaplaceMechanism)
        ensures
            m == (LaplaceMechanism { l1_sensitivity, budget, seed: None }),
    {
        LaplaceMechanism { l1_sensitivity, budget, seed: None }
    }

    /// Reproducible variant.
    pub fn with_seed(self, seed: u64) -> (m: LaplaceMechanism)
        ensures
            m == (LaplaceMechanism { seed: Some(seed), ..self }),
    {
        LaplaceMechanism {
            l1_sensitivity: self.l1_sensitivity,
            budget: self.budget,
            seed: Some(seed),
        }
    }

    /// The noise of a uniform draw between `-1/2` and `1/2`.
    pub fn sample<F: Fn(Op, u64, u64) -> u64>(&self, u: u64, f: &F) -> (x: u64)
        requires
            arith::steady(*f),
        ensures
            x == laplace_noise(
                arith::computes(*f),
                self.l1_sensitivity,
                self.budget.epsilon,
                u,
            ),
    {
        let b: u64 = apply_op(f, Op::Over, self.l1_sensitivity, self.budget.epsilon);
        let t: u64 = apply_op(f, Op::Times, arith::TWO, abs(u));
        let tail: u64 = apply_op(f, Op::Minus, arith::ONE, t);
        let l: u64 = apply_op(f, Op::Ln, tail, 0);
        let s: u64 = apply_op(f, Op::Times, neg(b), signum(u));
        apply_op(f, Op::Times, s, l)
    }

    /// A value with the noise of a draw added.
    pub fn release_scalar<F: Fn(Op, u64, u64) -> u64>(&self, true_value: u64, u: u64, f: &F) -> (x:
        u64)
        requires
            arith::steady(*f),
        ensures
            x == arith::computes(*f)(
                Op::Plus,
                true_value,
                laplace_noise(
                    arith::computes(*f),
                    self.l1_sensitivity,
                    self.budget.epsilon,
                    u,
                ),
            ),
    {
        let e: u64 = self.sample(u, f);
        apply_op(f, Op::Plus, true_value, e)
    }

    /// Values with the noise of one draw each added.
    pub fn release_vector<F: Fn(Op, u64, u64) -> u64>(
        &self,
        true_values: &[u64],
        draws: &[u64],
        f: &F,
    ) -> (r: Vec<u64>)
        requires
            arith::steady(*f),
            draws@.len() == true_values@.len(),
        ensures
            r@ == noised(
                arith::computes(*f),
                true_values@,
                Seq::new(
                    draws@.len(),
                    |i: int|
                        laplace_noise(
                            arith::computes(*f),
                            self.l1_sensitivity,
                            self.budget.epsilon,
                            draws@[i],
                        ),
                ),
            ),
    {
        let ghost k = arith::computes(*f);
        let ghost noise = Seq::new(
            draws@.len(),
            |i: int| laplace_noise(k, self.l1_sensitivity, self.budget.epsilon, draws@[i]),
        );
        let ghost want = noised(k, true_values@, noise);
        let mut r: Vec<u64> = Vec::new();
        let mut i: usize = 0;
        while i < true_values.len()
            invariant
                i <= true_values@.len(),
                draws@.len() == true_values@.len(),
                arith::steady(*f),
                k == arith::computes(*f),
                noise == Seq::new(
                    draws@.len(),
                    |i: int|
                        laplace_noise(k, self.l1_sensitivity, self.budget.epsilon, draws@[i]),
                ),
                want == noised(k, true_values@, noise),
                r@ == want.take(i as int),
            decreases true_values.len() - i,
        {
            r.push(self.release_scalar(true_values[i], draws[i], f));
            i += 1;
            assert(r@ =~= want.take(i as int));
        }
        assert(r@ =~= want);
        r
    }
}

/// Gaussian mechanism.
#[derive(Debug, Clone)]
pub struct GaussianMechanism {
    /// Sensitivity of the query.
    pub l2_sensitivity: u64,
    /// Privacy budget.
    pub budget: DpBudget,
    /// Seed for reproducible draws.
    pub seed: Option<u64>,
}

/// The standard deviation: `sensitivity / epsilon * sqrt(2 ln(1.25 /
/// delta))`.
pub open spec fn deviation(k: arith::Calc, l2: u64, b: DpBudget) -> u64 {
    k(
        Op::Times,
        k(Op::Over, l2, b.epsilon),
        k(
            Op::Sqrt,
            k(Op::Times, arith::TWO, k(Op::Ln, k(Op::Over, ONE_AND_A_QUARTER, b.delta), 0)),
            0,
        ),
    )
}

impl GaussianMechanism {
    /// A new mechanism without a seed.
    pub fn new(l2_sensitivity: u64, budget: DpBudget) -> (m: GaussianMechanism)
        ensures
            m == (GaussianMechanism { l2_sensitivity, budget, seed: None }),
    {
        GaussianMechanism { l2_sensitivity, budget, seed: None }
    }

    /// Reproducible variant.
    pub fn with_seed(self, seed: u64) -> (m: GaussianMechanism)
        ensures
            m == (GaussianMechanism { seed: Some(seed), ..self }),
    {
        GaussianMechanism {
            l2_sensitivity: self.l2_sensitivity,
            budget: self.budget,
            seed: Some(seed),
        }
    }

    /// Standard deviation of the noise.
    pub fn sigma<F: Fn(Op, u64, u64) -> u64>(&self, f: &F) -> (x: u64)
        requires
            arith::steady(*f),
        ensures
            x == deviation(arith::computes(*f), self.l2_sensitivity, self.budget),
    {
        let q: u64 = apply_op(f, Op::Over, ONE_AND_A_QUARTER, self.budget.delta);
        let l: u64 = apply_op(f, Op::Ln, q, 0);
        let t: u64 = apply_op(f, Op::Times, arith::TWO, l);
        let r: u64 = apply_op(f, Op::Sqrt, t, 0);
        let s: u64 = apply_op(f, Op::Over, self.l2_sensitivity, self.budget.epsilon);
        apply_op(f, Op::Times, s, r)
    }

    /// A value with a normal draw of this deviation added.
    pub fn release_scalar<F: Fn(Op, u64, u64) -> u64>(
        &self,
        true_value: u64,
        draw: u64,
        f: &F,
    ) -> (x: u64)
        requires
            arith::steady(*f),
        ensures
            x == arith::computes(*f)(Op::Plus, true_value, draw),
    {
        apply_op(f, Op::Plus, true_value, draw)
    }

    /// Values with one normal draw of this deviation each added.
    pub fn release_vector<F: Fn(Op, u64, u64) -> u64>(
        &self,
        true_values: &[u64],
        draws: &[u64],
        f: &F,
    ) -> (r: Vec<u64>)
        requires
            arith::steady(*f),
            draws@.len() == true_values@.len(),
        ensures
            r@ == noised(arith::computes(*f), true_values@, draws@),
    {
        let ghost k = arith::computes(*f);
        let ghost want = noised(k, true_values@, draws@);
        let mut r: Vec<u64> = Vec::new();
        let mut i: usize = 0;
        while i < true_values.len()
            invariant
                i <= true_values@.len(),
                draws@.len() == true_values@.len(),
                arith::steady(*f),
                k == arith::computes(*f),
                want == noised(k, true_values@, draws@),
                r@ == want.take(i as int),
            decreases true_values.len() - i,
        {
            r.push(self.release_scalar(true_values[i], draws[i], f));
            i += 1;
            assert(r@ =~= want.take(i as int));
        }
        assert(r@ =~= want);
        r
    }
}

} // verus!
