//! Public types: temperature, similarity function, aggregator.

use vstd::prelude::*;

use crate::bits;
use crate::bits::{eq, is_nan, lt};
use crate::error;
use crate::error::BruceError;

verus! {

/// The temperature of the operator, as the bit pattern of a number.
///
/// `0` gives tropical (max-plus) semantics: exact equi-join with
/// aggregation. `1` gives the standard softmax. Infinity is the uniform
/// mean.
#[derive(Debug, Clone, Copy)]
pub struct Eps(pub u64);

impl Eps {
    /// The tropical limit.
    pub fn zero() -> (e: Eps)
        ensures
            e == Eps(0),
    {
        Eps(0)
    }

    /// The standard softmax temperature.
    pub fn one() -> (e: Eps)
        ensures
            e == Eps(0x3FF0_0000_0000_0000),
    {
        Eps(0x3FF0_0000_0000_0000)
    }

    /// A common cool temperature.
    pub fn quarter() -> (e: Eps)
        ensures
            e == Eps(0x3FD0_0000_0000_0000),
    {
        Eps(0x3FD0_0000_0000_0000)
    }

    /// The uniform-mean limit: every weight equals 1.
    pub fn inf() -> (e: Eps)
        ensures
            e == Eps(0x7FF0_0000_0000_0000),
    {
        Eps(0x7FF0_0000_0000_0000)
    }

    /// The tropical limit exactly.
    pub open spec fn tropical(self) -> bool {
        bits::num_eq(self.0, 0)
    }

    /// The uniform-mean limit.
    pub open spec fn uniform(self) -> bool {
        bits::magnitude(self.0) == bits::POS_INF
    }

    /// Build a checked temperature: nonnegative, not NaN. Zero and infinity
    /// are legal.
    pub fn new(value: u64) -> (r: Result<Eps, BruceError>)
        ensures
            if bits::num_lt(value, 0) || bits::nan(value) {
                error::fails(r, error::BruceErrorView::InvalidEpsilon(value))
            } else {
                r == Ok::<Eps, BruceError>(Eps(value))
            },
    {
        if lt(value, 0) || is_nan(value) {
            return Err(BruceError::InvalidEpsilon(value));
        }
        Ok(Eps(value))
    }

    /// Is this exactly the tropical limit?
    pub fn is_zero(self) -> (r: bool)
        ensures
            r == self.tropical(),
    {
        eq(self.0, 0)
    }

    /// Is this the uniform-mean limit?
    pub fn is_inf(self) -> (r: bool)
        ensures
            r == self.uniform(),
    {
        if self.0 >= bits::SIGN {
            self.0 - bits::SIGN == bits::POS_INF
        } else {
            self.0 == bits::POS_INF
        }
    }
}

/// Similarity function between a query and a key.
#[derive(Debug, Clone, Copy, PartialEq, Eq, Structural)]
pub enum Sim {
    /// Standard inner product, as softmax attention has it.
    Dot,
    /// Negative squared distance, halved.
    NegSquared,
    /// Indicator of exact equality, as the tropical equi-join has it.
    Indicator,
}

/// Aggregation flavour returned by the operator.
#[derive(Debug, Clone, Copy, PartialEq, Eq, Structural)]
pub enum Aggregator {
    /// Normalised attention output.
    Softmax,
    /// Unnormalised sum.
    Sum,
    /// Count of records with positive weight.
    Count,
    /// Mean over surviving records.
    Mean,
}

/// A raw score, as the bit pattern of a number.
pub type Score = u64;

} // verus!
