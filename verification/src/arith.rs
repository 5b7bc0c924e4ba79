//! Arithmetic on numbers given as bit patterns.
//!
//! The kernels decide on patterns (`bits`) and leave rounding arithmetic to
//! a function that they are handed, so that what they do is fixed for
//! whatever that function computes.

use vstd::prelude::*;

use crate::bits;
use crate::bits::{is_nan, lt};

verus! {

/// An operation on one or two numbers.
#[derive(Clone, Copy, Debug, PartialEq, Eq, Structural)]
pub enum Op {
    /// `a + b`.
    Plus,
    /// `a - b`.
    Minus,
    /// `a * b`.
    Times,
    /// `a / b`.
    Over,
    /// `e` to the `a`; `b` is not looked at.
    Exp,
    /// The natural logarithm of `a`; `b` is not looked at.
    Ln,
    /// The square root of `a`; `b` is not looked at.
    Sqrt,
    /// The whole number whose value is the pattern `a` itself; `b` is not
    /// looked at.
    Whole,
    /// The double-precision number equal to the single-precision number
    /// whose pattern is the low half of `a`; `b` is not looked at.
    Widen,
}

/// What each operation on double-precision patterns comes to.
pub type Calc = spec_fn(Op, u64, u64) -> u64;

/// What each operation on single-precision patterns comes to.
pub type Calc32 = spec_fn(Op, u32, u32) -> u32;

/// What `f` computes.
pub open spec fn computes<P, F: Fn(Op, P, P) -> P>(f: F) -> spec_fn(Op, P, P) -> P {
    |op: Op, a: P, b: P| choose|r: P| call_ensures(f, (op, a, b), r)
}

/// `f` takes every operation and gives the same for the same numbers.
pub open spec fn steady<P, F: Fn(Op, P, P) -> P>(f: F) -> bool {
    &&& forall|op: Op, a: P, b: P| #[trigger] call_requires(f, (op, a, b))
    &&& forall|op: Op, a: P, b: P, x: P, y: P|
        #[trigger] call_ensures(f, (op, a, b), x) && #[trigger] call_ensures(f, (op, a, b), y)
            ==> x == y
}

/// One operation.
pub fn apply_op<P: Copy, F: Fn(Op, P, P) -> P>(f: &F, op: Op, a: P, b: P) -> (r: P)
    requires
        steady(*f),
    ensures
        r == computes(*f)(op, a, b),
{
    let r: P = f(op, a, b);
    assert(call_ensures(*f, (op, a, b), r));
    r
}

/// The pattern of `0`.
pub const ZERO: u64 = 0;

/// The pattern of `1`.
pub const ONE: u64 = 0x3FF0_0000_0000_0000;

/// The pattern of `2`.
pub const TWO: u64 = 0x4000_0000_0000_0000;

/// The pattern of `-1/2`.
pub const MINUS_HALF: u64 = 0xBFE0_0000_0000_0000;

/// The larger of two numbers; a NaN gives way to the other. Of the two
/// zeros the first is kept.
pub open spec fn larger(a: u64, b: u64) -> u64 {
    if bits::nan(a) || bits::num_lt(a, b) {
        b
    } else {
        a
    }
}

/// The larger of two numbers; a NaN gives way to the other.
pub fn max(a: u64, b: u64) -> (r: u64)
    ensures
        r == larger(a, b),
{
    if is_nan(a) || lt(a, b) {
        b
    } else {
        a
    }
}

/// The weight `e^((s - m) / eps)` of a score under an anchor.
pub open spec fn weight(k: Calc, s: u64, m: u64, eps: u64) -> u64 {
    k(Op::Exp, k(Op::Over, k(Op::Minus, s, m), eps), 0)
}

/// The weight `e^((s - m) / eps)` of a score under an anchor.
pub fn weigh<F: Fn(Op, u64, u64) -> u64>(f: &F, s: u64, m: u64, eps: u64) -> (r: u64)
    requires
        steady(*f),
    ensures
        r == weight(computes(*f), s, m, eps),
{
    let d: u64 = apply_op(f, Op::Minus, s, m);
    let q: u64 = apply_op(f, Op::Over, d, eps);
    apply_op(f, Op::Exp, q, 0)
}

} // verus!
