//! IEEE-754 double-precision values as bit patterns: classification and
//! the comparisons `==`, `<` and `max`, on integers alone.

use vstd::prelude::*;

verus! {

/// The pattern of positive infinity.
pub const POS_INF: u64 = 0x7FF0_0000_0000_0000;

/// The pattern of negative infinity.
pub const NEG_INF: u64 = 0xFFF0_0000_0000_0000;

/// The sign bit.
pub const SIGN: u64 = 0x8000_0000_0000_0000;

/// The canonical quiet NaN.
pub const QUIET_NAN: u64 = 0x7FF8_0000_0000_0000;

/// The pattern without its sign.
pub open spec fn magnitude(b: u64) -> nat {
    if b >= SIGN {
        (b - SIGN) as nat
    } else {
        b as nat
    }
}

/// Patterns that are not numbers lie above infinity.
pub open spec fn nan(b: u64) -> bool {
    magnitude(b) > POS_INF
}

/// The place of a number among all numbers: the order of ranks is the
/// numeric order, and both zeros rank 0.
pub open spec fn rank(b: u64) -> int {
    if b >= SIGN {
        -magnitude(b)
    } else {
        magnitude(b) as int
    }
}

/// Numeric equality: never true of a NaN, true of the two zeros.
pub open spec fn num_eq(a: u64, b: u64) -> bool {
    !nan(a) && !nan(b) && rank(a) == rank(b)
}

/// Numeric `<`: never true of a NaN.
pub open spec fn num_lt(a: u64, b: u64) -> bool {
    !nan(a) && !nan(b) && rank(a) < rank(b)
}

/// Neither infinite nor NaN.
pub open spec fn finite(b: u64) -> bool {
    magnitude(b) < POS_INF
}

/// True of a NaN pattern.
pub fn is_nan(b: u64) -> (r: bool)
    ensures
        r == nan(b),
{
    if b >= SIGN {
        b - SIGN > POS_INF
    } else {
        b > POS_INF
    }
}

/// True of a pattern that is neither infinite nor NaN.
pub fn is_finite(b: u64) -> (r: bool)
    ensures
        r == finite(b),
{
    if b >= SIGN {
        b - SIGN < POS_INF
    } else {
        b < POS_INF
    }
}

/// The place of a number among all numbers.
pub fn rank_of(b: u64) -> (r: i64)
    ensures
        r == rank(b),
{
    if b >= SIGN {
        -((b - SIGN) as i64)
    } else {
        b as i64
    }
}

/// Numeric equality of two patterns.
pub fn eq(a: u64, b: u64) -> (r: bool)
    ensures
        r == num_eq(a, b),
{
    !is_nan(a) && !is_nan(b) && rank_of(a) == rank_of(b)
}

/// Numeric `<` of two patterns.
pub fn lt(a: u64, b: u64) -> (r: bool)
    ensures
        r == num_lt(a, b),
{
    !is_nan(a) && !is_nan(b) && rank_of(a) < rank_of(b)
}

/// The pattern with the other sign.
pub open spec fn negated(b: u64) -> u64 {
    if b >= SIGN {
        (b - SIGN) as u64
    } else {
        (b + SIGN) as u64
    }
}

/// The number with the other sign.
pub fn neg(b: u64) -> (r: u64)
    ensures
        r == negated(b),
{
    if b >= SIGN {
        b - SIGN
    } else {
        b + SIGN
    }
}

/// The pattern of positive infinity in single precision.
pub const POS_INF_32: u32 = 0x7F80_0000;

/// The sign bit in single precision.
pub const SIGN_32: u32 = 0x8000_0000;

/// The single-precision pattern without its sign.
pub open spec fn magnitude_32(b: u32) -> nat {
    if b >= SIGN_32 {
        (b - SIGN_32) as nat
    } else {
        b as nat
    }
}

/// Single-precision patterns that are not numbers lie above infinity.
pub open spec fn nan_32(b: u32) -> bool {
    magnitude_32(b) > POS_INF_32
}

/// The place of a single-precision number among all numbers: both zeros
/// rank 0.
pub open spec fn rank_32(b: u32) -> int {
    if b >= SIGN_32 {
        -magnitude_32(b)
    } else {
        magnitude_32(b) as int
    }
}

/// Numeric `<` of single-precision patterns: never true of a NaN.
pub open spec fn num_lt_32(a: u32, b: u32) -> bool {
    !nan_32(a) && !nan_32(b) && rank_32(a) < rank_32(b)
}

/// The place of a single-precision pattern in the total order of all
/// patterns: as the numeric order, with `-0` below `+0` and NaNs at the
/// ends by their sign.
pub open spec fn total_rank(b: u32) -> int {
    if b >= SIGN_32 {
        -(b - SIGN_32) - 1
    } else {
        b as int
    }
}

/// True of a single-precision NaN pattern.
pub fn is_nan_32(b: u32) -> (r: bool)
    ensures
        r == nan_32(b),
{
    if b >= SIGN_32 {
        b - SIGN_32 > POS_INF_32
    } else {
        b > POS_INF_32
    }
}

/// Numeric `<` of two single-precision patterns.
pub fn lt_32(a: u32, b: u32) -> (r: bool)
    ensures
        r == num_lt_32(a, b),
{
    if is_nan_32(a) || is_nan_32(b) {
        return false;
    }
    let x: i64 = if a >= SIGN_32 {
        -((a - SIGN_32) as i64)
    } else {
        a as i64
    };
    let y: i64 = if b >= SIGN_32 {
        -((b - SIGN_32) as i64)
    } else {
        b as i64
    };
    x < y
}

/// The place of a single-precision pattern in the total order of all
/// patterns.
pub fn total_rank_of(b: u32) -> (r: i64)
    ensures
        r == total_rank(b),
{
    if b >= SIGN_32 {
        -((b - SIGN_32) as i64) - 1
    } else {
        b as i64
    }
}

} // verus!
