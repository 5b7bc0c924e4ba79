//! What patterns stand for: the order of patterns is the order of the
//! numbers that they encode.

use vstd::arithmetic::power2::{lemma_pow2_adds, lemma_pow2_pos, lemma_pow2_strictly_increases, lemma_pow2_unfold, pow2};
use vstd::prelude::*;

use crate::arith;
use crate::bits;
use crate::dp;
use crate::hnsw;
use crate::protocol;
use crate::text;

verus! {

/// The number that a finite double-precision pattern encodes, without its
/// sign, in units of the smallest, `2^-1074`: eleven bits of exponent `e`
/// and 52 bits of fraction `f` encode `f` where `e` is zero and otherwise
/// `(2^52 + f) * 2^(e - 1)`.
pub open spec fn units(magnitude: nat) -> nat {
    let e = magnitude / 0x10_0000_0000_0000;
    let f = magnitude % 0x10_0000_0000_0000;
    if e == 0 {
        f
    } else {
        (0x10_0000_0000_0000 + f) * pow2((e - 1) as nat)
    }
}

/// The number that a finite double-precision pattern encodes.
pub open spec fn encoded(b: u64) -> int {
    if b < 0x8000_0000_0000_0000 {
        units(b as nat) as int
    } else {
        -units((b - 0x8000_0000_0000_0000) as nat)
    }
}

proof fn lemma_units(a: nat, b: nat)
    requires
        a < b,
    ensures
        units(a) < units(b),
{
    let c = 0x10_0000_0000_0000nat;
    let (d, f) = (a / c, a % c);
    let (e, g) = (b / c, b % c);
    assert(d <= e);
    if d == e {
        assert(f < g);
        if e > 0 {
            let p = pow2((e - 1) as nat);
            lemma_pow2_pos((e - 1) as nat);
            assert((c + f) * p < (c + g) * p) by (nonlinear_arith)
                requires
                    f < g,
                    p > 0,
            ;
        }
    } else {
        let p = pow2((e - 1) as nat);
        lemma_pow2_pos((e - 1) as nat);
        assert((c + g) * p >= c * p) by (nonlinear_arith)
            requires
                p > 0,
        ;
        if d == 0 {
            assert(c * p >= c) by (nonlinear_arith)
                requires
                    p > 0,
            ;
        } else {
            let q = pow2((d - 1) as nat);
            lemma_pow2_pos((d - 1) as nat);
            lemma_pow2_unfold(d);
            assert((c + f) * q < (2 * c) * q) by (nonlinear_arith)
                requires
                    f < c,
                    q > 0,
            ;
            assert((2 * c) * q == c * (2 * q)) by (nonlinear_arith);
            if d < e - 1 {
                lemma_pow2_strictly_increases(d, (e - 1) as nat);
            }
            assert(c * pow2(d) <= c * p) by (nonlinear_arith)
                requires
                    pow2(d) <= p,
            ;
        }
    }
}

proof fn lemma_zero_units(a: nat)
    ensures
        units(0) == 0,
        a > 0 ==> units(a) > 0,
{
    if a > 0 {
        lemma_units(0, a);
    }
}

/// Finite patterns compare as the numbers that they encode: `<` and `==`.
pub proof fn patterns_compare_as_their_numbers(a: u64, b: u64)
    requires
        bits::finite(a),
        bits::finite(b),
    ensures
        bits::num_lt(a, b) <==> encoded(a) < encoded(b),
        bits::num_eq(a, b) <==> encoded(a) == encoded(b),
        !bits::nan(a),
{
    let (x, y) = (bits::magnitude(a), bits::magnitude(b));
    lemma_zero_units(x);
    lemma_zero_units(y);
    if x < y {
        lemma_units(x, y);
    }
    if y < x {
        lemma_units(y, x);
    }
}

/// The infinities lie outside all finite numbers, and a NaN compares with
/// nothing.
pub proof fn infinities_lie_outside(a: u64)
    ensures
        bits::finite(a) ==> bits::num_lt(bits::NEG_INF, a) && bits::num_lt(a, bits::POS_INF),
        bits::nan(a) ==> !bits::num_eq(a, a) && forall|b: u64|
            !#[trigger] bits::num_lt(a, b) && !bits::num_lt(b, a),
        bits::finite(a) || bits::nan(a) || a == bits::POS_INF || a == bits::NEG_INF,
        !(bits::finite(a) && bits::nan(a)),
{
}

/// The other sign is the negative number, and taken twice the same pattern.
pub proof fn negation_turns_the_order_round(a: u64, b: u64)
    ensures
        bits::negated(bits::negated(a)) == a,
        encoded(bits::negated(a)) == -encoded(a),
        bits::num_lt(a, b) <==> bits::num_lt(bits::negated(b), bits::negated(a)),
        dp::absolute(a) == a || dp::absolute(a) == bits::negated(a),
        encoded(dp::absolute(a)) >= 0,
{
}

/// The larger of two numbers is one of them and no smaller than either; a
/// NaN gives way.
pub proof fn larger_is_the_maximum(a: u64, b: u64)
    ensures
        arith::larger(a, b) == a || arith::larger(a, b) == b,
        bits::finite(a) && bits::finite(b) ==> encoded(arith::larger(a, b)) >= encoded(a)
            && encoded(arith::larger(a, b)) >= encoded(b),
        bits::nan(a) ==> arith::larger(a, b) == b,
        bits::nan(b) && !bits::nan(a) ==> arith::larger(a, b) == a,
{
    if bits::finite(a) && bits::finite(b) {
        patterns_compare_as_their_numbers(a, b);
        patterns_compare_as_their_numbers(b, a);
    }
}

/// The patterns that are written out encode the numbers that they are named
/// after.
pub proof fn named_patterns_encode_their_numbers()
    ensures
        encoded(arith::ZERO) == 0,
        encoded(arith::ONE) == pow2(1074),
        encoded(arith::TWO) == 2 * encoded(arith::ONE),
        2 * encoded(arith::MINUS_HALF) == -encoded(arith::ONE),
        4 * encoded(dp::ONE_AND_A_QUARTER) == 5 * encoded(arith::ONE),
        encoded(hnsw::TINY) * pow2(53) == encoded(arith::ONE),
{
    let c = 0x10_0000_0000_0000nat;
    vstd::arithmetic::power2::lemma2_to64();
    lemma_pow2_adds(52, 1022);
    lemma_pow2_unfold(1022);
    lemma_pow2_unfold(1023);
    lemma_pow2_unfold(1074);
    assert(pow2(52) == c) by {
        lemma_pow2_adds(32, 20);
    }
    let p = pow2(1022);
    let q = pow2(1021);
    assert(encoded(arith::ONE) == c * p);
    assert(encoded(arith::TWO) == c * pow2(1023));
    assert(c * (2 * p) == 2 * (c * p)) by (nonlinear_arith);
    assert(encoded(arith::MINUS_HALF) == -(c * q));
    assert(c * (2 * q) == 2 * (c * q)) by (nonlinear_arith);
    assert(encoded(dp::ONE_AND_A_QUARTER) == (c + 0x4_0000_0000_0000) * p);
    assert(4 * ((c + 0x4_0000_0000_0000) * p) == 5 * (c * p)) by (nonlinear_arith)
        requires
            c == 0x10_0000_0000_0000,
    ;
    let r = pow2(969);
    assert(encoded(hnsw::TINY) == c * r);
    lemma_pow2_adds(969, 53);
    assert((c * r) * pow2(53) == c * (r * pow2(53))) by (nonlinear_arith);
}

// ---------------------------------------------------------- single precision

/// The number that a finite single-precision pattern encodes, without its
/// sign, in units of the smallest, `2^-149`.
pub open spec fn units_32(magnitude: nat) -> nat {
    let e = magnitude / 0x80_0000;
    let f = magnitude % 0x80_0000;
    if e == 0 {
        f
    } else {
        (0x80_0000 + f) * pow2((e - 1) as nat)
    }
}

/// The number that a finite single-precision pattern encodes.
pub open spec fn encoded_32(b: u32) -> int {
    if b < 0x8000_0000 {
        units_32(b as nat) as int
    } else {
        -units_32((b - 0x8000_0000) as nat)
    }
}

proof fn lemma_units_32(a: nat, b: nat)
    requires
        a < b,
    ensures
        units_32(a) < units_32(b),
{
    let c = 0x80_0000nat;
    let (d, f) = (a / c, a % c);
    let (e, g) = (b / c, b % c);
    assert(d <= e);
    if d == e {
        assert(f < g);
        if e > 0 {
            let p = pow2((e - 1) as nat);
            lemma_pow2_pos((e - 1) as nat);
            assert((c + f) * p < (c + g) * p) by (nonlinear_arith)
                requires
                    f < g,
                    p > 0,
            ;
        }
    } else {
        let p = pow2((e - 1) as nat);
        lemma_pow2_pos((e - 1) as nat);
        assert((c + g) * p >= c * p) by (nonlinear_arith)
            requires
                p > 0,
        ;
        if d == 0 {
            assert(c * p >= c) by (nonlinear_arith)
                requires
                    p > 0,
            ;
        } else {
            let q = pow2((d - 1) as nat);
            lemma_pow2_pos((d - 1) as nat);
            lemma_pow2_unfold(d);
            assert((c + f) * q < (2 * c) * q) by (nonlinear_arith)
                requires
                    f < c,
                    q > 0,
            ;
            assert((2 * c) * q == c * (2 * q)) by (nonlinear_arith);
            if d < e - 1 {
                lemma_pow2_strictly_increases(d, (e - 1) as nat);
            }
            assert(c * pow2(d) <= c * p) by (nonlinear_arith)
                requires
                    pow2(d) <= p,
            ;
        }
    }
}

/// Single-precision patterns compare as the numbers that they encode, and
/// the total order agrees wherever those differ.
pub proof fn single_patterns_compare_as_their_numbers(a: u32, b: u32)
    requires
        bits::magnitude_32(a) < bits::POS_INF_32,
        bits::magnitude_32(b) < bits::POS_INF_32,
    ensures
        bits::num_lt_32(a, b) <==> encoded_32(a) < encoded_32(b),
        encoded_32(a) < encoded_32(b) ==> bits::total_rank(a) < bits::total_rank(b),
        bits::total_rank(a) == bits::total_rank(b) <==> a == b,
{
    let (x, y) = (bits::magnitude_32(a), bits::magnitude_32(b));
    assert(units_32(0) == 0);
    if x > 0 {
        lemma_units_32(0, x);
    }
    if y > 0 {
        lemma_units_32(0, y);
    }
    if x < y {
        lemma_units_32(x, y);
    }
    if y < x {
        lemma_units_32(y, x);
    }
}

// ------------------------------------------------------------------- decimal

/// The number that decimal digits spell.
pub open spec fn spelled(s: Seq<char>) -> int
    decreases s.len(),
{
    if s.len() == 0 {
        0
    } else {
        10 * spelled(s.drop_last()) + (s.last() as int - '0' as int)
    }
}

/// Decimal digits spell the number, without a leading zero.
pub proof fn decimal_digits_spell_the_number(n: nat)
    ensures
        spelled(text::dec(n)) == n,
        text::dec(n).len() >= 1,
        forall|i: int| 0 <= i < text::dec(n).len() ==> '0' <= #[trigger] text::dec(n)[i] <= '9',
        text::dec(n)[0] == '0' ==> n == 0,
    decreases n,
{
    let d = text::dec(n);
    if n < 10 {
        assert(d.drop_last() =~= Seq::empty());
        assert(spelled(d.drop_last()) == 0);
    } else {
        decimal_digits_spell_the_number(n / 10);
        let e = text::dec(n / 10);
        assert(d.drop_last() =~= e);
        assert(d[0] == e[0]);
        assert forall|i: int| 0 <= i < d.len() implies '0' <= #[trigger] d[i] <= '9' by {
            if i < e.len() {
                assert(d[i] == e[i]);
            }
        }
    }
}

/// The value of an upper-case hexadecimal digit.
pub open spec fn digit_value(c: char) -> int {
    if '0' <= c <= '9' {
        c as int - '0' as int
    } else {
        c as int - 'A' as int + 10
    }
}

/// The number that upper-case hexadecimal digits spell.
pub open spec fn spelled_hex(s: Seq<char>) -> int
    decreases s.len(),
{
    if s.len() == 0 {
        0
    } else {
        16 * spelled_hex(s.drop_last()) + digit_value(s.last())
    }
}

/// Hexadecimal digits spell the number, in upper case and without a leading
/// zero.
pub proof fn hexadecimal_digits_spell_the_number(n: nat)
    ensures
        spelled_hex(text::hex_upper(n)) == n,
        text::hex_upper(n).len() >= 1,
        forall|i: int|
            0 <= i < text::hex_upper(n).len() ==> ('0' <= #[trigger] text::hex_upper(n)[i] <= '9')
                || ('A' <= text::hex_upper(n)[i] <= 'F'),
        text::hex_upper(n)[0] == '0' ==> n == 0,
    decreases n,
{
    let d = text::hex_upper(n);
    if n < 16 {
        assert(d.drop_last() =~= Seq::empty());
        assert(spelled_hex(d.drop_last()) == 0);
    } else {
        hexadecimal_digits_spell_the_number(n / 16);
        let e = text::hex_upper(n / 16);
        assert(d.drop_last() =~= e);
        assert(d[0] == e[0]);
        assert forall|i: int| 0 <= i < d.len() implies ('0' <= #[trigger] d[i] <= '9') || ('A'
            <= d[i] <= 'F') by {
            if i < e.len() {
                assert(d[i] == e[i]);
            }
        }
    }
}

/// The text of a position is its upper half, a slash and its lower half,
/// each in hexadecimal.
pub proof fn positions_are_written_in_halves(lsn: u64) -> (halves: (Seq<char>, Seq<char>))
    ensures
        protocol::lsn_text(lsn as nat) == halves.0 + seq!['/'] + halves.1,
        spelled_hex(halves.0) * 0x1_0000_0000 + spelled_hex(halves.1) == lsn,
        0 <= spelled_hex(halves.1) < 0x1_0000_0000,
{
    let (hi, lo) = ((lsn as nat) / 0x1_0000_0000, (lsn as nat) % 0x1_0000_0000);
    hexadecimal_digits_spell_the_number(hi);
    hexadecimal_digits_spell_the_number(lo);
    reveal_strlit("/");
    assert("/"@ =~= seq!['/']);
    (text::hex_upper(hi), text::hex_upper(lo))
}

} // verus!
