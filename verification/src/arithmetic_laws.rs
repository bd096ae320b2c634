//! What the arithmetic on bit patterns computes, in terms of the numbers that
//! the patterns stand for.

use crate::float32;
use crate::rounding;
use crate::scissor;
use vstd::arithmetic::mul::*;
use vstd::arithmetic::power2::*;
use vstd::prelude::*;

verus! {

/// How far apart two numbers are.
pub open spec fn distance(a: int, b: int) -> int {
    if a < b {
        b - a
    } else {
        a - b
    }
}

/// The number that a pattern stands for, in units of 2^-149.
pub open spec fn value_of(word: u32) -> int {
    if word >= 0x8000_0000 {
        -(rounding::units((word - 0x8000_0000) as nat) as int)
    } else {
        rounding::units(word as nat) as int
    }
}

/// Patterns stand for the numbers of IEEE 754: the first 2^24 count up by the
/// smallest number, and from the first power of two on, adding one to the
/// exponent doubles the number. The pattern of one is 0x3f800000.
pub proof fn law_numbers(code: nat)
    ensures
        code <= 0x100_0000 ==> rounding::units(code) == code,
        0x80_0000 <= code ==> rounding::units(code + 0x80_0000) == 2 * rounding::units(code),
        rounding::units(code) < rounding::units(code + 1),
        rounding::units(0x3f80_0000) == float32::one(),
        float32::one() == pow2(149),
{
    lemma2_to64();
    lemma_pow2_adds(23, 126);
    rounding::lemma_units_of(126, rounding::binade());
    rounding::lemma_units_increase(code, code + 1);
    if code <= 0x100_0000 {
        rounding::lemma_units_of(0, code);
        assert(0 * rounding::binade() + code == code);
    }
    if 0x80_0000 <= code {
        let q = (code / rounding::binade() - 1) as nat;
        let m = rounding::binade() + code % rounding::binade();
        assert(q * rounding::binade() + m == code);
        assert((q + 1) * rounding::binade() + m == code + 0x80_0000);
        rounding::lemma_units_of(q, m);
        rounding::lemma_units_of(q + 1, m);
        lemma_pow2_unfold(q + 1);
        assert(m * (2 * pow2(q)) == 2 * (m * pow2(q))) by (nonlinear_arith);
    }
}

/// No code is closer to a number than the one it rounds to. Where another is
/// as close, the number rounds to the even code.
pub proof fn law_rounds_to_closest(n: nat, d: nat, other: nat)
    requires
        d > 0,
        other <= 0x7f80_0000,
    ensures
        ({
            let code = rounding::nearest(n, d);
            let off = distance(n as int, (d * rounding::units(code)) as int);
            let other_off = distance(n as int, (d * rounding::units(other)) as int);
            &&& code <= 0x7f80_0000
            &&& off <= other_off
            &&& off == other_off && other != code ==> code % 2 == 0
        }),
{
    rounding::lemma_rounding_exists(n, d);
    lemma_closest(n, d, rounding::nearest(n, d), other);
}

proof fn lemma_closest(n: nat, d: nat, code: nat, other: nat)
    requires
        d > 0,
        other <= 0x7f80_0000,
        rounding::rounds_to(n, d, code),
    ensures
        distance(n as int, (d * rounding::units(code)) as int) <= distance(
            n as int,
            (d * rounding::units(other)) as int,
        ),
        distance(n as int, (d * rounding::units(code)) as int) == distance(
            n as int,
            (d * rounding::units(other)) as int,
        ) && other != code ==> code % 2 == 0,
{
    let at = rounding::units(code);
    let far = rounding::units(other);
    if code < other {
        let next = rounding::units(code + 1);
        rounding::lemma_units_increase(code, code + 1);
        if code + 1 < other {
            rounding::lemma_units_increase(code + 1, other);
        }
        lemma_mul_is_distributive_add(d as int, at as int, next as int);
        lemma_mul_inequality(next as int, far as int, d as int);
        lemma_mul_strict_inequality(at as int, next as int, d as int);
        lemma_mul_is_commutative(d as int, next as int);
        lemma_mul_is_commutative(d as int, at as int);
        lemma_mul_is_commutative(d as int, far as int);
    } else if other < code {
        let previous = rounding::units((code - 1) as nat);
        rounding::lemma_units_increase((code - 1) as nat, code);
        if other < code - 1 {
            rounding::lemma_units_increase(other, (code - 1) as nat);
        }
        lemma_mul_is_distributive_add(d as int, previous as int, at as int);
        lemma_mul_inequality(far as int, previous as int, d as int);
        lemma_mul_strict_inequality(previous as int, at as int, d as int);
        lemma_mul_is_commutative(d as int, previous as int);
        lemma_mul_is_commutative(d as int, at as int);
        lemma_mul_is_commutative(d as int, far as int);
    }
}

/// A ratio of whole numbers becomes the code that is closest to it.
pub proof fn law_ratio_is_closest(a: nat, b: nat, other: nat)
    requires
        b > 0,
        other <= 0x7f80_0000,
    ensures
        ({
            let code = float32::ratio(a, b);
            let exact = (a * pow2(149)) as int;
            let off = distance(exact, (b * rounding::units(code)) as int);
            let other_off = distance(exact, (b * rounding::units(other)) as int);
            &&& code <= 0x7f80_0000
            &&& off <= other_off
            &&& off == other_off && other != code ==> code % 2 == 0
        }),
{
    law_rounds_to_closest(a * float32::one(), b, other);
}

/// A product of finite numbers has the sign that multiplication gives, and no
/// other pattern of that sign is closer to the exact product.
pub proof fn law_product_is_closest(a: u32, b: u32, other: nat)
    requires
        a % 0x8000_0000 < 0x7f80_0000,
        b % 0x8000_0000 < 0x7f80_0000,
        other <= 0x7f80_0000,
    ensures
        ({
            let p = float32::product(a, b);
            let code = (p % 0x8000_0000) as nat;
            let exact = rounding::units((a % 0x8000_0000) as nat) * rounding::units(
                (b % 0x8000_0000) as nat,
            );
            let off = distance(exact as int, (pow2(149) * rounding::units(code)) as int);
            let other_off = distance(exact as int, (pow2(149) * rounding::units(other)) as int);
            &&& (p >= 0x8000_0000) == ((a >= 0x8000_0000) != (b >= 0x8000_0000))
            &&& code <= 0x7f80_0000
            &&& off <= other_off
            &&& off == other_off && other != code ==> code % 2 == 0
        }),
{
    lemma_pow2_pos(149);
    let exact = rounding::units((a % 0x8000_0000) as nat) * rounding::units(
        (b % 0x8000_0000) as nat,
    );
    law_rounds_to_closest(exact, float32::one(), other);
}

/// A product is undefined if a factor is, or if zero is multiplied by infinity.
/// Otherwise an infinite factor makes it infinite, with the sign that
/// multiplication gives.
pub proof fn law_product_of_extremes(a: u32, b: u32)
    ensures
        ({
            let p = float32::product(a, b);
            let x = a % 0x8000_0000;
            let y = b % 0x8000_0000;
            let undefined = x > 0x7f80_0000 || y > 0x7f80_0000 || (x == 0 && y == 0x7f80_0000) || (
            x == 0x7f80_0000 && y == 0);
            &&& undefined <==> p % 0x8000_0000 > 0x7f80_0000
            &&& !undefined && (x == 0x7f80_0000 || y == 0x7f80_0000) ==> {
                &&& p % 0x8000_0000 == 0x7f80_0000
                &&& (p >= 0x8000_0000) == ((a >= 0x8000_0000) != (b >= 0x8000_0000))
            }
        }),
{
    if a % 0x8000_0000 < 0x7f80_0000 && b % 0x8000_0000 < 0x7f80_0000 {
        law_product_is_closest(a, b, 0);
    }
}

/// A quotient of finite numbers has the sign that division gives, and no other
/// pattern of that sign is closer to the exact quotient.
pub proof fn law_quotient_is_closest(a: u32, b: u32, other: nat)
    requires
        a % 0x8000_0000 < 0x7f80_0000,
        0 < b % 0x8000_0000 < 0x7f80_0000,
        other <= 0x7f80_0000,
    ensures
        ({
            let p = float32::quotient(a, b);
            let code = (p % 0x8000_0000) as nat;
            let exact = rounding::units((a % 0x8000_0000) as nat) * pow2(149);
            let by = rounding::units((b % 0x8000_0000) as nat);
            let off = distance(exact as int, (by * rounding::units(code)) as int);
            let other_off = distance(exact as int, (by * rounding::units(other)) as int);
            &&& (p >= 0x8000_0000) == ((a >= 0x8000_0000) != (b >= 0x8000_0000))
            &&& code <= 0x7f80_0000
            &&& off <= other_off
            &&& off == other_off && other != code ==> code % 2 == 0
        }),
{
    let by = rounding::units((b % 0x8000_0000) as nat);
    rounding::lemma_units_increase(0, (b % 0x8000_0000) as nat);
    law_rounds_to_closest(
        rounding::units((a % 0x8000_0000) as nat) * float32::one(),
        by,
        other,
    );
}

/// A quotient is undefined if an operand is, or if zero is divided by zero or
/// infinity by infinity. Otherwise dividing infinity, or by zero, gives
/// infinity, and dividing by infinity gives zero, with the sign that division
/// gives.
pub proof fn law_quotient_of_extremes(a: u32, b: u32)
    ensures
        ({
            let p = float32::quotient(a, b);
            let x = a % 0x8000_0000;
            let y = b % 0x8000_0000;
            let undefined = x > 0x7f80_0000 || y > 0x7f80_0000 || (x == 0 && y == 0) || (x
                == 0x7f80_0000 && y == 0x7f80_0000);
            &&& undefined <==> p % 0x8000_0000 > 0x7f80_0000
            &&& !undefined && (x == 0x7f80_0000 || y == 0) ==> p % 0x8000_0000 == 0x7f80_0000
            &&& !undefined && y == 0x7f80_0000 ==> p % 0x8000_0000 == 0
            &&& !undefined ==> (p >= 0x8000_0000) == ((a >= 0x8000_0000) != (b >= 0x8000_0000))
        }),
{
    if a % 0x8000_0000 < 0x7f80_0000 && 0 < b % 0x8000_0000 < 0x7f80_0000 {
        law_quotient_is_closest(a, b, 0);
    }
}

/// Rounding gives the whole number that is at most half a unit away, the larger
/// of two that are.
pub proof fn law_rounded_is_closest_whole(code: nat)
    ensures
        2 * (float32::rounded(code) * pow2(149)) <= 2 * rounding::units(code) + pow2(149),
        2 * rounding::units(code) < 2 * (float32::rounded(code) * pow2(149)) + pow2(149),
{
    lemma_pow2_pos(149);
    let one = float32::one();
    let a = 2 * rounding::units(code) + one;
    let w = float32::rounded(code);
    vstd::arithmetic::div_mod::lemma_fundamental_div_mod(a as int, 2 * one as int);
    assert((2 * one) * w == 2 * (w * one)) by (nonlinear_arith);
}

/// Truncating gives the largest whole number that is not above.
pub proof fn law_truncated_is_whole_part(code: nat)
    ensures
        float32::truncated(code) * pow2(149) <= rounding::units(code),
        rounding::units(code) < (float32::truncated(code) + 1) * pow2(149),
{
    lemma_pow2_pos(149);
    let one = float32::one();
    let w = float32::truncated(code);
    vstd::arithmetic::div_mod::lemma_fundamental_div_mod(
        rounding::units(code) as int,
        one as int,
    );
    assert(one * w == w * one && (w + 1) * one == w * one + one) by (nonlinear_arith);
}

/// What a whole number exceeds another number by is the closest code to the
/// difference, and zero where there is none.
pub proof fn law_excess_is_closest(whole: nat, code: nat, other: nat)
    requires
        other <= 0x7f80_0000,
    ensures
        ({
            let gap = whole * pow2(149) - rounding::units(code);
            let result = float32::excess(whole, code);
            let off = distance(gap, rounding::units(result) as int);
            let other_off = distance(gap, rounding::units(other) as int);
            &&& gap <= 0 ==> result == 0
            &&& gap > 0 ==> off <= other_off && (off == other_off && other != result ==> result % 2
                == 0)
        }),
{
    let gap = whole * pow2(149) - rounding::units(code);
    if gap > 0 {
        law_rounds_to_closest(gap as nat, 1, other);
    }
}

/// Codes are ordered as the numbers of units they stand for.
proof fn lemma_codes_ordered(x: nat, y: nat)
    ensures
        x < y <==> rounding::units(x) < rounding::units(y),
        x == 0 <==> rounding::units(x) == 0,
{
    assert(rounding::units(0) == 0);
    if x < y {
        rounding::lemma_units_increase(x, y);
    } else if y < x {
        rounding::lemma_units_increase(y, x);
    }
    if 0 < x {
        rounding::lemma_units_increase(0, x);
    }
}

/// Signs order numbers as they order codes.
proof fn lemma_signs_ordered(x: int, y: int, u: int, v: int, a: bool, b: bool)
    requires
        0 <= x && 0 <= y && 0 <= u && 0 <= v,
        x < y <==> u < v,
        y < x <==> v < u,
        x == 0 <==> u == 0,
        y == 0 <==> v == 0,
    ensures
        (if a { -x } else { x }) < (if b { -y } else { y }) <==> (if a { -u } else { u }) < (if b {
            -v
        } else {
            v
        }),
{
}

/// Patterns that stand for numbers are ordered as the numbers are.
pub proof fn law_order_of_numbers(a: u32, b: u32)
    ensures
        scissor::order_of(a) < scissor::order_of(b) <==> value_of(a) < value_of(b),
{
    let x = (a % 0x8000_0000) as nat;
    let y = (b % 0x8000_0000) as nat;
    lemma_codes_ordered(x, y);
    lemma_codes_ordered(y, x);
    lemma_value_of(a);
    lemma_value_of(b);
    lemma_signs_ordered(
        x as int,
        y as int,
        rounding::units(x) as int,
        rounding::units(y) as int,
        a >= 0x8000_0000,
        b >= 0x8000_0000,
    );
}

proof fn lemma_value_of(word: u32)
    ensures
        value_of(word) == if word >= 0x8000_0000 {
            -(rounding::units((word % 0x8000_0000) as nat) as int)
        } else {
            rounding::units((word % 0x8000_0000) as nat) as int
        },
{
    if word >= 0x8000_0000 {
        assert((word - 0x8000_0000) as nat == (word % 0x8000_0000) as nat);
    } else {
        assert(word as nat == (word % 0x8000_0000) as nat);
    }
}

/// Clamping gives a number of the range, and leaves a number of the range as it
/// is; what is not in the range becomes the end on its side.
pub proof fn law_clamped(x: int, low: int, high: int)
    requires
        low <= high,
    ensures
        low <= scissor::clamped(x, low, high) <= high,
        low <= x <= high ==> scissor::clamped(x, low, high) == x,
        x < low ==> scissor::clamped(x, low, high) == low,
        x > high ==> scissor::clamped(x, low, high) == high,
{
}

} // verus!
