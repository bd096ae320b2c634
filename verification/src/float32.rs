//! Single precision numbers, held as their IEEE 754 bit patterns.
//!
//! A pattern without its sign bit is a code, as rounding has it.

use crate::rounding::{self, INFINITY};
use vstd::arithmetic::mul::*;
use vstd::arithmetic::power2::*;
use vstd::prelude::*;

verus! {

/// The pattern that stands for the result of an undefined operation.
pub const NAN: u32 = 0x7fc0_0000;

/// The pattern without its sign bit.
pub open spec fn code_of(word: u32) -> nat {
    (word % 0x8000_0000) as nat
}

/// Whether the sign bit is set.
pub open spec fn is_negative(word: u32) -> bool {
    word >= 0x8000_0000
}

/// Whether the pattern stands for no number.
pub open spec fn is_nan(word: u32) -> bool {
    code_of(word) > INFINITY
}

/// The pattern with the given sign and code.
pub open spec fn signed(negative: bool, code: nat) -> u32 {
    if negative {
        (0x8000_0000 + code) as u32
    } else {
        code as u32
    }
}

/// The number of units in one.
pub open spec fn one() -> nat {
    pow2(149)
}

/// The code closest to `a / b`.
pub open spec fn ratio(a: nat, b: nat) -> nat {
    rounding::nearest(a * one(), b)
}

/// The product of two numbers.
pub open spec fn product(a: u32, b: u32) -> u32 {
    let x = code_of(a);
    let y = code_of(b);
    if x > INFINITY || y > INFINITY {
        NAN
    } else if (x == INFINITY && y == 0) || (x == 0 && y == INFINITY) {
        NAN
    } else if x == INFINITY || y == INFINITY {
        signed(is_negative(a) != is_negative(b), INFINITY as nat)
    } else {
        signed(
            is_negative(a) != is_negative(b),
            rounding::nearest(rounding::units(x) * rounding::units(y), one()),
        )
    }
}

/// The quotient of two numbers.
pub open spec fn quotient(a: u32, b: u32) -> u32 {
    let x = code_of(a);
    let y = code_of(b);
    if x > INFINITY || y > INFINITY {
        NAN
    } else if (x == INFINITY && y == INFINITY) || (x == 0 && y == 0) {
        NAN
    } else if x == INFINITY || y == 0 {
        signed(is_negative(a) != is_negative(b), INFINITY as nat)
    } else if y == INFINITY {
        signed(is_negative(a) != is_negative(b), 0)
    } else {
        signed(
            is_negative(a) != is_negative(b),
            rounding::nearest(rounding::units(x) * one(), rounding::units(y)),
        )
    }
}

/// The whole number closest to a code, the larger of two that are equally
/// close.
pub open spec fn rounded(code: nat) -> nat {
    (2 * rounding::units(code) + one()) / (2 * one())
}

/// The whole part of a code.
pub open spec fn truncated(code: nat) -> nat {
    rounding::units(code) / one()
}

/// The code closest to what a whole number exceeds another code by, zero if
/// it does not exceed it.
pub open spec fn excess(whole: nat, code: nat) -> nat {
    if rounding::units(code) < whole * one() {
        rounding::nearest((whole * one() - rounding::units(code)) as nat, 1)
    } else {
        0
    }
}

/// The code of 2^32.
pub const TWO_TO_32: u32 = 0x4f80_0000;

/// The code closest to `a / b`.
pub fn ratio_code(a: u32, b: u32) -> (code: u32)
    requires
        0 < b < 0x100_0000,
    ensures
        code == ratio(a as nat, b as nat),
        rounding::rounds_to(a as nat * one(), b as nat, code as nat),
{
    proof {
        lemma_pow2_pos(299);
        lemma_pow2_adds(149, 200);
        lemma_pow2_adds(50, 299);
        assert((a * pow2(149)) * pow2(200) == (a * pow2(50)) * pow2(299)) by (nonlinear_arith)
            requires
                pow2(149) * pow2(200) == pow2(50) * pow2(299),
        ;
    }
    rounding::round_ratio(
        a as u64,
        b,
        299,
        Ghost(a as nat * one()),
        Ghost(b as nat),
        Ghost(pow2(299)),
    )
}

/// The significand and the power of two of a finite code.
fn split_code(code: u32) -> (parts: (u32, u32))
    requires
        code < INFINITY,
    ensures
        rounding::units(code as nat) == parts.0 * pow2(parts.1 as nat),
        parts.0 < 0x100_0000,
        parts.1 <= 253,
        (parts.0 == 0) == (code == 0),
        code == parts.1 * 0x80_0000 + parts.0,
        parts.1 == 0 || parts.0 >= 0x80_0000,
{
    if code < 0x80_0000 {
        proof {
            lemma2_to64();
        }
        (code, 0)
    } else {
        (0x80_0000 + code % 0x80_0000, code / 0x80_0000 - 1)
    }
}

/// The product of two numbers.
pub fn multiply(a: u32, b: u32) -> (word: u32)
    ensures
        word == product(a, b),
{
    let x = a % 0x8000_0000;
    let y = b % 0x8000_0000;
    let negative = (a >= 0x8000_0000) != (b >= 0x8000_0000);
    if x > INFINITY || y > INFINITY {
        return NAN;
    }
    if (x == INFINITY && y == 0) || (x == 0 && y == INFINITY) {
        return NAN;
    }
    let code = if x == INFINITY || y == INFINITY {
        INFINITY
    } else {
        let (m, q) = split_code(x);
        let (l, r) = split_code(y);
        assert(m * l < 0x1_0000_0000_0000) by (nonlinear_arith)
            requires
                m < 0x100_0000,
                l < 0x100_0000,
        ;
        let ghost n = rounding::units(x as nat) * rounding::units(y as nat);
        let ghost c = pow2((149 + (q + r + 1)) as nat);
        proof {
            lemma_pow2_pos((149 + (q + r + 1)) as nat);
            lemma_pow2_pos(149);
            lemma_pow2_adds(149, (q + r + 1) as nat);
            lemma_pow2_adds(50, (149 + (q + r + 1)) as nat);
            lemma_pow2_adds((q + r) as nat, 200);
            lemma_pow2_adds(q as nat, r as nat);
            assert(n * pow2(200) == ((m * l) * pow2(50)) * c) by (nonlinear_arith)
                requires
                    n == (m * pow2(q as nat)) * (l * pow2(r as nat)),
                    (pow2(q as nat) * pow2(r as nat)) * pow2(200) == pow2(50) * c,
            ;
        }
        rounding::round_ratio(m as u64 * l as u64, 1, q + r + 1, Ghost(n), Ghost(one()), Ghost(c))
    };
    if negative {
        0x8000_0000 + code
    } else {
        code
    }
}

/// The quotient of two numbers.
pub fn divide(a: u32, b: u32) -> (word: u32)
    ensures
        word == quotient(a, b),
{
    let x = a % 0x8000_0000;
    let y = b % 0x8000_0000;
    let negative = (a >= 0x8000_0000) != (b >= 0x8000_0000);
    if x > INFINITY || y > INFINITY {
        return NAN;
    }
    if (x == INFINITY && y == INFINITY) || (x == 0 && y == 0) {
        return NAN;
    }
    let code = if x == INFINITY || y == 0 {
        INFINITY
    } else if y == INFINITY {
        0
    } else {
        let (m, q) = split_code(x);
        let (l, r) = split_code(y);
        let k: u32 = q + 299 - r;
        let ghost n = rounding::units(x as nat) * one();
        let ghost d = rounding::units(y as nat);
        let ghost c = pow2((r + k) as nat);
        proof {
            lemma_pow2_pos(r as nat);
            lemma_pow2_pos((r + k) as nat);
            lemma_pow2_adds(r as nat, k as nat);
            lemma_pow2_adds(50, (r + k) as nat);
            lemma_pow2_adds(q as nat, 149);
            lemma_pow2_adds((q + 149) as nat, 200);
            assert(d > 0) by (nonlinear_arith)
                requires
                    d == l * pow2(r as nat),
                    l > 0,
                    pow2(r as nat) > 0,
            ;
            assert(d * pow2(k as nat) == l * c) by (nonlinear_arith)
                requires
                    d == l * pow2(r as nat),
                    c == pow2(r as nat) * pow2(k as nat),
            ;
            assert(n * pow2(200) == (m * pow2(50)) * c) by (nonlinear_arith)
                requires
                    n == (m * pow2(q as nat)) * pow2(149),
                    (pow2(q as nat) * pow2(149)) * pow2(200) == pow2(50) * c,
            ;
        }
        rounding::round_ratio(m as u64, l, k, Ghost(n), Ghost(d), Ghost(c))
    };
    if negative {
        0x8000_0000 + code
    } else {
        code
    }
}

/// No code up to that of 2^32 stands for more.
proof fn lemma_units_bound(code: nat)
    requires
        code <= TWO_TO_32,
    ensures
        rounding::units(code) <= 0x1_0000_0000 * one(),
{
    lemma2_to64();
    lemma_pow2_adds(32, 149);
    lemma_pow2_adds(23, 158);
    rounding::lemma_units_of(158, rounding::binade());
    if code < TWO_TO_32 {
        rounding::lemma_units_increase(code, TWO_TO_32 as nat);
    }
}

/// The whole number closest to a code that is at most 2^32.
pub fn round_code(code: u32) -> (whole: u64)
    requires
        code <= TWO_TO_32,
    ensures
        whole == rounded(code as nat),
        whole <= 0x1_0000_0000,
{
    let (m, q) = split_code(code);
    proof {
        lemma2_to64();
        lemma_pow2_pos(149);
        lemma_pow2_pos(q as nat);
        lemma_units_bound(code as nat);
    }
    if q >= 149 {
        let unit = rounding::power_of_two(q - 149);
        proof {
            lemma_pow2_adds((q - 149) as nat, 149);
            lemma_mul_is_associative(m as int, unit as int, one() as int);
            rounding::lemma_compare_scaled((m * unit) as nat, 0x1_0000_0000, one());
            let w = (m * unit) as nat;
            assert(w * (2 * one()) == 2 * (w * one())) by (nonlinear_arith);
            let n = 2 * rounding::units(code as nat) + one();
            rounding::lemma_quotient_is(n, 2 * one(), w, one());
        }
        (m as u128 * unit) as u64
    } else if q >= 125 {
        let unit = rounding::power_of_two(149 - q);
        proof {
            lemma_pow2_adds((149 - q) as nat, q as nat);
            rounding::lemma_divide_scaled((2 * m + unit) as nat, (2 * unit) as nat, q as nat);
            assert((2 * m + unit) * pow2(q as nat) == 2 * rounding::units(code as nat) + one())
                by (nonlinear_arith)
                requires
                    rounding::units(code as nat) == m * pow2(q as nat),
                    one() == unit * pow2(q as nat),
            ;
            lemma_mul_is_associative(2, unit as int, pow2(q as nat) as int);
        }
        ((2 * m as u128 + unit) / (2 * unit)) as u64
    } else {
        proof {
            lemma_pow2_adds(24, q as nat);
            lemma_pow2_unfold(149);
            if q < 124 {
                lemma_pow2_strictly_increases((q + 24) as nat, 148);
            }
            rounding::lemma_compare_scaled(m as nat, 0x100_0000, pow2(q as nat));
            let r = 2 * rounding::units(code as nat) + one();
            assert(0 * (2 * one()) == 0);
            rounding::lemma_quotient_is(r, 2 * one(), 0, r);
        }
        0
    }
}

/// The whole part of a code that is at most 2^32.
pub fn truncate_code(code: u32) -> (whole: u64)
    requires
        code <= TWO_TO_32,
    ensures
        whole == truncated(code as nat),
        whole <= 0x1_0000_0000,
{
    let (m, q) = split_code(code);
    proof {
        lemma2_to64();
        lemma_pow2_pos(149);
        lemma_pow2_pos(q as nat);
        lemma_units_bound(code as nat);
    }
    if q >= 149 {
        let unit = rounding::power_of_two(q - 149);
        proof {
            lemma_pow2_adds((q - 149) as nat, 149);
            lemma_mul_is_associative(m as int, unit as int, one() as int);
            rounding::lemma_compare_scaled((m * unit) as nat, 0x1_0000_0000, one());
            rounding::lemma_quotient_is(rounding::units(code as nat), one(), (m * unit) as nat, 0);
        }
        (m as u128 * unit) as u64
    } else if q >= 125 {
        let unit = rounding::power_of_two(149 - q);
        proof {
            lemma_pow2_adds((149 - q) as nat, q as nat);
            lemma_pow2_pos((149 - q) as nat);
            rounding::lemma_divide_scaled(m as nat, unit as nat, q as nat);
        }
        (m as u128 / unit) as u64
    } else {
        proof {
            lemma_pow2_adds(24, q as nat);
            lemma_pow2_strictly_increases((q + 24) as nat, 149);
            rounding::lemma_compare_scaled(m as nat, 0x100_0000, pow2(q as nat));
            assert(0 * one() == 0);
            let n = rounding::units(code as nat);
            rounding::lemma_quotient_is(n, one(), 0, n);
        }
        0
    }
}

/// What is at most 2^32 rounds to a code that is at most that of 2^32.
pub proof fn lemma_nearest_bound(n: nat, code: nat)
    requires
        n <= 0x1_0000_0000 * one(),
        rounding::rounds_to(n, 1, code),
    ensures
        code <= TWO_TO_32,
{
    if code > TWO_TO_32 {
        lemma2_to64();
        lemma_pow2_adds(32, 149);
        lemma_pow2_adds(23, 158);
        rounding::lemma_units_of(158, rounding::binade());
        rounding::lemma_units_increase(TWO_TO_32 as nat, code);
        if TWO_TO_32 < code - 1 {
            rounding::lemma_units_increase(TWO_TO_32 as nat, (code - 1) as nat);
        }
    }
}

/// The code closest to what a whole number exceeds another code by, zero if
/// it does not exceed it.
pub fn excess_code(whole: u64, code: u32) -> (result: u32)
    requires
        whole <= 0x1_0000_0000,
        code <= TWO_TO_32,
    ensures
        result == excess(whole as nat, code as nat),
        result <= TWO_TO_32,
{
    if whole == 0 {
        assert(0 * one() == 0);
        return 0;
    }
    let (m, q) = split_code(code);
    let target: u128 = whole as u128 * 0x1_0000_0000_0000_0000;
    let ghost n = (whole * one() - rounding::units(code as nat)) as nat;
    let ghost g = pow2(285);
    proof {
        lemma2_to64();
        lemma_pow2_pos(q as nat);
        lemma_pow2_pos(200);
        lemma_pow2_pos(285);
        lemma_pow2_adds(149, 200);
        lemma_pow2_adds(64, 285);
        lemma_pow2_adds(q as nat, 200);
        assert((whole * one()) * pow2(200) == target * g) by (nonlinear_arith)
            requires
                one() * pow2(200) == 0x1_0000_0000_0000_0000 * g,
                target == whole * 0x1_0000_0000_0000_0000,
        ;
        lemma_mul_is_associative(m as int, pow2(q as nat) as int, pow2(200) as int);
        rounding::lemma_compare_scaled(
            rounding::units(code as nat),
            whole as nat * one(),
            pow2(200),
        );
        lemma_mul_inequality(whole as int, 0x1_0000_0000, one() as int);
        if rounding::units(code as nat) < whole * one() {
            lemma_mul_is_distributive_sub_other_way(
                pow2(200) as int,
                whole * one(),
                rounding::units(code as nat) as int,
            );
        }
    }
    if q >= 85 {
        let unit = rounding::power_of_two(q - 85);
        proof {
            lemma_pow2_adds((q - 85) as nat, 285);
            lemma_mul_is_associative(m as int, unit as int, g as int);
            lemma_pow2_strictly_increases((q - 85) as nat, 74);
            lemma_pow2_adds(64, 10);
            assert(m * unit < 0x100_0000 * pow2(74)) by (nonlinear_arith)
                requires
                    m < 0x100_0000,
                    unit < pow2(74),
            ;
            rounding::lemma_compare_scaled((m * unit) as nat, target as nat, g);
        }
        let part: u128 = m as u128 * unit;
        if part >= target {
            return 0;
        }
        let p: u128 = target - part;
        proof {
            lemma_mul_is_distributive_sub_other_way(g as int, target as int, part as int);
            lemma_excess_digits(whole as nat, m as nat, unit as nat, (q - 85) as nat, p as nat);
            assert((p + 1) * g == p * g + g) by (nonlinear_arith);
        }
        let result = rounding::round_scaled(p, 285, false, Ghost(n), Ghost(1));
        proof {
            lemma_nearest_bound(n, result as nat);
        }
        result
    } else {
        let unit = rounding::power_of_two(85 - q);
        proof {
            lemma_pow2_pos((85 - q) as nat);
            lemma_pow2_strictly_increases((85 - q) as nat, 100);
            rounding::lemma_pow2_hundred();
            lemma_pow2_adds((85 - q) as nat, (q + 200) as nat);
            lemma_pow2_pos((q + 200) as nat);
        }
        let padded: u128 = m as u128 + (unit - 1);
        let part: u128 = padded / unit;
        let left: u128 = padded % unit;
        let inexact = left != unit - 1;
        let ghost f = pow2((q + 200) as nat);
        proof {
            vstd::arithmetic::div_mod::lemma_fundamental_div_mod(padded as int, unit as int);
            assert(part <= 0x100_0000) by (nonlinear_arith)
                requires
                    unit * part <= padded,
                    padded < 0x100_0000 + unit,
                    unit >= 1,
            ;
            // `part` is the smallest number of steps that holds the code.
            assert(part * g == (unit * part) * f && g == unit * f) by (nonlinear_arith)
                requires
                    g == unit * f,
            ;
            rounding::lemma_compare_scaled(m as nat, (unit * part) as nat, f);
            assert((unit * part - unit) * f == part * g - g) by (nonlinear_arith)
                requires
                    part * g == (unit * part) * f,
                    g == unit * f,
            ;
            assert(unit * part - unit < m);
            assert((unit * part - unit) * f < m * f) by (nonlinear_arith)
                requires
                    unit * part - unit < m,
                    f > 0,
            ;
            assert(part * g < target * g) by (nonlinear_arith)
                requires
                    part < target,
                    g > 0,
            ;
        }
        let p: u128 = target - part;
        proof {
            lemma_mul_is_distributive_sub_other_way(g as int, target as int, part as int);
            assert((p + 1) * g == p * g + g) by (nonlinear_arith);
        }
        let result = rounding::round_scaled(p, 285, inexact, Ghost(n), Ghost(1));
        proof {
            lemma_nearest_bound(n, result as nat);
        }
        result
    }
}

/// A difference in the fixed point form keeps enough digits to be rounded.
proof fn lemma_excess_digits(whole: nat, m: nat, unit: nat, i: nat, p: nat)
    requires
        whole > 0,
        m < 0x100_0000,
        unit == pow2(i),
        p > 0,
        p == whole * 0x1_0000_0000_0000_0000 - m * unit,
    ensures
        p >= 0x400_0000,
{
    lemma2_to64();
    if i < 26 {
        lemma_pow2_strictly_increases(i, 26);
        assert(m * unit < 0x100_0000 * 0x400_0000) by (nonlinear_arith)
            requires
                m < 0x100_0000,
                unit < 0x400_0000,
        ;
    } else {
        let high = pow2((i - 26) as nat);
        lemma_pow2_adds((i - 26) as nat, 26);
        let steps = whole * 0x40_0000_0000 - m * high;
        assert(p == steps * 0x400_0000) by (nonlinear_arith)
            requires
                p == whole * 0x1_0000_0000_0000_0000 - m * unit,
                unit == high * 0x400_0000,
                steps == whole * 0x40_0000_0000 - m * high,
        ;
    }
}

} // verus!
