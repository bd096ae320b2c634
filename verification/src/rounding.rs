//! Rounding to single precision.
//!
//! The bit pattern of a non-negative `f32` is called a code here. Codes order
//! the numbers, and every finite one stands for a whole number of units of
//! 2^-149, the smallest positive number there is.

use vstd::arithmetic::mul::*;
use vstd::arithmetic::power2::*;
use vstd::prelude::*;

verus! {

/// The code of infinity.
pub const INFINITY: u32 = 0x7f80_0000;

/// The number of codes between one power of two and the next.
pub open spec fn binade() -> nat {
    0x80_0000
}

/// What a code stands for, in units of 2^-149. Infinity counts as 2^128,
/// the number that would follow the largest finite one.
pub open spec fn units(code: nat) -> nat {
    if code < binade() {
        code
    } else {
        (binade() + code % binade()) * pow2((code / binade() - 1) as nat)
    }
}

/// Whether `code` is what the number of units `n / d` rounds to: no neighbour
/// is closer, and of two equally close codes it is the even one.
pub open spec fn rounds_to(n: nat, d: nat, code: nat) -> bool {
    &&& code <= INFINITY
    &&& code < INFINITY ==> {
        let above = d * (units(code) + units(code + 1));
        2 * n < above || (2 * n == above && code % 2 == 0)
    }
    &&& code > 0 ==> {
        let below = d * (units((code - 1) as nat) + units(code));
        2 * n > below || (2 * n == below && code % 2 == 0)
    }
}

/// The code that the number of units `n / d` rounds to.
pub open spec fn nearest(n: nat, d: nat) -> nat {
    choose|code: nat| rounds_to(n, d, code)
}

/// A code made of a power of two and a significand.
pub(crate) proof fn lemma_units_of(q: nat, m: nat)
    requires
        m <= 2 * binade(),
        q == 0 || binade() <= m,
    ensures
        units(q * binade() + m) == m * pow2(q),
{
    lemma_pow2_unfold(q + 1);
    assert(pow2(0) == 1) by {
        lemma2_to64();
    }
    let code = q * binade() + m;
    if m < binade() {
    } else if m < 2 * binade() {
        assert(code / binade() == q + 1 && code % binade() == m - binade());
    } else {
        assert(code / binade() == q + 2 && code % binade() == 0);
        assert(binade() * (2 * pow2(q)) == 2 * binade() * pow2(q)) by (nonlinear_arith);
    }
}

proof fn lemma_units_step(code: nat)
    ensures
        units(code) < units(code + 1),
{
    if code >= binade() {
        let q = (code / binade() - 1) as nat;
        let m = binade() + code % binade();
        assert(q * binade() + m == code && q * binade() + (m + 1) == code + 1);
        lemma_units_of(q, m);
        lemma_units_of(q, m + 1);
        lemma_pow2_pos(q);
        assert(m * pow2(q) < (m + 1) * pow2(q)) by (nonlinear_arith)
            requires
                pow2(q) > 0,
        ;
    } else {
        lemma_units_of(0, code + 1);
        assert(0 * binade() + (code + 1) == code + 1);
        assert(pow2(0) == 1) by {
            lemma2_to64();
        }
    }
}

/// A larger code stands for a larger number.
pub proof fn lemma_units_increase(a: nat, b: nat)
    requires
        a < b,
    ensures
        units(a) < units(b),
    decreases b,
{
    lemma_units_step((b - 1) as nat);
    if a < b - 1 {
        lemma_units_increase(a, (b - 1) as nat);
    }
}

/// No number rounds to two codes.
pub proof fn lemma_rounding_unique(n: nat, d: nat, a: nat, b: nat)
    requires
        d > 0,
        rounds_to(n, d, a),
        rounds_to(n, d, b),
    ensures
        a == b,
{
    if a <= b {
        lemma_rounding_ordered(n, d, a, b);
    } else {
        lemma_rounding_ordered(n, d, b, a);
    }
}

proof fn lemma_rounding_ordered(n: nat, d: nat, a: nat, b: nat)
    requires
        d > 0,
        a <= b,
        rounds_to(n, d, a),
        rounds_to(n, d, b),
    ensures
        a == b,
{
    let low = units(a) + units(a + 1);
    let high = units((b - 1) as nat) + units(b);
    if a + 1 < b {
        lemma_units_increase(a, (b - 1) as nat);
        lemma_units_increase(a + 1, b);
        assert(d * low < d * high) by (nonlinear_arith)
            requires
                d > 0,
                low < high,
        ;
    }
}

/// The code that a number is known to round to.
proof fn lemma_nearest_is(n: nat, d: nat, code: nat)
    requires
        d > 0,
        rounds_to(n, d, code),
    ensures
        nearest(n, d) == code,
{
    lemma_rounding_unique(n, d, code, nearest(n, d));
}

/// Exponents are counted from 2^-200 units while a result is rounded.
pub open spec fn rounding_bias() -> nat {
    200
}

/// Whether `n / d` units are `p` steps of `2^(k - 200)` units, and less than
/// one step more if `inexact`.
pub(crate) open spec fn lies_at(n: nat, d: nat, p: nat, k: nat, inexact: bool) -> bool {
    let step = d * pow2(k);
    let scaled = n * pow2(rounding_bias());
    &&& inexact ==> p * step < scaled
    &&& !inexact ==> p * step == scaled
    &&& scaled < (p + 1) * step
}

/// The code for a significand `m` in the power of two `q`, one up or not.
spec fn rounded_code(q: nat, m: nat, up: bool) -> nat {
    let code = if up {
        q * binade() + m + 1
    } else {
        q * binade() + m
    };
    if code < INFINITY {
        code
    } else {
        INFINITY as nat
    }
}

/// A number between two neighbouring codes rounds to the closer one.
proof fn lemma_round_between(n: nat, d: nat, q: nat, m: nat, up: bool)
    requires
        d > 0,
        m < 2 * binade(),
        q == 0 || binade() <= m,
        m * (d * pow2(q)) <= n < (m + 1) * (d * pow2(q)),
        !up ==> 2 * n < (2 * m + 1) * (d * pow2(q)) || (2 * n == (2 * m + 1) * (d * pow2(q)) && m
            % 2 == 0),
        up ==> 2 * n > (2 * m + 1) * (d * pow2(q)) || (2 * n == (2 * m + 1) * (d * pow2(q)) && m
            % 2 == 1),
    ensures
        rounds_to(n, d, rounded_code(q, m, up)),
{
    let low = q * binade() + m;
    lemma_units_of(q, m);
    lemma_units_of(q, m + 1);
    assert(q * binade() + (m + 1) == low + 1);
    let step = d * pow2(q);
    assert(d * units(low) == m * step) by (nonlinear_arith)
        requires
            units(low) == m * pow2(q),
            step == d * pow2(q),
    ;
    assert(d * units(low + 1) == (m + 1) * step) by (nonlinear_arith)
        requires
            units(low + 1) == (m + 1) * pow2(q),
            step == d * pow2(q),
    ;
    assert((2 * m + 1) * step == m * step + (m + 1) * step) by (nonlinear_arith);
    lemma_mul_is_distributive_add(d as int, units(low) as int, units(low + 1) as int);
    let code = if up {
        low + 1
    } else {
        low
    };
    lemma_units_spread(d, code);
    if code > 0 {
        lemma_units_spread(d, (code - 1) as nat);
    }
    if code >= INFINITY {
        let top = (INFINITY - 1) as nat;
        if INFINITY < code {
            lemma_units_increase(top, (code - 1) as nat);
            lemma_units_increase(top + 1, code);
        }
        let below = units(top) + units(top + 1);
        let around = units((code - 1) as nat) + units(code);
        assert(d * below <= d * around) by (nonlinear_arith)
            requires
                below <= around,
        ;
    }
}

/// The distance between neighbouring codes, `d` times over.
proof fn lemma_units_spread(d: nat, code: nat)
    requires
        d > 0,
    ensures
        d * units(code) < d * units(code + 1),
        d * (units(code) + units(code + 1)) == d * units(code) + d * units(code + 1),
{
    lemma_units_step(code);
    assert(d * units(code) < d * units(code + 1)) by (nonlinear_arith)
        requires
            d > 0,
            units(code) < units(code + 1),
    ;
    lemma_mul_is_distributive_add(d as int, units(code) as int, units(code + 1) as int);
}

/// Cutting the last `t` binary digits off `p` leaves enough to round by.
proof fn lemma_round_digits(
    n: nat,
    d: nat,
    p: nat,
    k: nat,
    inexact: bool,
    q: nat,
    t: nat,
    m: nat,
    r: nat,
    up: bool,
)
    requires
        d > 0,
        lies_at(n, d, p, k, inexact),
        q + rounding_bias() == k + t,
        t > 0,
        p == m * pow2(t) + r,
        r < pow2(t),
        m < 2 * binade(),
        q == 0 || binade() <= m,
        up == (2 * r > pow2(t) || (2 * r == pow2(t) && (inexact || m % 2 == 1))),
    ensures
        rounds_to(n, d, rounded_code(q, m, up)),
{
    let s = d * pow2(k);
    let g = pow2(rounding_bias());
    let u = d * pow2(q);
    let half = pow2((t - 1) as nat);
    lemma_pow2_unfold(t);
    lemma_pow2_pos(k);
    lemma_pow2_pos(rounding_bias());
    lemma_pow2_adds(q, rounding_bias());
    lemma_pow2_adds(k, t);
    assert(s > 0) by (nonlinear_arith)
        requires
            d > 0,
            pow2(k) > 0,
            s == d * pow2(k),
    ;
    assert(u * g == 2 * half * s) by (nonlinear_arith)
        requires
            u == d * pow2(q),
            s == d * pow2(k),
            pow2(q) * g == pow2(k) * (2 * half),
    ;
    let low = 2 * half * m;
    assert(p == low + r) by (nonlinear_arith)
        requires
            p == m * (2 * half) + r,
            low == 2 * half * m,
    ;
    // Everything below is a multiple of `s`, and compared as such.
    lemma_mul_inequality(low as int, p as int, s as int);
    lemma_mul_inequality((p + 1) as int, (low + 2 * half) as int, s as int);
    if r < half {
        lemma_mul_inequality((p + 1) as int, (low + half) as int, s as int);
    } else {
        lemma_mul_inequality((low + half) as int, p as int, s as int);
        if r > half {
            lemma_mul_strict_inequality((low + half) as int, p as int, s as int);
        }
    }
    assert((m * u) * g == low * s && ((m + 1) * u) * g == (low + 2 * half) * s && ((2 * m + 1) * u)
        * g == 2 * ((low + half) * s)) by (nonlinear_arith)
        requires
            u * g == 2 * half * s,
            low == 2 * half * m,
    ;
    assert((2 * n) * g == 2 * (n * g)) by (nonlinear_arith);
    lemma_compare_scaled(m * u, n, g);
    lemma_compare_scaled(n, (m + 1) * u, g);
    lemma_compare_scaled(2 * n, (2 * m + 1) * u, g);
    lemma_compare_scaled((2 * m + 1) * u, 2 * n, g);
    lemma_round_between(n, d, q, m, up);
}

/// Multiples of a positive number compare as what is multiplied.
pub(crate) proof fn lemma_compare_scaled(a: nat, b: nat, g: nat)
    requires
        g > 0,
    ensures
        a * g < b * g <==> a < b,
        a * g == b * g <==> a == b,
        a * g <= b * g <==> a <= b,
{
    if a < b {
        lemma_mul_strict_inequality(a as int, b as int, g as int);
    } else if b < a {
        lemma_mul_strict_inequality(b as int, a as int, g as int);
    }
}

/// The number of binary digits of `p`.
fn bit_length(p: u128) -> (len: u32)
    requires
        p < 0x10_0000_0000_0000_0000_0000_0000,
    ensures
        len <= 100,
        p < pow2(len as nat),
        p > 0 ==> len > 0 && pow2((len - 1) as nat) <= p,
{
    let mut len: u32 = 0;
    let mut power: u128 = 1;
    proof {
        lemma2_to64();
        lemma_pow2_hundred();
    }
    while power <= p
        invariant
            p < pow2(100),
            pow2(100) == 0x10_0000_0000_0000_0000_0000_0000,
            power == pow2(len as nat),
            p > 0 ==> len == 0 || pow2((len - 1) as nat) <= p,
            len <= 100,
        decreases 100 - len,
    {
        proof {
            lemma_pow2_unfold((len + 1) as nat);
            if len == 100 {
                assert(false);
            }
        }
        power = power * 2;
        len = len + 1;
    }
    len
}

pub(crate) proof fn lemma_pow2_hundred()
    ensures
        pow2(100) == 0x10_0000_0000_0000_0000_0000_0000,
{
    lemma2_to64();
    lemma2_to64_rest();
    lemma_pow2_adds(50, 50);
}

/// Two to the power `t`.
pub(crate) fn power_of_two(t: u32) -> (power: u128)
    requires
        t <= 100,
    ensures
        power == pow2(t as nat),
{
    let mut power: u128 = 1;
    let mut i: u32 = 0;
    proof {
        lemma2_to64();
        lemma_pow2_hundred();
    }
    while i < t
        invariant
            i <= t <= 100,
            power == pow2(i as nat),
            pow2(100) == 0x10_0000_0000_0000_0000_0000_0000,
        decreases t - i,
    {
        proof {
            lemma_pow2_unfold((i + 1) as nat);
            lemma_pow2_strictly_increases(i as nat, 100);
        }
        power = power * 2;
        i = i + 1;
    }
    power
}

/// Rounds the number of units that lies at `p` steps of `2^(k - 200)`.
pub(crate) fn round_scaled(
    p: u128,
    k: u32,
    inexact: bool,
    n: Ghost<nat>,
    d: Ghost<nat>,
) -> (code: u32)
    requires
        p < 0x10_0000_0000_0000_0000_0000_0000,
        p >= 0x400_0000 || (p == 0 && !inexact),
        k <= 700,
        d@ > 0,
        lies_at(n@, d@, p as nat, k as nat, inexact),
    ensures
        rounds_to(n@, d@, code as nat),
        code == nearest(n@, d@),
{
    if p == 0 {
        proof {
            lemma_pow2_pos(rounding_bias());
            lemma_compare_scaled(0, n@, pow2(rounding_bias()));
            assert(0 * (d@ * pow2(k as nat)) == 0);
            assert(0 * pow2(rounding_bias()) == 0);
            assert(d@ * 0 == 0);
            assert(n@ == 0);
            lemma_units_spread(d@, 0);
            lemma_nearest_is(n@, d@, 0);
        }
        return 0;
    }
    let len = bit_length(p);
    proof {
        lemma2_to64();
        if len < 26 {
            lemma_pow2_strictly_increases(len as nat, 26);
        }
    }
    let quantum: u32 = if len + k > 224 {
        len + k - 24
    } else {
        200
    };
    let t: u32 = quantum - k;
    let q: u32 = quantum - 200;
    if t > len {
        proof {
            lemma_pow2_unfold(t as nat);
            if len < t - 1 {
                lemma_pow2_strictly_increases(len as nat, (t - 1) as nat);
            }
            lemma_round_digits(
                n@,
                d@,
                p as nat,
                k as nat,
                inexact,
                0,
                t as nat,
                0,
                p as nat,
                false,
            );
            lemma_nearest_is(n@, d@, 0);
        }
        return 0;
    }
    let unit = power_of_two(t);
    proof {
        lemma_pow2_pos(t as nat);
    }
    let m: u128 = p / unit;
    let r: u128 = p % unit;
    proof {
        lemma_significand(p as nat, len as nat, t as nat, m as nat);
        vstd::arithmetic::div_mod::lemma_fundamental_div_mod(p as int, unit as int);
        lemma_mul_is_commutative(m as int, unit as int);
        lemma_pow2_strictly_increases(t as nat, 101);
        lemma_pow2_unfold(101);
        lemma_pow2_hundred();
    }
    let up = 2 * r > unit || (2 * r == unit && (inexact || m % 2 == 1));
    let code: u64 = q as u64 * 0x80_0000 + m as u64 + if up {
        1
    } else {
        0
    };
    proof {
        lemma_round_digits(
            n@,
            d@,
            p as nat,
            k as nat,
            inexact,
            q as nat,
            t as nat,
            m as nat,
            r as nat,
            up,
        );
        lemma_nearest_is(n@, d@, rounded_code(q as nat, m as nat, up));
    }
    if code < INFINITY as u64 {
        code as u32
    } else {
        INFINITY
    }
}

/// What is left of `p` after its last `t` of `len` digits are cut off.
proof fn lemma_significand(p: nat, len: nat, t: nat, m: nat)
    requires
        0 < t <= len <= t + 24,
        pow2((len - 1) as nat) <= p < pow2(len),
        m == p / pow2(t),
    ensures
        m < 2 * binade(),
        len == t + 24 ==> binade() <= m,
{
    lemma2_to64();
    let unit = pow2(t);
    lemma_pow2_pos(t);
    vstd::arithmetic::div_mod::lemma_fundamental_div_mod(p as int, unit as int);
    lemma_mul_is_commutative(m as int, unit as int);
    lemma_pow2_adds(t, 24);
    if len < t + 24 {
        lemma_pow2_strictly_increases(len, t + 24);
    } else {
        lemma_pow2_adds(t, 23);
        assert(binade() <= m) by (nonlinear_arith)
            requires
                unit * binade() <= p,
                p < unit * m + unit,
        ;
    }
    assert(m < 2 * binade()) by (nonlinear_arith)
        requires
            p < unit * (2 * binade()),
            unit * m <= p,
            unit > 0,
    ;
}

/// Rounds `n / d`, which is `a * 2^50 / b` steps of `2^(k - 200)` units; `c`
/// is what both sides of that ratio are multiplied by.
pub(crate) fn round_ratio(
    a: u64,
    b: u32,
    k: u32,
    n: Ghost<nat>,
    d: Ghost<nat>,
    c: Ghost<nat>,
) -> (code: u32)
    requires
        a < 0x1_0000_0000_0000,
        0 < b < 0x100_0000,
        k <= 700,
        d@ > 0,
        c@ > 0,
        d@ * pow2(k as nat) == b * c@,
        n@ * pow2(rounding_bias()) == (a * pow2(50)) * c@,
    ensures
        rounds_to(n@, d@, code as nat),
        code == nearest(n@, d@),
{
    let digits: u128 = a as u128 * 0x4_0000_0000_0000;
    let p: u128 = digits / b as u128;
    let r: u128 = digits % b as u128;
    proof {
        lemma2_to64_rest();
        assert(pow2(50) == 0x4_0000_0000_0000);
        vstd::arithmetic::div_mod::lemma_fundamental_div_mod(digits as int, b as int);
        lemma_mul_is_commutative(p as int, b as int);
        assert(p <= digits) by (nonlinear_arith)
            requires
                p * b <= digits,
                b > 0,
        ;
        if a > 0 {
            assert(p >= 0x400_0000) by (nonlinear_arith)
                requires
                    digits >= 0x4_0000_0000_0000,
                    digits < p * b + b,
                    b < 0x100_0000,
            ;
        } else {
            assert(p == 0 && r == 0) by (nonlinear_arith)
                requires
                    0 == p * b + r,
                    b > 0,
                    p >= 0,
                    r >= 0,
            ;
        }
        let step = d@ * pow2(k as nat);
        assert(p * step == (p * b) * c@ && (p + 1) * step == (p * b + b) * c@) by (nonlinear_arith)
            requires
                step == b * c@,
        ;
        lemma_compare_scaled((p * b) as nat, digits as nat, c@);
        lemma_compare_scaled(digits as nat, (p * b + b) as nat, c@);
    }
    round_scaled(p, k, r != 0, n, d)
}

/// Dividing `a * 2^i` by `b * 2^i` leaves out the common factor.
pub(crate) proof fn lemma_divide_scaled(a: nat, b: nat, i: nat)
    requires
        b > 0,
    ensures
        (a * pow2(i)) / (b * pow2(i)) == a / b,
{
    lemma_pow2_pos(i);
    let g = pow2(i);
    assert(b * g > 0) by (nonlinear_arith)
        requires
            b > 0,
            g > 0,
    ;
    vstd::arithmetic::div_mod::lemma_div_denominator((a * g) as int, g as int, b as int);
    lemma_mul_is_commutative(b as int, g as int);
    vstd::arithmetic::div_mod::lemma_div_multiples_vanish(a as int, g as int);
    lemma_mul_is_commutative(a as int, g as int);
}

/// A quotient is known by what it leaves over.
pub(crate) proof fn lemma_quotient_is(a: nat, b: nat, w: nat, r: nat)
    requires
        a == w * b + r,
        r < b,
    ensures
        a / b == w,
{
    vstd::arithmetic::div_mod::lemma_fundamental_div_mod_converse(
        a as int,
        b as int,
        w as int,
        r as int,
    );
}

/// The code just below `n / d` among those up to `top`.
proof fn lemma_code_below(n: nat, d: nat, top: nat) -> (code: nat)
    requires
        d * units(top) > n,
    ensures
        code < top,
        d * units(code) <= n < d * units(code + 1),
    decreases top,
{
    if top == 0 {
        assert(units(0) == 0);
        assert(d * 0 == 0);
    }
    let code = (top - 1) as nat;
    if d * units(code) <= n {
        code
    } else {
        lemma_code_below(n, d, code)
    }
}

/// Every number rounds to a code.
pub proof fn lemma_rounding_exists(n: nat, d: nat)
    requires
        d > 0,
    ensures
        rounds_to(n, d, nearest(n, d)),
{
    let top = INFINITY as nat;
    if d * units(top) <= n {
        lemma_units_spread(d, (top - 1) as nat);
        assert(rounds_to(n, d, top));
    } else {
        let low = lemma_code_below(n, d, top);
        lemma_units_spread(d, low);
        lemma_units_spread(d, low + 1);
        if low > 0 {
            lemma_units_spread(d, (low - 1) as nat);
        }
        let between = d * (units(low) + units(low + 1));
        if 2 * n < between || (2 * n == between && low % 2 == 0) {
            assert(rounds_to(n, d, low));
        } else {
            assert(rounds_to(n, d, low + 1));
        }
    }
}

/// A larger number does not round to a smaller code.
pub proof fn lemma_nearest_ordered(a: nat, b: nat, d: nat)
    requires
        d > 0,
        a <= b,
    ensures
        nearest(a, d) <= nearest(b, d),
{
    lemma_rounding_exists(a, d);
    lemma_rounding_exists(b, d);
    let low = nearest(b, d);
    let high = nearest(a, d);
    if low < high {
        let under = units(low) + units(low + 1);
        let over = units((high - 1) as nat) + units(high);
        if low + 1 < high {
            lemma_units_increase(low, (high - 1) as nat);
            lemma_units_increase(low + 1, high);
        }
        assert(d * under <= d * over) by (nonlinear_arith)
            requires
                under <= over,
        ;
        if low + 1 < high {
            assert(d * under < d * over) by (nonlinear_arith)
                requires
                    d > 0,
                    under < over,
            ;
        }
    }
}

/// What a code stands for rounds to that code.
pub proof fn lemma_nearest_exact(code: nat, d: nat)
    requires
        d > 0,
        code <= INFINITY,
    ensures
        nearest(d * units(code), d) == code,
{
    lemma_units_spread(d, code);
    if code > 0 {
        lemma_units_spread(d, (code - 1) as nat);
    }
    lemma_nearest_is(d * units(code), d, code);
}

/// The distance from a code to the next.
pub proof fn lemma_units_gap(code: nat, q: nat)
    requires
        code < (q + 2) * binade(),
    ensures
        units(code + 1) - units(code) <= pow2(q),
{
    lemma2_to64();
    lemma_pow2_pos(q);
    if code >= binade() {
        let p = (code / binade() - 1) as nat;
        let m = binade() + code % binade();
        assert(p * binade() + m == code && p * binade() + (m + 1) == code + 1);
        lemma_units_of(p, m);
        lemma_units_of(p, m + 1);
        assert((m + 1) * pow2(p) == m * pow2(p) + pow2(p)) by (nonlinear_arith);
        if p < q {
            lemma_pow2_strictly_increases(p, q);
        }
    } else {
        lemma_units_of(0, code + 1);
        assert(0 * binade() + (code + 1) == code + 1);
    }
}

/// A number with at most 24 binary digits before and after `2^j` has a code.
proof fn lemma_whole_code_at(m: nat, j: nat) -> (code: nat)
    requires
        0 < m <= 2 * binade(),
        j <= 149,
        m >= pow2((149 - j) as nat),
    ensures
        units(code) == m * pow2(j),
        binade() <= m ==> code == j * binade() + m,
    decreases j,
{
    lemma2_to64();
    if m >= binade() {
        lemma_units_of(j, m);
        j * binade() + m
    } else {
        if j <= 126 {
            if j < 126 {
                lemma_pow2_strictly_increases(23, (149 - j) as nat);
            }
        }
        lemma_pow2_unfold(j);
        lemma_pow2_unfold((149 - (j - 1)) as nat);
        assert((2 * m) * pow2((j - 1) as nat) == m * (2 * pow2((j - 1) as nat)))
            by (nonlinear_arith);
        lemma_whole_code_at(2 * m, (j - 1) as nat)
    }
}

/// The code of a whole number up to 2^24.
pub proof fn lemma_whole_code(whole: nat) -> (code: nat)
    requires
        whole <= 2 * binade(),
    ensures
        units(code) == whole * pow2(149),
        code <= 151 * binade(),
        binade() <= whole ==> code == 149 * binade() + whole,
{
    lemma2_to64();
    let code = if whole == 0 {
        assert(0 * pow2(149) == 0);
        0
    } else {
        lemma_whole_code_at(whole, 149)
    };
    if code > 151 * binade() {
        lemma_units_of(149, 2 * binade());
        assert(149 * binade() + 2 * binade() == 151 * binade());
        lemma_units_increase(151 * binade(), code);
        vstd::arithmetic::mul::lemma_mul_inequality(
            whole as int,
            2 * binade() as int,
            pow2(149) as int,
        );
    }
    code
}

} // verus!
