//! IEEE 754 single-precision numbers as the 32-bit patterns that encode them.
//!
//! Ordering two such numbers, finding the largest of a row, telling positive
//! from not, and rounding to a small integer need no floating-point unit: all
//! of it is integer work on the pattern. The model of a pattern is its exact
//! value, counted in units of `2^-149`, the smallest positive number.

use vstd::arithmetic::power2::pow2;
use vstd::prelude::*;

verus! {

/// The pattern of negative infinity.
pub const NEG_INFINITY: u32 = 0xff80_0000;

/// The biased exponent field.
pub open spec fn exponent(b: u32) -> int {
    (b as int / 0x80_0000) % 256
}

/// The fraction field.
pub open spec fn fraction(b: u32) -> int {
    b as int % 0x80_0000
}

/// Whether the sign bit is set.
pub open spec fn negative(b: u32) -> bool {
    b >= 0x8000_0000
}

/// Whether the pattern encodes no number.
pub open spec fn is_nan(b: u32) -> bool {
    exponent(b) == 255 && fraction(b) != 0
}

/// The absolute value, in units of `2^-149`. An infinity counts as `2^128`,
/// more than every finite number.
pub open spec fn scaled_abs(b: u32) -> int {
    if exponent(b) == 0 {
        fraction(b)
    } else {
        (0x80_0000 + fraction(b)) * pow2((exponent(b) - 1) as nat)
    }
}

/// The value, in units of `2^-149`.
pub open spec fn scaled(b: u32) -> int {
    if negative(b) {
        -scaled_abs(b)
    } else {
        scaled_abs(b)
    }
}

/// The number one, in units of `2^-149`.
pub open spec fn one() -> int {
    pow2(149) as int
}

/// Whether the pattern encodes a number above zero.
pub open spec fn is_positive(b: u32) -> bool {
    !is_nan(b) && scaled(b) > 0
}

/// `a > b`, which is false where either is not a number.
pub open spec fn is_greater(a: u32, b: u32) -> bool {
    !is_nan(a) && !is_nan(b) && scaled(a) > scaled(b)
}

/// `v / u` rounded to the nearest integer, a tie to the even one.
pub open spec fn round_half_even(v: int, u: int) -> int {
    let f = v / u;
    let r = v % u;
    if 2 * r < u {
        f
    } else if 2 * r > u {
        f + 1
    } else if f % 2 == 0 {
        f
    } else {
        f + 1
    }
}

/// The integer code of a quotient: rounded half to even, then held to
/// `-127 ..= 127`; zero where the quotient is not a number.
pub open spec fn code_of(b: u32) -> int {
    let n = round_half_even(scaled(b), one());
    if is_nan(b) {
        0
    } else if n < -127 {
        -127
    } else if n > 127 {
        127
    } else {
        n
    }
}

/// On patterns without a sign, a larger pattern is a larger value.
pub proof fn lemma_abs_increases(a: u32, b: u32)
    requires
        a < b,
        b < 0x8000_0000,
    ensures
        0 <= scaled_abs(a) < scaled_abs(b),
{
    let ea = exponent(a);
    let eb = exponent(b);
    lemma_abs_nonnegative(a);
    assert(ea <= eb);
    if eb > 0 {
        let hb = pow2((eb - 1) as nat) as int;
        vstd::arithmetic::power2::lemma_pow2_pos((eb - 1) as nat);
        if ea == eb {
            let fa = fraction(a);
            let fb = fraction(b);
            assert((0x80_0000 + fa) * hb < (0x80_0000 + fb) * hb) by (nonlinear_arith)
                requires
                    fa < fb,
                    hb > 0,
            ;
        } else {
            let fb = fraction(b);
            assert(0x80_0000 * hb <= (0x80_0000 + fb) * hb) by (nonlinear_arith)
                requires
                    0 <= fb,
                    hb > 0,
            ;
            if ea > 0 {
                let ha = pow2((ea - 1) as nat) as int;
                let fa = fraction(a);
                vstd::arithmetic::power2::lemma_pow2_pos((ea - 1) as nat);
                assert((0x80_0000 + fa) * ha < 0x80_0000 * (2 * ha)) by (nonlinear_arith)
                    requires
                        fa < 0x80_0000,
                        ha > 0,
                ;
                vstd::arithmetic::power2::lemma_pow2_unfold(ea as nat);
                if ea < eb - 1 {
                    vstd::arithmetic::power2::lemma_pow2_strictly_increases(
                        ea as nat,
                        (eb - 1) as nat,
                    );
                }
                assert(2 * ha <= hb);
            }
        }
    }
}

/// An absolute value is not below zero, and is zero only where every bit but
/// the sign is clear.
pub proof fn lemma_abs_nonnegative(b: u32)
    ensures
        0 <= scaled_abs(b),
        scaled_abs(b) == 0 <==> b == 0 || b == 0x8000_0000,
{
    if exponent(b) > 0 {
        let h = pow2((exponent(b) - 1) as nat) as int;
        let f = fraction(b);
        vstd::arithmetic::power2::lemma_pow2_pos((exponent(b) - 1) as nat);
        assert(0 < (0x80_0000 + f) * h) by (nonlinear_arith)
            requires
                0 <= f,
                0 < h,
        ;
    }
}

/// The sign bit has no part in the absolute value.
pub proof fn lemma_sign_ignored(b: u32, m: u32)
    requires
        m == b % 0x8000_0000,
    ensures
        exponent(m) == exponent(b),
        fraction(m) == fraction(b),
        scaled_abs(m) == scaled_abs(b),
        is_nan(m) == is_nan(b),
{
}

/// The pattern without its sign: the absolute value.
pub fn magnitude(b: u32) -> (m: u32)
    ensures
        m < 0x8000_0000,
        m == b % 0x8000_0000,
        scaled(m) == scaled_abs(b),
        scaled_abs(m) == scaled_abs(b),
        is_nan(m) == is_nan(b),
{
    let m: u32 = if b >= 0x8000_0000 {
        b - 0x8000_0000
    } else {
        b
    };
    proof {
        lemma_sign_ignored(b, m);
    }
    m
}

/// Whether the pattern encodes a number.
pub fn is_number(b: u32) -> (r: bool)
    ensures
        r == !is_nan(b),
{
    magnitude(b) <= 0x7f80_0000
}

/// Whether the pattern encodes a number above zero.
pub fn positive(b: u32) -> (r: bool)
    ensures
        r == is_positive(b),
{
    proof {
        lemma_abs_nonnegative(b);
    }
    0 < b && b <= 0x7f80_0000
}

/// Whether `a > b` as numbers.
pub fn greater(a: u32, b: u32) -> (r: bool)
    ensures
        r == is_greater(a, b),
{
    if !is_number(a) || !is_number(b) {
        return false;
    }
    let ma: u32 = magnitude(a);
    let mb: u32 = magnitude(b);
    proof {
        lemma_abs_nonnegative(a);
        lemma_abs_nonnegative(b);
        if ma < mb {
            lemma_abs_increases(ma, mb);
        } else if mb < ma {
            lemma_abs_increases(mb, ma);
        }
    }
    if a < 0x8000_0000 {
        if b < 0x8000_0000 {
            ma > mb
        } else {
            ma > 0 || mb > 0
        }
    } else {
        if b < 0x8000_0000 {
            false
        } else {
            mb > ma
        }
    }
}

/// Rounding is symmetric about zero.
pub proof fn lemma_round_negated(v: int, u: int)
    requires
        u > 0,
    ensures
        round_half_even(-v, u) == -round_half_even(v, u),
{
    let f = v / u;
    let r = v % u;
    vstd::arithmetic::div_mod::lemma_fundamental_div_mod(v, u);
    vstd::arithmetic::div_mod::lemma_mod_bound(v, u);
    assert(u * (-f) == -(u * f) && u * (-f - 1) == -(u * f) - u) by (nonlinear_arith);
    if r == 0 {
        vstd::arithmetic::div_mod::lemma_fundamental_div_mod_converse(-v, u, -f, 0);
    } else {
        vstd::arithmetic::div_mod::lemma_fundamental_div_mod_converse(-v, u, -f - 1, u - r);
    }
}

/// Rounding depends on the ratio alone.
proof fn lemma_round_scaled(v: int, u: int, c: int)
    requires
        u > 0,
        c > 0,
    ensures
        round_half_even(v * c, u * c) == round_half_even(v, u),
{
    let f = v / u;
    let r = v % u;
    vstd::arithmetic::div_mod::lemma_fundamental_div_mod(v, u);
    vstd::arithmetic::div_mod::lemma_mod_bound(v, u);
    assert(v * c == (u * c) * f + r * c) by (nonlinear_arith)
        requires
            v == u * f + r,
    ;
    assert(0 <= r * c < u * c) by (nonlinear_arith)
        requires
            0 <= r < u,
            c > 0,
    ;
    vstd::arithmetic::div_mod::lemma_fundamental_div_mod_converse(v * c, u * c, f, r * c);
    assert(2 * r < u ==> 2 * (r * c) < u * c) by (nonlinear_arith)
        requires
            c > 0,
    ;
    assert(2 * r > u ==> 2 * (r * c) > u * c) by (nonlinear_arith)
        requires
            c > 0,
    ;
    assert(2 * r == u ==> 2 * (r * c) == u * c) by (nonlinear_arith);
}

/// Rounds the absolute value that a pattern without a sign encodes to an
/// integer, half to even, and holds it to `127`.
fn round_magnitude(m: u32) -> (n: u32)
    requires
        m <= 0x7f80_0000,
    ensures
        n <= 127,
        n == if round_half_even(scaled_abs(m), one()) > 127 {
            127
        } else {
            round_half_even(scaled_abs(m), one())
        },
{
    let e: u32 = m / 0x80_0000;
    let f: u32 = m % 0x80_0000;
    proof {
        assert(exponent(m) == e && fraction(m) == f);
        vstd::arithmetic::power2::lemma_pow2_pos(149);
    }
    if e <= 125 {
        proof {
            assert(2 * scaled_abs(m) < one()) by {
                vstd::arithmetic::power2::lemma2_to64();
                vstd::arithmetic::power2::lemma_pow2_adds(24, 125);
                vstd::arithmetic::power2::lemma_pow2_unfold(125);
                vstd::arithmetic::power2::lemma_pow2_pos(124);
                if e > 0 {
                    if e < 125 {
                        vstd::arithmetic::power2::lemma_pow2_strictly_increases(
                            (e - 1) as nat,
                            124,
                        );
                    }
                    let h = pow2((e - 1) as nat) as int;
                    let g = pow2(124) as int;
                    vstd::arithmetic::power2::lemma_pow2_pos((e - 1) as nat);
                    assert((0x80_0000 + f) * h < 0x100_0000 * g) by (nonlinear_arith)
                        requires
                            0 <= f < 0x80_0000,
                            0 < h <= g,
                    ;
                }
            }
            lemma_abs_nonnegative(m);
            vstd::arithmetic::div_mod::lemma_fundamental_div_mod_converse(
                scaled_abs(m),
                one(),
                0,
                scaled_abs(m),
            );
        }
        0
    } else if e >= 134 {
        proof {
            assert(scaled_abs(m) >= one() * 128) by {
                vstd::arithmetic::power2::lemma2_to64();
                vstd::arithmetic::power2::lemma_pow2_adds(23, 133);
                vstd::arithmetic::power2::lemma_pow2_adds(149, 7);
                if e > 134 {
                    vstd::arithmetic::power2::lemma_pow2_strictly_increases(133, (e - 1) as nat);
                }
                let h = pow2((e - 1) as nat) as int;
                let g = pow2(133) as int;
                vstd::arithmetic::power2::lemma_pow2_pos(133);
                assert((0x80_0000 + f) * h >= 0x80_0000 * g) by (nonlinear_arith)
                    requires
                        0 <= f,
                        0 < g <= h,
                ;
            }
            vstd::arithmetic::div_mod::lemma_div_is_ordered(one() * 128, scaled_abs(m), one());
            vstd::arithmetic::div_mod::lemma_div_by_multiple(128, one());
            assert(one() * 128 == 128 * one());
        }
        127
    } else {
        let sig: u32 = 0x80_0000 + f;
        let unit: u32 = unit_in_last_place(e);
        let whole: u32 = sig / unit;
        let rest: u32 = sig % unit;
        proof {
            let c = pow2((e - 1) as nat) as int;
            vstd::arithmetic::power2::lemma_pow2_pos((e - 1) as nat);
            vstd::arithmetic::power2::lemma_pow2_adds((150 - e) as nat, (e - 1) as nat);
            assert(unit * c == one());
            lemma_round_scaled(sig as int, unit as int, c);
            vstd::arithmetic::div_mod::lemma_div_is_ordered(sig as int, 0xff_ffff, unit as int);
            assert(whole <= 127) by {
                assert(0xff_ffffint / (unit as int) <= 127) by (nonlinear_arith)
                    requires
                        unit >= 0x2_0000,
                ;
            }
        }
        let up: bool = 2 * rest > unit || (2 * rest == unit && whole % 2 == 1);
        if up && whole < 127 {
            whole + 1
        } else {
            whole
        }
    }
}

/// What one is worth in units of the last place of a number whose biased
/// exponent is `e`: `2^(150 - e)`.
fn unit_in_last_place(e: u32) -> (u: u32)
    requires
        126 <= e <= 133,
    ensures
        u == pow2((150 - e) as nat),
        0x2_0000 <= u <= 0x100_0000,
{
    proof {
        vstd::arithmetic::power2::lemma2_to64();
    }
    if e == 126 {
        0x100_0000
    } else if e == 127 {
        0x80_0000
    } else if e == 128 {
        0x40_0000
    } else if e == 129 {
        0x20_0000
    } else if e == 130 {
        0x10_0000
    } else if e == 131 {
        0x8_0000
    } else if e == 132 {
        0x4_0000
    } else {
        0x2_0000
    }
}

/// The integer code of a quotient: rounded half to even and held to
/// `-127 ..= 127`; zero where the quotient is not a number.
pub fn round_code(b: u32) -> (c: i8)
    ensures
        c == code_of(b),
        -127 <= c <= 127,
{
    if !is_number(b) {
        return 0;
    }
    let m: u32 = magnitude(b);
    let n: u32 = round_magnitude(m);
    proof {
        vstd::arithmetic::power2::lemma_pow2_pos(149);
        lemma_round_negated(scaled_abs(b), one());
        lemma_abs_nonnegative(b);
        vstd::arithmetic::div_mod::lemma_div_pos_is_pos(scaled_abs(b), one());
    }
    if b >= 0x8000_0000 {
        -(n as i8)
    } else {
        n as i8
    }
}

} // verus!
