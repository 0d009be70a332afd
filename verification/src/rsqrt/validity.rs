//! When a result is again a positive normal number. The wrappers of this
//! library check a number once and never again; these are the operations and
//! the ranges for which nothing is lost by that.
use crate::ieee::arith::{finite_sum, product, sum};
use crate::ieee::divide::{inverse, quotient, ONE};
use crate::ieee::format::{
    lemma_units_increasing, lemma_units_of_packed, magnitude, nan, packed, sign_negative,
    signed_units, units, HIDDEN_BIT, INFINITY,
};
use crate::ieee::root::{
    lemma_nearest_even_root_at_least, lemma_nearest_even_root_at_most,
    lemma_round_root_is_nearest, root, round_root_nearest_even,
};
use crate::ieee::round::{
    lemma_nearest_even_at_least, lemma_nearest_even_at_most, lemma_round_is_nearest,
    round_nearest_even, unit_denominator,
};
use crate::rsqrt::{positive_normal, seed};
use vstd::arithmetic::power2::{lemma2_to64, lemma_pow2_adds, lemma_pow2_pos, pow2};
use vstd::prelude::*;

verus! {

/// The least magnitude whose square is normal: `2^-63`.
pub const LEAST_SQUARABLE: u32 = 0x2000_0000;

/// The least magnitude whose square is not finite: `2^64`.
pub const LEAST_UNSQUARABLE: u32 = 0x5f80_0000;

/// The pattern of the least positive normal number, `2^-126`.
pub const LEAST_NORMAL: u32 = 0x0080_0000;

/// The pattern of the greatest finite number.
pub const GREATEST_FINITE: u32 = 0x7f7f_ffff;

/// The value of a power of two: the pattern with exponent field `field` and
/// no fraction bits is `2^(field + 22)` units.
proof fn lemma_units_of_power(field: int)
    requires
        1 <= field <= 254,
    ensures
        units(field * HIDDEN_BIT) == pow2((field + 22) as nat),
{
    lemma2_to64();
    lemma_units_of_packed(field - 1, HIDDEN_BIT as int);
    lemma_pow2_adds(23, (field - 1) as nat);
    assert(packed(field - 1, HIDDEN_BIT as int) == field * HIDDEN_BIT);
}

/// The value of the greatest finite number.
proof fn lemma_units_of_greatest_finite()
    ensures
        units(GREATEST_FINITE as int) == 0xff_ffff * pow2(253),
{
    lemma_units_of_packed(253, 0xff_ffff);
    assert(packed(253, 0xff_ffff) == GREATEST_FINITE);
}

/// The first guess for a positive normal number is a positive normal number.
pub proof fn lemma_seed_is_valid(bits: u32)
    requires
        positive_normal(bits),
    ensures
        positive_normal(seed(bits)),
{
}

/// The square of a number from `2^-63` up to, but not including, `2^64` in
/// magnitude is a positive normal number.
pub proof fn lemma_square_is_valid(x: u32)
    requires
        LEAST_SQUARABLE <= magnitude(x) < LEAST_UNSQUARABLE,
    ensures
        positive_normal(product(x, x)),
{
    let m = magnitude(x) as int;
    let u = units(m);
    let d = unit_denominator();
    lemma2_to64();
    lemma_pow2_pos(149);
    lemma_units_of_power(64);
    lemma_units_of_power(1);
    lemma_units_of_greatest_finite();
    lemma_units_of_packed(189, 0xff_ffff);
    assert(packed(189, 0xff_ffff) == LEAST_UNSQUARABLE - 1);
    lemma_units_increasing(LEAST_SQUARABLE as int, m);
    lemma_units_increasing(m, LEAST_UNSQUARABLE - 1);
    lemma_pow2_adds(86, 86);
    lemma_pow2_adds(23, 149);
    lemma_pow2_adds(189, 189);
    lemma_pow2_adds(24, 378);
    lemma_pow2_adds(253, 149);
    let low = pow2(86) as int;
    let high = 0xff_ffff * pow2(189);
    assert(low * low <= u * u <= high * high) by (nonlinear_arith)
        requires
            0 <= low <= u <= high,
    ;
    lemma_pow2_pos(378);
    assert(high * high <= (0xff_ffff * pow2(253)) * d) by (nonlinear_arith)
        requires
            high == 0xff_ffff * pow2(189),
            pow2(189) * pow2(189) == pow2(378),
            pow2(24) * pow2(378) == pow2(253) * d,
            pow2(24) == 0x100_0000,
            pow2(378) > 0,
    ;
    lemma_round_is_nearest(u * u, d);
    let r = round_nearest_even(u * u, d);
    lemma_nearest_even_at_least(u * u, d, r, LEAST_NORMAL as int);
    lemma_nearest_even_at_most(u * u, d, r, GREATEST_FINITE as int);
}

/// The sum of two positive normal numbers is a positive normal number, or
/// positive infinity where it is too large.
pub proof fn lemma_sum_is_valid_or_infinite(a: u32, b: u32)
    requires
        positive_normal(a),
        positive_normal(b),
    ensures
        positive_normal(sum(a, b)) || sum(a, b) == INFINITY,
{
    let ua = units(a as int);
    let ub = units(b as int);
    lemma2_to64();
    lemma_units_of_power(1);
    lemma_units_increasing(LEAST_NORMAL as int, a as int);
    lemma_units_increasing(LEAST_NORMAL as int, b as int);
    lemma_round_is_nearest(ua + ub, 1);
    let r = round_nearest_even(ua + ub, 1);
    assert(units(LEAST_NORMAL as int) * 1 <= ua + ub);
    lemma_nearest_even_at_least(ua + ub, 1, r, LEAST_NORMAL as int);
    assert(sum(a, b) == finite_sum(a, b));
    assert(signed_units(a) + signed_units(b) == ua + ub);
}

/// The product of two positive normal numbers is neither negative nor NaN.
pub proof fn lemma_product_is_positive(a: u32, b: u32)
    requires
        positive_normal(a),
        positive_normal(b),
    ensures
        !sign_negative(product(a, b)),
        !nan(product(a, b)),
{
    let ua = units(a as int);
    let ub = units(b as int);
    lemma_pow2_pos(149);
    lemma_units_increasing(0, a as int);
    lemma_units_increasing(0, b as int);
    assert(ua * ub >= 0) by (nonlinear_arith)
        requires
            ua >= 0,
            ub >= 0,
    ;
    lemma_round_is_nearest(ua * ub, unit_denominator());
}

/// The square root of a positive normal number lies between `2^-63` and
/// `2^64`.
pub proof fn lemma_root_of_valid(x: u32)
    requires
        positive_normal(x),
    ensures
        LEAST_SQUARABLE <= root(x) <= LEAST_UNSQUARABLE,
{
    let u = units(x as int);
    let d = unit_denominator();
    let square = u * d;
    lemma2_to64();
    lemma_pow2_pos(149);
    lemma_units_of_power(1);
    lemma_units_of_power(64);
    lemma_units_of_power(191);
    lemma_units_of_greatest_finite();
    lemma_units_increasing(LEAST_NORMAL as int, x as int);
    lemma_units_increasing(x as int, GREATEST_FINITE as int);
    lemma_pow2_adds(86, 86);
    lemma_pow2_adds(23, 149);
    lemma_pow2_adds(213, 213);
    lemma_pow2_adds(24, 253);
    lemma_pow2_adds(277, 149);
    assert(pow2(23) * d <= square <= (0xff_ffff * pow2(253)) * d) by (nonlinear_arith)
        requires
            pow2(23) <= u <= 0xff_ffff * pow2(253),
            square == u * d,
            d > 0,
    ;
    lemma_pow2_pos(253);
    assert((0xff_ffff * pow2(253)) * d <= pow2(426)) by (nonlinear_arith)
        requires
            (pow2(24) * pow2(253)) * d == pow2(426),
            pow2(24) == 0x100_0000,
            pow2(253) > 0,
            d > 0,
    ;
    assert(square >= 0);
    lemma_round_root_is_nearest(square);
    let r = round_root_nearest_even(square);
    lemma_nearest_even_root_at_least(square, r, LEAST_SQUARABLE as int);
    lemma_nearest_even_root_at_most(square, r, LEAST_UNSQUARABLE as int);
}

/// The inverse of a positive number from `2^-63` to `2^64` is a positive
/// normal number.
pub proof fn lemma_inverse_is_valid(y: u32)
    requires
        LEAST_SQUARABLE <= y <= LEAST_UNSQUARABLE,
    ensures
        positive_normal(inverse(y)),
{
    let uy = units(y as int);
    let d = unit_denominator();
    lemma2_to64();
    lemma_pow2_pos(149);
    lemma_units_of_power(1);
    lemma_units_of_power(64);
    lemma_units_of_power(127);
    lemma_units_of_power(191);
    lemma_units_of_greatest_finite();
    lemma_units_increasing(LEAST_SQUARABLE as int, y as int);
    lemma_units_increasing(y as int, LEAST_UNSQUARABLE as int);
    assert(ONE == 127 * HIDDEN_BIT);
    let num = units(ONE as int) * d;
    lemma_pow2_adds(149, 149);
    lemma_pow2_adds(23, 213);
    lemma_pow2_adds(253, 86);
    lemma_pow2_pos(253);
    lemma_pow2_pos(86);
    vstd::arithmetic::power2::lemma_pow2_strictly_increases(236, 298);
    vstd::arithmetic::power2::lemma_pow2_strictly_increases(298, 339);
    assert(pow2(23) * uy <= pow2(23) * pow2(213)) by (nonlinear_arith)
        requires
            uy <= pow2(213),
    ;
    assert((0xff_ffff * pow2(253)) * uy >= pow2(253) * pow2(86)) by (nonlinear_arith)
        requires
            uy >= pow2(86),
            pow2(253) > 0,
            pow2(86) > 0,
    ;
    lemma_round_is_nearest(num, uy);
    let r = round_nearest_even(num, uy);
    lemma_nearest_even_at_least(num, uy, r, LEAST_NORMAL as int);
    lemma_nearest_even_at_most(num, uy, r, GREATEST_FINITE as int);
    assert(inverse(y) == quotient(ONE, y));
}

/// The inverse square root of a positive normal number, as the arithmetic
/// gives it, is a positive normal number.
pub proof fn lemma_exact_rsqrt_is_valid(x: u32)
    requires
        positive_normal(x),
    ensures
        positive_normal(inverse(root(x))),
{
    lemma_root_of_valid(x);
    lemma_inverse_is_valid(root(x));
}

} // verus!
