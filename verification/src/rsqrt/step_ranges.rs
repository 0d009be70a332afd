//! A step of Newton's method on a guess that is within its reach never
//! leaves the normal numbers.
//!
//! A guess `y` for the inverse square root of `x` is within reach where
//! `x * y * y` lies between 0.932 and 1.0695. Then half of `x` times `y`
//! times `y` is about one half, one and a half minus it is about one, and the
//! next guess is about `y`: each of them is bounded by numbers that are
//! themselves representable, which rounding cannot cross.
use crate::ieee::arith::{difference, finite_sum, product};
use crate::ieee::format::{
    finite, lemma_units_increasing, lemma_units_of_packed, lemma_units_of_small, magnitude,
    negated, packed, sign_negative, signed_units, units, HIDDEN_BIT, INFINITY,
};
use crate::ieee::round::{
    lemma_nearest_even_at_least, lemma_nearest_even_at_most, lemma_round_is_nearest,
    lemma_rounding_error, round_nearest_even, unit_denominator,
};
use crate::rsqrt::accuracy::{lemma_cancel, lemma_product_order, lemma_root_order, one_cubed};
use crate::rsqrt::{positive_normal, refined, ONE_HALF, THREE_HALFS};
use vstd::arithmetic::power2::{
    lemma2_to64, lemma_pow2_adds, lemma_pow2_pos, lemma_pow2_strictly_increases, lemma_pow2_unfold,
    pow2,
};
use vstd::prelude::*;

verus! {

/// Whether the guess `y` for the inverse square root of `x` is within the
/// reach of Newton's step: `x * y * y` lies between 0.932 and 1.0695.
pub open spec fn in_reach(x: u32, y: u32) -> bool {
    let square = units(x as int) * (units(y as int) * units(y as int));
    932 * one_cubed() <= 1000 * square && 10000 * square <= 10695 * one_cubed()
}

/// Whether a number is positive, finite and at least `2^-127`, so that
/// rounding to it loses at most one part in `2^22`.
pub open spec fn large_enough(bits: u32) -> bool {
    !sign_negative(bits) && 0x40_0000 <= magnitude(bits) < INFINITY
}

/// Half the number `x`, as the step computes it.
pub open spec fn step_half(x: u32) -> u32 {
    product(x, ONE_HALF)
}

/// The first product of the step: half the number times the guess.
pub open spec fn step_first_product(x: u32, y: u32) -> u32 {
    product(step_half(x), y)
}

/// The second product of the step: the first product times the guess.
pub open spec fn step_second_product(x: u32, y: u32) -> u32 {
    product(step_first_product(x, y), y)
}

/// The factor of the step: one and a half minus the second product.
pub open spec fn step_factor(x: u32, y: u32) -> u32 {
    difference(THREE_HALFS, step_second_product(x, y))
}

/// The pattern of the power of two that is `2^n` units.
pub open spec fn pattern_of_pow2(n: int) -> int {
    if n < 23 {
        pow2(n as nat) as int
    } else {
        (n - 22) * HIDDEN_BIT
    }
}

/// The pattern of a power of two has the value of the power of two.
pub proof fn lemma_pattern_of_pow2(n: int)
    requires
        0 <= n <= 277,
    ensures
        units(pattern_of_pow2(n)) == pow2(n as nat),
        0 <= pattern_of_pow2(n) <= INFINITY,
        n <= 276 ==> pattern_of_pow2(n) < INFINITY,
        n >= 23 ==> pattern_of_pow2(n) >= HIDDEN_BIT,
        n >= 22 ==> pattern_of_pow2(n) >= 0x40_0000,
{
    lemma2_to64();
    if n < 23 {
        lemma_pow2_strictly_increases(n as nat, 23);
        lemma_pow2_pos(n as nat);
        lemma_units_of_small(pow2(n as nat) as int);
    } else if n == 277 {
        lemma_units_of_packed(253, 2 * HIDDEN_BIT);
        lemma_pow2_adds(24, 253);
        assert(packed(253, 2 * HIDDEN_BIT) == 255 * HIDDEN_BIT);
    } else {
        lemma_units_of_packed(n - 23, HIDDEN_BIT as int);
        lemma_pow2_adds(23, (n - 23) as nat);
        assert(packed(n - 23, HIDDEN_BIT as int) == (n - 22) * HIDDEN_BIT);
    }
}

/// The product of two finite numbers lies between two magnitudes that the
/// exact product lies between.
pub proof fn lemma_product_between(a: u32, b: u32, low: int, high: int)
    requires
        finite(a),
        finite(b),
        0 <= low <= INFINITY,
        0 <= high < INFINITY,
        units(low) * unit_denominator() <= units(magnitude(a) as int) * units(
            magnitude(b) as int,
        ) <= units(high) * unit_denominator(),
    ensures
        low <= magnitude(product(a, b)) <= high,
        sign_negative(product(a, b)) == (sign_negative(a) != sign_negative(b)),
        finite(product(a, b)),
{
    let exact = units(magnitude(a) as int) * units(magnitude(b) as int);
    let d = unit_denominator();
    lemma_pow2_pos(149);
    lemma_units_increasing(0, low);
    assert(units(low) * d >= 0) by (nonlinear_arith)
        requires
            units(low) >= 0,
            d > 0,
    ;
    lemma_round_is_nearest(exact, d);
    let r = round_nearest_even(exact, d);
    lemma_nearest_even_at_least(exact, d, r, low);
    lemma_nearest_even_at_most(exact, d, r, high);
}

/// One and a half minus a positive finite number lies between two
/// magnitudes that the exact difference lies between, and is positive.
pub proof fn lemma_difference_between(t: u32, low: int, high: int)
    requires
        finite(t),
        !sign_negative(t),
        0 < low <= INFINITY,
        0 <= high < INFINITY,
        units(low) <= units(THREE_HALFS as int) - units(t as int) <= units(high),
    ensures
        low <= magnitude(difference(THREE_HALFS, t)) <= high,
        !sign_negative(difference(THREE_HALFS, t)),
{
    let exact = units(THREE_HALFS as int) - units(t as int);
    lemma_units_increasing(0, low);
    assert(exact > 0);
    lemma_round_is_nearest(exact, 1);
    let r = round_nearest_even(exact, 1);
    assert(units(low) * 1 <= exact <= units(high) * 1);
    lemma_nearest_even_at_least(exact, 1, r, low);
    lemma_nearest_even_at_most(exact, 1, r, high);
    let minus_t = negated(t);
    assert(magnitude(minus_t) == t);
    assert(sign_negative(minus_t));
    assert(signed_units(THREE_HALFS) + signed_units(minus_t) == exact);
    assert(difference(THREE_HALFS, t) == finite_sum(THREE_HALFS, minus_t));
}

/// A product of finite numbers that is at least `2^-127` in magnitude, and
/// finite, differs from the exact product by at most one part in `2^22`.
pub proof fn lemma_product_error(a: u32, b: u32)
    requires
        finite(a),
        finite(b),
        0x40_0000 <= magnitude(product(a, b)) < INFINITY,
    ensures
        ({
            let exact = units(magnitude(a) as int) * units(magnitude(b) as int);
            let rounded = units(magnitude(product(a, b)) as int) * unit_denominator();
            4194303 * exact <= 4194304 * rounded && 4194304 * rounded <= 4194305 * exact
        }),
{
    let exact = units(magnitude(a) as int) * units(magnitude(b) as int);
    let d = unit_denominator();
    lemma_pow2_pos(149);
    lemma_units_increasing(0, magnitude(a) as int);
    lemma_units_increasing(0, magnitude(b) as int);
    assert(exact >= 0) by (nonlinear_arith)
        requires
            exact == units(magnitude(a) as int) * units(magnitude(b) as int),
            units(magnitude(a) as int) >= 0,
            units(magnitude(b) as int) >= 0,
    ;
    lemma_round_is_nearest(exact, d);
    lemma_rounding_error(exact, d, magnitude(product(a, b)) as int);
}

/// One and a half minus a smaller positive number, where it is large enough,
/// differs from the exact difference by at most one part in `2^22`.
pub proof fn lemma_difference_error(t: u32)
    requires
        large_enough(t),
        units(t as int) < units(THREE_HALFS as int),
        large_enough(difference(THREE_HALFS, t)),
    ensures
        ({
            let exact = units(THREE_HALFS as int) - units(t as int);
            let rounded = units(difference(THREE_HALFS, t) as int);
            4194303 * exact <= 4194304 * rounded && 4194304 * rounded <= 4194305 * exact
        }),
{
    let exact = units(THREE_HALFS as int) - units(t as int);
    let minus_t = negated(t);
    assert(magnitude(minus_t) == t);
    assert(sign_negative(minus_t));
    assert(signed_units(THREE_HALFS) + signed_units(minus_t) == exact);
    assert(difference(THREE_HALFS, t) == finite_sum(THREE_HALFS, minus_t));
    lemma_round_is_nearest(exact, 1);
    lemma_rounding_error(exact, 1, difference(THREE_HALFS, t) as int);
    assert(units(difference(THREE_HALFS, t) as int) * 1 == units(
        difference(THREE_HALFS, t) as int,
    ));
}

/// The bounds of the first product: with `h` about half of `x` and
/// `x * y * y` about `n^3`, the product `h * y` lies between `2^171` and
/// `2^363`, that is between `2^22` and `2^214` units.
proof fn lemma_first_product_bounds(x: int, y: int, h: int, n3: int)
    requires
        pow2(23) <= x <= pow2(277),
        y >= 0,
        h >= 0,
        4194303 * x <= 8388608 * h <= 4194305 * x,
        n3 == pow2(447),
        932 * n3 <= 1000 * (x * (y * y)),
        10000 * (x * (y * y)) <= 10695 * n3,
    ensures
        pow2(171) <= h * y <= pow2(363),
{
    let a = x * (y * y);
    let hy = h * y;
    lemma2_to64();
    lemma_pow2_pos(23);
    lemma_pow2_adds(171, 171);
    lemma_pow2_adds(363, 363);
    lemma_pow2_adds(23, 447);
    lemma_pow2_adds(277, 447);
    lemma_pow2_strictly_increases(342, 465);
    lemma_pow2_adds(465, 5);
    lemma_pow2_strictly_increases(724, 725);
    lemma_pow2_unfold(725);
    lemma_pow2_unfold(726);
    assert(hy >= 0) by (nonlinear_arith)
        requires
            hy == h * y,
            h >= 0,
            y >= 0,
    ;
    // x <= 4h and h <= x, so the square of h * y lies between x * a / 16 and x * a.
    assert(x * a <= 16 * (hy * hy) && hy * hy <= x * a) by (nonlinear_arith)
        requires
            0 <= x <= 4 * h,
            0 <= h <= x,
            a == x * (y * y),
            hy == h * y,
    ;
    lemma_product_order(pow2(23) as int, x, 932 * n3, 1000 * a);
    lemma_product_order(x, pow2(277) as int, 10000 * a, 10695 * n3);
    assert(pow2(23) * (932 * n3) == 932 * pow2(470) && x * (1000 * a) == 1000 * (x * a) && x * (
    10000 * a) == 10000 * (x * a) && pow2(277) * (10695 * n3) == 10695 * pow2(724))
        by (nonlinear_arith)
        requires
            pow2(23) * n3 == pow2(470),
            pow2(277) * n3 == pow2(724),
    ;
    assert(pow2(171) * pow2(171) <= hy * hy <= pow2(363) * pow2(363));
    lemma_root_order(pow2(171) as int, hy);
    lemma_root_order(hy, pow2(363) as int);
}

/// The bounds of the second product: with `t1 * n` about `h * y`, `h` about
/// half of `x` and `x * y * y` about `n^3`, the product `t1 * y` lies between
/// a quarter of `n * n` and `n * n`.
proof fn lemma_second_product_bounds(x: int, y: int, h: int, t1: int, n: int)
    requires
        n > 0,
        x >= 0,
        y >= 0,
        h >= 0,
        t1 >= 0,
        4194303 * x <= 8388608 * h <= 4194305 * x,
        4194303 * (h * y) <= 4194304 * (t1 * n) <= 4194305 * (h * y),
        932 * (n * (n * n)) <= 1000 * (x * (y * y)),
        10000 * (x * (y * y)) <= 10695 * (n * (n * n)),
    ensures
        n * n <= 4 * (t1 * y),
        t1 * y <= n * n,
{
    let yy = y * y;
    let nn = n * n;
    let a = x * yy;
    let hyy = h * yy;
    let t1y = t1 * y;
    assert(yy >= 0 && nn > 0) by (nonlinear_arith)
        requires
            yy == y * y,
            nn == n * n,
            n > 0,
    ;
    assert(4194303 * a <= 8388608 * hyy <= 4194305 * a) by (nonlinear_arith)
        requires
            4194303 * x <= 8388608 * h <= 4194305 * x,
            yy >= 0,
            a == x * yy,
            hyy == h * yy,
    ;
    let hy = h * y;
    let t1n = t1 * n;
    assert(4194303 * (hy * y) <= 4194304 * (t1n * y) <= 4194305 * (hy * y)) by (nonlinear_arith)
        requires
            4194303 * hy <= 4194304 * t1n <= 4194305 * hy,
            y >= 0,
    ;
    assert(hy * y == hyy && t1n * y == t1y * n) by (nonlinear_arith)
        requires
            hy == h * y,
            t1n == t1 * n,
            hyy == h * (y * y),
            t1y == t1 * y,
    ;
    assert(nn * n <= (4 * t1y) * n && t1y * n <= nn * n) by (nonlinear_arith)
        requires
            4194303 * a <= 8388608 * hyy <= 4194305 * a,
            4194303 * hyy <= 4194304 * (t1y * n) <= 4194305 * hyy,
            932 * (n * nn) <= 1000 * a,
            10000 * a <= 10695 * (n * nn),
    ;
    lemma_cancel(nn, 4 * t1y, n);
    lemma_cancel(t1y, nn, n);
}

/// The bounds of the guess itself: with `x * y * y` about `n^3` and `x`
/// normal, `y` lies between `2^84` and `2^213` units.
proof fn lemma_guess_bounds(x: int, y: int, n3: int)
    requires
        pow2(23) <= x <= pow2(277),
        y >= 0,
        n3 == pow2(447),
        932 * n3 <= 1000 * (x * (y * y)),
        10000 * (x * (y * y)) <= 10695 * n3,
    ensures
        pow2(84) <= y <= pow2(213),
{
    let yy = y * y;
    lemma_pow2_pos(23);
    lemma_pow2_pos(168);
    lemma_pow2_adds(84, 84);
    lemma_pow2_adds(213, 213);
    lemma_pow2_adds(277, 168);
    lemma_pow2_adds(23, 426);
    lemma_pow2_strictly_increases(445, 447);
    lemma_pow2_unfold(449);
    lemma_pow2_unfold(448);
    lemma_pow2_unfold(447);
    lemma_pow2_unfold(446);
    assert(yy >= 0) by (nonlinear_arith)
        requires
            yy == y * y,
    ;
    // If y * y were below 2^168, x * y * y would be below 2^445.
    if yy < pow2(168) {
        lemma_product_order(x, pow2(277) as int, yy, pow2(168) as int);
        assert(false);
    }
    // If y * y were above 2^426, x * y * y would be above 2^449.
    if yy > pow2(426) {
        lemma_product_order(pow2(23) as int, x, pow2(426) as int, yy);
        assert(false);
    }
    lemma_root_order(pow2(84) as int, y);
    lemma_root_order(y, pow2(213) as int);
}

/// A step of Newton's method on a positive normal guess within reach never
/// leaves the normal numbers, but for the half of the number, which may be
/// one of the larger subnormals, and it ends in a positive normal number.
pub proof fn lemma_step_ranges(x: u32, y: u32)
    requires
        positive_normal(x),
        positive_normal(y),
        in_reach(x, y),
    ensures
        large_enough(step_half(x)),
        large_enough(step_first_product(x, y)),
        large_enough(step_second_product(x, y)),
        units(step_second_product(x, y) as int) < units(THREE_HALFS as int),
        large_enough(step_factor(x, y)),
        refined(step_half(x), y) == product(y, step_factor(x, y)),
        positive_normal(refined(step_half(x), y)),
{
    let n = unit_denominator();
    let n3 = one_cubed();
    let ux = units(x as int);
    let uy = units(y as int);
    lemma2_to64();
    lemma_pow2_pos(149);
    lemma_pow2_pos(148);
    lemma_pow2_unfold(149);
    lemma_pow2_adds(149, 149);
    lemma_pow2_adds(149, 298);
    assert(n3 == n * (n * n));
    // The number and the guess are normal.
    lemma_pattern_of_pow2(23);
    lemma_pattern_of_pow2(277);
    lemma_units_increasing(pattern_of_pow2(23), x as int);
    lemma_units_increasing(x as int, pattern_of_pow2(277));
    lemma_units_increasing(0, y as int);
    lemma_guess_bounds(ux, uy, n3);
    // Half of the number.
    let half = step_half(x);
    lemma_units_of_packed(125, 0x80_0000);
    assert(packed(125, 0x80_0000) == ONE_HALF);
    lemma_pow2_adds(23, 125);
    lemma_pattern_of_pow2(22);
    lemma_pattern_of_pow2(276);
    lemma_pow2_adds(22, 149);
    lemma_pow2_adds(23, 148);
    lemma_pow2_adds(276, 149);
    lemma_pow2_adds(277, 148);
    let p148 = pow2(148) as int;
    lemma_product_order(pow2(23) as int, ux, p148, p148);
    lemma_product_order(ux, pow2(277) as int, p148, p148);
    lemma_product_between(x, ONE_HALF, pattern_of_pow2(22), pattern_of_pow2(276));
    let uh = units(half as int);
    lemma_units_increasing(0, half as int);
    lemma_product_error(x, ONE_HALF);
    assert((4194303 * ux) * p148 <= (8388608 * uh) * p148 && (8388608 * uh) * p148 <= (4194305
        * ux) * p148) by (nonlinear_arith)
        requires
            4194303 * (ux * p148) <= 4194304 * (uh * n),
            4194304 * (uh * n) <= 4194305 * (ux * p148),
            n == 2 * p148,
    ;
    lemma_cancel(4194303 * ux, 8388608 * uh, p148);
    lemma_cancel(8388608 * uh, 4194305 * ux, p148);
    // The first product.
    let first = step_first_product(x, y);
    lemma_first_product_bounds(ux, uy, uh, n3);
    lemma_pattern_of_pow2(214);
    lemma_pow2_adds(214, 149);
    lemma_product_between(half, y, pattern_of_pow2(22), pattern_of_pow2(214));
    let u1 = units(first as int);
    lemma_units_increasing(0, first as int);
    lemma_product_error(half, y);
    // The second product.
    let second = step_second_product(x, y);
    lemma_second_product_bounds(ux, uy, uh, u1, n);
    lemma_pattern_of_pow2(147);
    lemma_pattern_of_pow2(149);
    lemma_pow2_adds(147, 149);
    lemma_pow2_unfold(148);
    assert(units(pattern_of_pow2(147)) * n <= u1 * uy <= units(pattern_of_pow2(149)) * n)
        by (nonlinear_arith)
        requires
            n * n <= 4 * (u1 * uy),
            u1 * uy <= n * n,
            4 * units(pattern_of_pow2(147)) == n,
            units(pattern_of_pow2(149)) == n,
    ;
    lemma_product_between(first, y, pattern_of_pow2(147), pattern_of_pow2(149));
    let u2 = units(second as int);
    lemma_units_increasing(pattern_of_pow2(147), second as int);
    lemma_units_increasing(second as int, pattern_of_pow2(149));
    // One and a half minus the second product lies between one half and two.
    lemma_units_of_packed(126, 0xc0_0000);
    assert(packed(126, 0xc0_0000) == THREE_HALFS);
    lemma_pow2_adds(22, 126);
    assert(2 * units(THREE_HALFS as int) == 3 * n) by (nonlinear_arith)
        requires
            units(THREE_HALFS as int) == 0xc0_0000 * pow2(126),
            pow2(22) * pow2(126) == p148,
            pow2(22) == 0x40_0000,
            n == 2 * p148,
    ;
    lemma_pattern_of_pow2(148);
    lemma_pattern_of_pow2(150);
    lemma_pow2_unfold(150);
    lemma_difference_between(second, pattern_of_pow2(148), pattern_of_pow2(150));
    let factor = step_factor(x, y);
    let ud = units(factor as int);
    lemma_units_increasing(pattern_of_pow2(148), factor as int);
    lemma_units_increasing(factor as int, pattern_of_pow2(150));
    // The next guess lies between half the guess and twice the guess.
    lemma_pattern_of_pow2(83);
    lemma_pattern_of_pow2(214);
    lemma_pow2_adds(84, 148);
    lemma_pow2_adds(83, 149);
    lemma_pow2_adds(213, 150);
    lemma_product_order(pow2(84) as int, uy, pow2(148) as int, ud);
    lemma_product_order(uy, pow2(213) as int, ud, pow2(150) as int);
    lemma_product_between(y, factor, pattern_of_pow2(83), pattern_of_pow2(214));
}

} // verus!
