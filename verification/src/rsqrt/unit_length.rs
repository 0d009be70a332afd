//! The length of a normalized vector: for components of moderate size it is
//! within five thousandths of one.
use crate::ieee::arith::{finite_sum, product, sum};
use crate::ieee::format::{
    finite, lemma_units_increasing, magnitude, normal, sign_negative, signed_units, units, INFINITY,
};
use crate::ieee::round::{
    lemma_nearest_even_at_least, lemma_nearest_even_at_most, lemma_round_is_nearest,
    lemma_rounding_error, round_nearest_even, unit_denominator,
};
use crate::rsqrt::accuracy::{lemma_cancel, lemma_product_order, lemma_root_order, one_cubed};
use crate::rsqrt::step_accuracy::lemma_approximation_accuracy;
use crate::rsqrt::step_ranges::{
    lemma_pattern_of_pow2, lemma_product_between, lemma_product_error, pattern_of_pow2,
};
use crate::rsqrt::{positive_normal, reciprocal_norm, scaled_to_unit};
use vstd::arithmetic::power2::{
    lemma2_to64, lemma_pow2_adds, lemma_pow2_pos, lemma_pow2_unfold, pow2,
};
use vstd::prelude::*;

verus! {

/// The least magnitude of a moderate component: `2^-60`.
pub const LEAST_MODERATE: u32 = 0x2180_0000;

/// The least magnitude above the moderate components: `2^60`.
pub const LEAST_IMMODERATE: u32 = 0x5d80_0000;

/// Whether a component is of moderate size: at least `2^-60` and less than
/// `2^60` in magnitude, so that neither its square nor a sum of three such
/// squares leaves the normal numbers.
pub open spec fn moderate(c: u32) -> bool {
    LEAST_MODERATE <= magnitude(c) < LEAST_IMMODERATE
}

/// Whether the vector has a Euclidean length within five thousandths of one:
/// the sum of the squares of its components lies between `0.995^2` and
/// `1.005^2`.
pub open spec fn unit_length(v: (u32, u32, u32)) -> bool {
    let n = unit_denominator();
    let a = units(magnitude(v.0) as int);
    let b = units(magnitude(v.1) as int);
    let c = units(magnitude(v.2) as int);
    let squares = a * a + b * b + c * c;
    990025 * (n * n) <= 1000000 * squares && 1000000 * squares <= 1010025 * (n * n)
}

/// The sum of two positive finite numbers lies between two magnitudes that
/// the exact sum lies between, and differs from the exact sum by at most one
/// part in `2^22` where it is large enough.
proof fn lemma_sum_between(a: u32, b: u32, low: int, high: int)
    requires
        finite(a),
        finite(b),
        !sign_negative(a),
        !sign_negative(b),
        0x40_0000 <= low <= INFINITY,
        0 <= high < INFINITY,
        units(low) <= units(a as int) + units(b as int) <= units(high),
    ensures
        low <= sum(a, b) <= high,
        4194303 * (units(a as int) + units(b as int)) <= 4194304 * units(sum(a, b) as int),
        4194304 * units(sum(a, b) as int) <= 4194305 * (units(a as int) + units(b as int)),
{
    let exact = units(a as int) + units(b as int);
    lemma_units_increasing(0, low);
    lemma_units_increasing(0, 1);
    crate::ieee::format::lemma_units_of_small(1);
    crate::ieee::format::lemma_units_of_small(0);
    lemma_units_increasing(1, low);
    assert(exact > 0);
    lemma_round_is_nearest(exact, 1);
    let r = round_nearest_even(exact, 1);
    assert(units(low) * 1 <= exact <= units(high) * 1);
    lemma_nearest_even_at_least(exact, 1, r, low);
    lemma_nearest_even_at_most(exact, 1, r, high);
    assert(signed_units(a) + signed_units(b) == exact);
    assert(sum(a, b) == finite_sum(a, b));
    lemma_rounding_error(exact, 1, r);
    assert(units(r) * 1 == units(r));
}

/// The squares of the components of the normalized vector add up to about
/// one: each rounding of the way changes the sum by at most one part in
/// `2^22`, and the factor `r` has `s * r * r` within two thousandths of one.
/// Here `cx`, `cy`, `cz` are the components, `px`, `py`, `pz` their rounded
/// squares, `s1` and `s` the rounded sums, `a`, `b`, `c` the rounded products
/// with `r`, and `n` is one, all in units.
proof fn lemma_length_chain(
    cx: int,
    cy: int,
    cz: int,
    px: int,
    py: int,
    pz: int,
    s1: int,
    s: int,
    r: int,
    a: int,
    b: int,
    c: int,
    n: int,
)
    requires
        n > 0,
        cx >= 0 && cy >= 0 && cz >= 0 && px >= 0 && py >= 0 && pz >= 0,
        s1 >= 0 && s >= 0 && r >= 0 && a >= 0 && b >= 0 && c >= 0,
        4194303 * (cx * cx) <= 4194304 * (px * n) <= 4194305 * (cx * cx),
        4194303 * (cy * cy) <= 4194304 * (py * n) <= 4194305 * (cy * cy),
        4194303 * (cz * cz) <= 4194304 * (pz * n) <= 4194305 * (cz * cz),
        4194303 * (px + py) <= 4194304 * s1 <= 4194305 * (px + py),
        4194303 * (s1 + pz) <= 4194304 * s <= 4194305 * (s1 + pz),
        249001 * (n * (n * n)) <= 250000 * (s * (r * r)),
        250000 * (s * (r * r)) <= 251001 * (n * (n * n)),
        4194303 * (cx * r) <= 4194304 * (a * n) <= 4194305 * (cx * r),
        4194303 * (cy * r) <= 4194304 * (b * n) <= 4194305 * (cy * r),
        4194303 * (cz * r) <= 4194304 * (c * n) <= 4194305 * (cz * r),
    ensures
        990025 * (n * n) <= 1000000 * (a * a + b * b + c * c),
        1000000 * (a * a + b * b + c * c) <= 1010025 * (n * n),
{
    let nn = n * n;
    let n3 = n * nn;
    let rr = r * r;
    let squares = a * a + b * b + c * c;
    let total = cx * cx + cy * cy + cz * cz;
    let rounded = px + py + pz;
    assert(nn > 0 && rr >= 0) by (nonlinear_arith)
        requires
            n > 0,
            nn == n * n,
            rr == r * r,
    ;
    // The squares of the three products against the squares of the exact ones.
    lemma_square_within(cx * r, a * n);
    lemma_square_within(cy * r, b * n);
    lemma_square_within(cz * r, c * n);
    assert((cx * r) * (cx * r) == (cx * cx) * rr && (cy * r) * (cy * r) == (cy * cy) * rr && (cz
        * r) * (cz * r) == (cz * cz) * rr && (a * n) * (a * n) == (a * a) * nn && (b * n) * (b
        * n) == (b * b) * nn && (c * n) * (c * n) == (c * c) * nn) by (nonlinear_arith)
        requires
            rr == r * r,
            nn == n * n,
    ;
    let sq_nn = squares * nn;
    let total_rr = total * rr;
    assert(sq_nn == (a * a) * nn + (b * b) * nn + (c * c) * nn && total_rr == (cx * cx) * rr + (cy
        * cy) * rr + (cz * cz) * rr) by (nonlinear_arith)
        requires
            sq_nn == (a * a + b * b + c * c) * nn,
            total_rr == (cx * cx + cy * cy + cz * cz) * rr,
    ;
    assert(17592177655809 * total_rr <= 17592186044416 * sq_nn <= 17592194433025 * total_rr);
    // The exact squares against the rounded ones, and these against their sum.
    assert(4194303 * total <= 4194304 * (rounded * n) <= 4194305 * total) by (nonlinear_arith)
        requires
            4194303 * (cx * cx) <= 4194304 * (px * n) <= 4194305 * (cx * cx),
            4194303 * (cy * cy) <= 4194304 * (py * n) <= 4194305 * (cy * cy),
            4194303 * (cz * cz) <= 4194304 * (pz * n) <= 4194305 * (cz * cz),
            total == cx * cx + cy * cy + cz * cz,
            rounded == px + py + pz,
    ;
    assert(17592177655809 * rounded <= 17592186044416 * s && 17592186044416 * s
        <= 17592194433025 * rounded);
    // All of it times r * r, with s * r * r close to one.
    let rounded_n_rr = (rounded * n) * rr;
    let s_rr = s * rr;
    assert(4194303 * total_rr <= 4194304 * rounded_n_rr <= 4194305 * total_rr)
        by (nonlinear_arith)
        requires
            4194303 * total <= 4194304 * (rounded * n) <= 4194305 * total,
            rr >= 0,
            total_rr == total * rr,
            rounded_n_rr == (rounded * n) * rr,
    ;
    let rounded_rr = rounded * rr;
    assert(rounded_n_rr == rounded_rr * n && 17592177655809 * rounded_rr <= 17592186044416
        * s_rr && 17592186044416 * s_rr <= 17592194433025 * rounded_rr) by (nonlinear_arith)
        requires
            17592177655809 * rounded <= 17592186044416 * s,
            17592186044416 * s <= 17592194433025 * rounded,
            rr >= 0,
            rounded_n_rr == (rounded * n) * rr,
            rounded_rr == rounded * rr,
            s_rr == s * rr,
    ;
    assert(rounded_rr >= 0) by (nonlinear_arith)
        requires
            rounded_rr == rounded * rr,
            rounded >= 0,
            rr >= 0,
    ;
    let r_n = rounded_rr * n;
    let s_n = s_rr * n;
    let n4 = nn * nn;
    assert(17592177655809 * r_n <= 17592186044416 * s_n && 17592186044416 * s_n
        <= 17592194433025 * r_n) by (nonlinear_arith)
        requires
            17592177655809 * rounded_rr <= 17592186044416 * s_rr,
            17592186044416 * s_rr <= 17592194433025 * rounded_rr,
            n > 0,
            r_n == rounded_rr * n,
            s_n == s_rr * n,
    ;
    assert(249001 * n4 <= 250000 * s_n && 250000 * s_n <= 251001 * n4) by (nonlinear_arith)
        requires
            249001 * (n * nn) <= 250000 * s_rr,
            250000 * s_rr <= 251001 * (n * nn),
            n > 0,
            s_n == s_rr * n,
            n4 == nn * nn,
            nn == n * n,
    ;
    assert((990025 * nn) * nn == 990025 * n4 && (1010025 * nn) * nn == 1010025 * n4 && (1000000
        * squares) * nn == 1000000 * sq_nn) by (nonlinear_arith)
        requires
            n4 == nn * nn,
            sq_nn == squares * nn,
    ;
    assert(n4 > 0) by (nonlinear_arith)
        requires
            n4 == nn * nn,
            nn > 0,
    ;
    lemma_cancel(990025 * nn, 1000000 * squares, nn);
    lemma_cancel(1000000 * squares, 1010025 * nn, nn);
}

/// The square of a rounded value lies within the squares of the bounds of
/// the value.
proof fn lemma_square_within(exact: int, rounded: int)
    requires
        exact >= 0,
        rounded >= 0,
        4194303 * exact <= 4194304 * rounded <= 4194305 * exact,
    ensures
        17592177655809 * (exact * exact) <= 17592186044416 * (rounded * rounded),
        17592186044416 * (rounded * rounded) <= 17592194433025 * (exact * exact),
{
    lemma_product_order(4194303 * exact, 4194304 * rounded, 4194303 * exact, 4194304 * rounded);
    lemma_product_order(4194304 * rounded, 4194305 * exact, 4194304 * rounded, 4194305 * exact);
    assert((4194303 * exact) * (4194303 * exact) == 17592177655809 * (exact * exact) && (4194304
        * rounded) * (4194304 * rounded) == 17592186044416 * (rounded * rounded) && (4194305
        * exact) * (4194305 * exact) == 17592194433025 * (exact * exact)) by (nonlinear_arith);
}

/// The bounds of the factor: with `s` between `2^30` and `2^271` units and
/// `s * r * r` within two thousandths of `n^3`, `r` lies between `2^87` and
/// `2^209` units.
proof fn lemma_factor_bounds(s: int, r: int, n3: int)
    requires
        pow2(30) <= s <= pow2(271),
        r >= 0,
        n3 == pow2(447),
        249001 * n3 <= 250000 * (s * (r * r)),
        250000 * (s * (r * r)) <= 251001 * n3,
    ensures
        pow2(87) <= r <= pow2(209),
{
    let rr = r * r;
    lemma_pow2_pos(30);
    lemma_pow2_pos(174);
    lemma_pow2_adds(87, 87);
    lemma_pow2_adds(209, 209);
    lemma_pow2_adds(271, 174);
    lemma_pow2_adds(30, 418);
    lemma_pow2_unfold(448);
    lemma_pow2_unfold(447);
    lemma_pow2_unfold(446);
    lemma_pow2_pos(445);
    assert(rr >= 0) by (nonlinear_arith)
        requires
            rr == r * r,
    ;
    if rr < pow2(174) {
        lemma_product_order(s, pow2(271) as int, rr, pow2(174) as int);
        assert(false);
    }
    if rr > pow2(418) {
        lemma_product_order(pow2(30) as int, s, pow2(418) as int, rr);
        assert(false);
    }
    lemma_root_order(pow2(87) as int, r);
    lemma_root_order(r, pow2(209) as int);
}

/// The square of a moderate component is a positive normal number between
/// `2^29` and `2^269` units, one part in `2^22` within the exact square.
proof fn lemma_square_of_moderate(c: u32)
    requires
        moderate(c),
    ensures
        pattern_of_pow2(29) <= product(c, c) <= pattern_of_pow2(269),
        pow2(29) <= units(product(c, c) as int) <= pow2(269),
        pow2(89) <= units(magnitude(c) as int) <= pow2(209),
        ({
            let exact = units(magnitude(c) as int) * units(magnitude(c) as int);
            let rounded = units(product(c, c) as int) * unit_denominator();
            4194303 * exact <= 4194304 * rounded && 4194304 * rounded <= 4194305 * exact
        }),
{
    let m = magnitude(c) as int;
    let u = units(m);
    lemma2_to64();
    lemma_pattern_of_pow2(89);
    lemma_pattern_of_pow2(209);
    lemma_pattern_of_pow2(29);
    lemma_pattern_of_pow2(269);
    assert(pattern_of_pow2(89) == LEAST_MODERATE && pattern_of_pow2(209) == LEAST_IMMODERATE);
    lemma_units_increasing(pattern_of_pow2(89), m);
    lemma_units_increasing(m, pattern_of_pow2(209));
    lemma_pow2_adds(89, 89);
    lemma_pow2_adds(209, 209);
    lemma_pow2_adds(29, 149);
    lemma_pow2_adds(269, 149);
    lemma_product_order(pow2(89) as int, u, pow2(89) as int, u);
    lemma_product_order(u, pow2(209) as int, u, pow2(209) as int);
    lemma_product_between(c, c, pattern_of_pow2(29), pattern_of_pow2(269));
    lemma_product_error(c, c);
    let square = product(c, c);
    assert(magnitude(square) == square);
    lemma_units_increasing(pattern_of_pow2(29), square as int);
    lemma_units_increasing(square as int, pattern_of_pow2(269));
}

/// A moderate component times a factor between `2^87` and `2^209` units is a
/// normal number, one part in `2^22` within the exact product.
proof fn lemma_scaled_component(c: u32, r: u32)
    requires
        moderate(c),
        positive_normal(r),
        pow2(87) <= units(r as int) <= pow2(209),
    ensures
        normal(product(c, r)),
        ({
            let exact = units(magnitude(c) as int) * units(r as int);
            let rounded = units(magnitude(product(c, r)) as int) * unit_denominator();
            4194303 * exact <= 4194304 * rounded && 4194304 * rounded <= 4194305 * exact
        }),
{
    let u = units(magnitude(c) as int);
    let ur = units(r as int);
    lemma2_to64();
    lemma_square_of_moderate(c);
    lemma_pattern_of_pow2(27);
    lemma_pattern_of_pow2(269);
    lemma_pow2_adds(89, 87);
    lemma_pow2_adds(209, 209);
    lemma_pow2_adds(27, 149);
    lemma_pow2_adds(269, 149);
    lemma_product_order(pow2(89) as int, u, pow2(87) as int, ur);
    lemma_product_order(u, pow2(209) as int, ur, pow2(209) as int);
    assert(magnitude(r) == r);
    lemma_product_between(c, r, pattern_of_pow2(27), pattern_of_pow2(269));
    lemma_product_error(c, r);
}

/// The vector of three moderate components, normalized, has normal
/// components and a length within five thousandths of one.
pub proof fn lemma_normalized_has_unit_length(x: u32, y: u32, z: u32)
    requires
        moderate(x),
        moderate(y),
        moderate(z),
    ensures
        normal(scaled_to_unit(x, y, z).0),
        normal(scaled_to_unit(x, y, z).1),
        normal(scaled_to_unit(x, y, z).2),
        unit_length(scaled_to_unit(x, y, z)),
{
    let n = unit_denominator();
    let sx = product(x, x);
    let sy = product(y, y);
    let sz = product(z, z);
    let s1 = sum(sx, sy);
    let s = sum(s1, sz);
    let r = reciprocal_norm(x, y, z);
    lemma2_to64();
    lemma_pow2_pos(149);
    lemma_pow2_adds(149, 149);
    lemma_pow2_adds(149, 298);
    lemma_square_of_moderate(x);
    lemma_square_of_moderate(y);
    lemma_square_of_moderate(z);
    // The sum of the squares.
    lemma_pattern_of_pow2(29);
    lemma_pattern_of_pow2(30);
    lemma_pattern_of_pow2(269);
    lemma_pattern_of_pow2(270);
    lemma_pattern_of_pow2(271);
    lemma_pow2_unfold(30);
    lemma_pow2_unfold(270);
    lemma_pow2_unfold(271);
    lemma_pow2_pos(269);
    lemma_sum_between(sx, sy, pattern_of_pow2(30), pattern_of_pow2(270));
    lemma_units_increasing(pattern_of_pow2(30), s1 as int);
    lemma_units_increasing(s1 as int, pattern_of_pow2(270));
    lemma_sum_between(s1, sz, pattern_of_pow2(30), pattern_of_pow2(271));
    lemma_units_increasing(pattern_of_pow2(30), s as int);
    lemma_units_increasing(s as int, pattern_of_pow2(271));
    // The factor.
    assert(positive_normal(s));
    lemma_approximation_accuracy(s, 1);
    lemma_units_increasing(0, r as int);
    lemma_factor_bounds(units(s as int), units(r as int), one_cubed());
    // The components.
    lemma_scaled_component(x, r);
    lemma_scaled_component(y, r);
    lemma_scaled_component(z, r);
    let v = scaled_to_unit(x, y, z);
    lemma_units_increasing(0, magnitude(v.0) as int);
    lemma_units_increasing(0, magnitude(v.1) as int);
    lemma_units_increasing(0, magnitude(v.2) as int);
    lemma_units_increasing(0, magnitude(x) as int);
    lemma_units_increasing(0, magnitude(y) as int);
    lemma_units_increasing(0, magnitude(z) as int);
    lemma_units_increasing(0, sx as int);
    lemma_units_increasing(0, sy as int);
    lemma_units_increasing(0, sz as int);
    lemma_units_increasing(0, s1 as int);
    lemma_units_increasing(0, s as int);
    assert(one_cubed() == n * (n * n));
    lemma_length_chain(
        units(magnitude(x) as int),
        units(magnitude(y) as int),
        units(magnitude(z) as int),
        units(sx as int),
        units(sy as int),
        units(sz as int),
        units(s1 as int),
        units(s as int),
        units(r as int),
        units(magnitude(v.0) as int),
        units(magnitude(v.1) as int),
        units(magnitude(v.2) as int),
        n,
    );
}

} // verus!
