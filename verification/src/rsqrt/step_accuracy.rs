//! How close a step of Newton's method brings a guess: the roundings of the
//! five operations of the step are followed one by one. A guess within
//! reach, as the first guess always is, becomes an estimate within two
//! thousandths of the inverse square root, and stays one under every further
//! step.
use crate::ieee::arith::product;
use crate::ieee::format::{lemma_units_increasing, lemma_units_of_packed, packed, units};
use crate::ieee::round::unit_denominator;
use crate::rsqrt::accuracy::{
    lemma_cancel, lemma_product_order, lemma_seed_accuracy, lemma_step_polynomial, one_cubed,
};
use crate::rsqrt::step_ranges::{
    in_reach, lemma_difference_error, lemma_product_error, lemma_step_ranges, step_factor,
    step_first_product, step_half, step_second_product,
};
use crate::rsqrt::{
    approximation, effective_iterations, positive_normal, refined, refined_times, seed, ONE_HALF,
    THREE_HALFS,
};
use vstd::arithmetic::power2::{
    lemma2_to64, lemma_pow2_adds, lemma_pow2_pos, lemma_pow2_unfold, pow2,
};
use vstd::prelude::*;

verus! {

/// The roundings of the three products that lead to `t2` change
/// `x * y * y / 2` by at most three parts in `2^22`: with `w = 2 * t2`,
/// `w * n * n` is `x * y * y` up to that.
proof fn lemma_chain_to_square(x: int, y: int, h: int, t1: int, t2: int, n: int)
    requires
        n > 0,
        x >= 0,
        y >= 0,
        h >= 0,
        t1 >= 0,
        t2 >= 0,
        4194303 * x <= 8388608 * h <= 4194305 * x,
        4194303 * (h * y) <= 4194304 * (t1 * n) <= 4194305 * (h * y),
        4194303 * (t1 * y) <= 4194304 * (t2 * n) <= 4194305 * (t1 * y),
    ensures
        73786923518292656127 * (x * (y * y)) <= 73786976294838206464 * ((2 * t2) * (n * n)),
        73786976294838206464 * ((2 * t2) * (n * n)) <= 73787029071408922625 * (x * (y * y)),
{
    let yy = y * y;
    let nn = n * n;
    let a0 = x * yy;
    let a1 = h * yy;
    let a2 = t1 * (y * n);
    let a3 = t2 * nn;
    assert(yy >= 0 && nn >= 0) by (nonlinear_arith)
        requires
            yy == y * y,
            nn == n * n,
    ;
    // x against h, times y * y.
    assert(4194303 * a0 <= 8388608 * a1 <= 4194305 * a0) by (nonlinear_arith)
        requires
            4194303 * x <= 8388608 * h <= 4194305 * x,
            yy >= 0,
            a0 == x * yy,
            a1 == h * yy,
    ;
    // h * y against t1 * n, times y.
    let hy = h * y;
    let t1n = t1 * n;
    assert(4194303 * (hy * y) <= 4194304 * (t1n * y) <= 4194305 * (hy * y)) by (nonlinear_arith)
        requires
            4194303 * hy <= 4194304 * t1n <= 4194305 * hy,
            y >= 0,
    ;
    assert(hy * y == a1 && t1n * y == a2) by (nonlinear_arith)
        requires
            hy == h * y,
            t1n == t1 * n,
            a1 == h * (y * y),
            a2 == t1 * (y * n),
    ;
    // t1 * y against t2 * n, times n.
    let t1y = t1 * y;
    let t2n = t2 * n;
    assert(4194303 * (t1y * n) <= 4194304 * (t2n * n) <= 4194305 * (t1y * n)) by (nonlinear_arith)
        requires
            4194303 * t1y <= 4194304 * t2n <= 4194305 * t1y,
            n >= 0,
    ;
    assert(t1y * n == a2 && t2n * n == a3) by (nonlinear_arith)
        requires
            t1y == t1 * y,
            t2n == t2 * n,
            a2 == t1 * (y * n),
            a3 == t2 * (n * n),
    ;
    assert((2 * t2) * nn == 2 * a3) by (nonlinear_arith)
        requires
            a3 == t2 * nn,
    ;
}

/// What the last two operations of the step, the subtraction from one and a
/// half and the product with the guess, make of the bounds: the estimate `z`
/// has `x * z * z` within a quarter of a percent of one.
proof fn lemma_chain_from_square(x: int, y: int, t2: int, d: int, z: int, n: int)
    requires
        n > 0,
        x >= 0,
        y >= 0,
        t2 >= 0,
        d >= 0,
        z >= 0,
        9319 * n <= 10000 * (2 * t2),
        10000 * (2 * t2) <= 10696 * n,
        73786923518292656127 * (x * (y * y)) <= 73786976294838206464 * ((2 * t2) * (n * n)),
        73786976294838206464 * ((2 * t2) * (n * n)) <= 73787029071408922625 * (x * (y * y)),
        4194303 * (3 * n - 2 * t2) <= 8388608 * d <= 4194305 * (3 * n - 2 * t2),
        4194303 * (y * d) <= 4194304 * (z * n) <= 4194305 * (y * d),
    ensures
        249001 * (n * (n * n)) <= 250000 * (x * (z * z)),
        250000 * (x * (z * z)) <= 251001 * (n * (n * n)),
{
    let w = 2 * t2;
    let g = 3 * n - w;
    let nn = n * n;
    let n3 = n * nn;
    let a = x * (y * y);
    let gg = g * g;
    let dd = d * d;
    let poly = w * gg;
    let target = x * (z * z);
    lemma_step_polynomial(w, n);
    assert(nn > 0 && gg >= 0 && dd >= 0) by (nonlinear_arith)
        requires
            n > 0,
            nn == n * n,
            gg == g * g,
            dd == d * d,
    ;
    assert(a >= 0) by (nonlinear_arith)
        requires
            a == x * (y * y),
            x >= 0,
    ;
    assert(g >= 0);
    // The squares of the last two roundings.
    let yd = y * d;
    let zn = z * n;
    assert(yd >= 0 && zn >= 0) by (nonlinear_arith)
        requires
            yd == y * d,
            zn == z * n,
            y >= 0,
            d >= 0,
            z >= 0,
            n > 0,
    ;
    lemma_product_order(4194303 * yd, 4194304 * zn, 4194303 * yd, 4194304 * zn);
    lemma_product_order(4194304 * zn, 4194305 * yd, 4194304 * zn, 4194305 * yd);
    lemma_product_order(4194303 * g, 8388608 * d, 4194303 * g, 8388608 * d);
    lemma_product_order(8388608 * d, 4194305 * g, 8388608 * d, 4194305 * g);
    let sq_yd = yd * yd;
    let sq_zn = zn * zn;
    assert((4194303 * yd) * (4194303 * yd) == 17592177655809 * sq_yd && (4194304 * zn) * (4194304
        * zn) == 17592186044416 * sq_zn && (4194305 * yd) * (4194305 * yd) == 17592194433025
        * sq_yd) by (nonlinear_arith)
        requires
            sq_yd == yd * yd,
            sq_zn == zn * zn,
    ;
    assert((4194303 * g) * (4194303 * g) == 17592177655809 * gg && (8388608 * d) * (8388608 * d)
        == 70368744177664 * dd && (4194305 * g) * (4194305 * g) == 17592194433025 * gg)
        by (nonlinear_arith)
        requires
            gg == g * g,
            dd == d * d,
    ;
    // Times x: x * (z n)^2 against x * (y d)^2 = a * d^2.
    let xz = x * sq_zn;
    let xy = x * sq_yd;
    assert(17592177655809 * xy <= 17592186044416 * xz <= 17592194433025 * xy)
        by (nonlinear_arith)
        requires
            17592177655809 * sq_yd <= 17592186044416 * sq_zn <= 17592194433025 * sq_yd,
            x >= 0,
            xz == x * sq_zn,
            xy == x * sq_yd,
    ;
    let add = a * dd;
    let agg = a * gg;
    assert(xy == add) by (nonlinear_arith)
        requires
            xy == x * ((y * d) * (y * d)),
            add == (x * (y * y)) * (d * d),
    ;
    assert(17592177655809 * agg <= 70368744177664 * add <= 17592194433025 * agg)
        by (nonlinear_arith)
        requires
            17592177655809 * gg <= 70368744177664 * dd <= 17592194433025 * gg,
            a >= 0,
            add == a * dd,
            agg == a * gg,
    ;
    // a against w * n^2, times g^2.
    let wnn = w * nn;
    let wnng = wnn * gg;
    assert(73786923518292656127 * agg <= 73786976294838206464 * wnng
        <= 73787029071408922625 * agg) by (nonlinear_arith)
        requires
            73786923518292656127 * a <= 73786976294838206464 * wnn <= 73787029071408922625 * a,
            gg >= 0,
            agg == a * gg,
            wnng == wnn * gg,
    ;
    let pnn = poly * nn;
    assert(wnng == pnn) by (nonlinear_arith)
        requires
            wnng == (w * nn) * gg,
            pnn == (w * gg) * nn,
    ;
    // The polynomial of the step, times n^2.
    let n5 = n3 * nn;
    assert(39850 * n5 <= 10000 * pnn && pnn <= 4 * n5) by (nonlinear_arith)
        requires
            39850 * n3 <= 10000 * poly,
            poly <= 4 * n3,
            nn > 0,
            pnn == poly * nn,
            n5 == n3 * nn,
    ;
    let tnn = target * nn;
    assert(xz == tnn) by (nonlinear_arith)
        requires
            xz == x * ((z * n) * (z * n)),
            tnn == (x * (z * z)) * (n * n),
    ;
    // All together, with the common factor n^2 still on both sides.
    assert((249001 * n3) * nn <= (250000 * target) * nn && (250000 * target) * nn <= (251001
        * n3) * nn) by (nonlinear_arith)
        requires
            17592177655809 * xy <= 17592186044416 * xz <= 17592194433025 * xy,
            17592177655809 * agg <= 70368744177664 * xy <= 17592194433025 * agg,
            73786923518292656127 * agg <= 73786976294838206464 * pnn <= 73787029071408922625
                * agg,
            39850 * n5 <= 10000 * pnn,
            pnn <= 4 * n5,
            xz == target * nn,
            n5 == n3 * nn,
    ;
    lemma_cancel(249001 * n3, 250000 * target, nn);
    lemma_cancel(250000 * target, 251001 * n3, nn);
}

/// Whether the estimate `y` lies within two thousandths of the inverse
/// square root of `x`: with `r` the inverse square root, `x * r * r` is one,
/// and `x * y * y` lies between `0.998^2` and `1.002^2`.
pub open spec fn close_to_inverse_root(x: u32, y: u32) -> bool {
    let square = units(x as int) * (units(y as int) * units(y as int));
    249001 * one_cubed() <= 250000 * square && 250000 * square <= 251001 * one_cubed()
}

/// An estimate within two thousandths is within the reach of another step.
pub proof fn lemma_close_is_in_reach(x: u32, y: u32)
    requires
        close_to_inverse_root(x, y),
    ensures
        in_reach(x, y),
{
    lemma_pow2_pos(447);
}

/// One step of Newton's method on a positive normal guess within reach ends
/// in a positive normal number within two thousandths of the inverse square
/// root.
pub proof fn lemma_step_accuracy(x: u32, y: u32)
    requires
        positive_normal(x),
        positive_normal(y),
        in_reach(x, y),
    ensures
        positive_normal(refined(product(x, ONE_HALF), y)),
        close_to_inverse_root(x, refined(product(x, ONE_HALF), y)),
{
    let n = unit_denominator();
    let half = step_half(x);
    let first = step_first_product(x, y);
    let second = step_second_product(x, y);
    let factor = step_factor(x, y);
    let result = refined(half, y);
    lemma_step_ranges(x, y);
    let ux = units(x as int);
    let uy = units(y as int);
    let uh = units(half as int);
    let u1 = units(first as int);
    let u2 = units(second as int);
    let ud = units(factor as int);
    let uz = units(result as int);
    lemma2_to64();
    lemma_pow2_pos(149);
    lemma_pow2_pos(148);
    lemma_pow2_unfold(149);
    lemma_pow2_adds(149, 149);
    lemma_pow2_adds(149, 298);
    assert(one_cubed() == n * (n * n));
    lemma_units_increasing(0, x as int);
    lemma_units_increasing(0, y as int);
    lemma_units_increasing(0, half as int);
    lemma_units_increasing(0, first as int);
    lemma_units_increasing(0, second as int);
    lemma_units_increasing(0, factor as int);
    lemma_units_increasing(0, result as int);
    // The five roundings.
    lemma_product_error(x, ONE_HALF);
    lemma_product_error(half, y);
    lemma_product_error(first, y);
    lemma_difference_error(second);
    lemma_product_error(y, factor);
    // Half of x: the exact product is x times 2^148, and a unit is 2^149.
    lemma_units_of_packed(125, 0x80_0000);
    assert(packed(125, 0x80_0000) == ONE_HALF);
    lemma_pow2_adds(23, 125);
    let p148 = pow2(148) as int;
    assert((4194303 * ux) * p148 <= (8388608 * uh) * p148 && (8388608 * uh) * p148 <= (4194305
        * ux) * p148) by (nonlinear_arith)
        requires
            4194303 * (ux * p148) <= 4194304 * (uh * n),
            4194304 * (uh * n) <= 4194305 * (ux * p148),
            n == 2 * p148,
    ;
    lemma_cancel(4194303 * ux, 8388608 * uh, p148);
    lemma_cancel(8388608 * uh, 4194305 * ux, p148);
    lemma_chain_to_square(ux, uy, uh, u1, u2, n);
    // Twice the second product lies within the range of the polynomial.
    let w = 2 * u2;
    let nn = n * n;
    let a = ux * (uy * uy);
    assert(nn > 0) by (nonlinear_arith)
        requires
            nn == n * n,
            n > 0,
    ;
    assert((9319 * n) * nn <= (10000 * w) * nn && (10000 * w) * nn <= (10696 * n) * nn)
        by (nonlinear_arith)
        requires
            73786923518292656127 * a <= 73786976294838206464 * (w * nn),
            73786976294838206464 * (w * nn) <= 73787029071408922625 * a,
            932 * (n * nn) <= 1000 * a,
            10000 * a <= 10695 * (n * nn),
    ;
    lemma_cancel(9319 * n, 10000 * w, nn);
    lemma_cancel(10000 * w, 10696 * n, nn);
    // One and a half is three halves of a unit.
    lemma_units_of_packed(126, 0xc0_0000);
    assert(packed(126, 0xc0_0000) == THREE_HALFS);
    lemma_pow2_adds(22, 126);
    assert(2 * units(THREE_HALFS as int) == 3 * n) by (nonlinear_arith)
        requires
            units(THREE_HALFS as int) == 0xc0_0000 * pow2(126),
            pow2(22) * pow2(126) == p148,
            pow2(22) == 0x40_0000,
            n == 2 * p148,
    ;
    lemma_chain_from_square(ux, uy, u2, ud, uz, n);
}

/// Any number of steps of Newton's method, but at least one, on the first
/// guess for a positive normal number end in a positive normal number within
/// two thousandths of the inverse square root.
pub proof fn lemma_refined_times_accuracy(x: u32, steps: nat)
    requires
        positive_normal(x),
        steps >= 1,
    ensures
        positive_normal(refined_times(product(x, ONE_HALF), seed(x), steps)),
        close_to_inverse_root(x, refined_times(product(x, ONE_HALF), seed(x), steps)),
    decreases steps,
{
    let half = product(x, ONE_HALF);
    if steps == 1 {
        reveal_with_fuel(refined_times, 2);
        lemma_seed_accuracy(x);
        lemma_step_accuracy(x, seed(x));
    } else {
        let before = refined_times(half, seed(x), (steps - 1) as nat);
        lemma_refined_times_accuracy(x, (steps - 1) as nat);
        lemma_close_is_in_reach(x, before);
        lemma_step_accuracy(x, before);
    }
}

/// The approximation of the inverse square root of a positive normal number
/// is, whatever the number of iterations, a positive normal number within two
/// thousandths of the inverse square root.
pub proof fn lemma_approximation_accuracy(x: u32, iterations: nat)
    requires
        positive_normal(x),
    ensures
        positive_normal(approximation(x, iterations)),
        close_to_inverse_root(x, approximation(x, iterations)),
{
    lemma_refined_times_accuracy(x, effective_iterations(iterations));
}

} // verus!
