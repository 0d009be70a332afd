//! The approximation against the inverse square root as the arithmetic gives
//! it by a square root and a division: for numbers from one quarter upwards
//! the two differ by less than five thousandths.
use crate::ieee::divide::{inverse, quotient, ONE};
use crate::ieee::format::{lemma_units_increasing, lemma_units_of_packed, packed, units};
use crate::ieee::root::{lemma_root_rounding_error, lemma_round_root_is_nearest, root};
use crate::ieee::round::{lemma_round_is_nearest, lemma_rounding_error, unit_denominator};
use crate::rsqrt::accuracy::{lemma_cancel, lemma_product_order, lemma_root_order, one_cubed};
use crate::rsqrt::step_accuracy::lemma_approximation_accuracy;
use crate::rsqrt::tolerance::ONE_QUARTER;
use crate::rsqrt::validity::{lemma_exact_rsqrt_is_valid, lemma_root_of_valid};
use crate::rsqrt::{approximation, positive_normal};
use vstd::arithmetic::power2::{lemma2_to64, lemma_pow2_adds, lemma_pow2_pos, lemma_pow2_unfold};
use vstd::prelude::*;

verus! {

/// Whether `y` lies within one millionth of the inverse square root of `x`
/// as far as `x * y * y` tells: it lies between 0.999999 and 1.000001.
pub open spec fn very_close_to_inverse_root(x: u32, y: u32) -> bool {
    let square = units(x as int) * (units(y as int) * units(y as int));
    999999 * one_cubed() <= 1000000 * square && 1000000 * square <= 1000001 * one_cubed()
}

/// Whether two positive finite numbers differ by less than 0.005.
pub open spec fn differ_by_less_than_five_thousandths(a: u32, b: u32) -> bool {
    let ua = units(a as int);
    let ub = units(b as int);
    200 * (ua - ub) < unit_denominator() && 200 * (ub - ua) < unit_denominator()
}

/// The rounded inverse `e` of the rounded root `s` of `x` has `x * e * e`
/// within one millionth of one. Here `n` is one, and all are in units.
proof fn lemma_exact_chain(x: int, s: int, e: int, n: int)
    requires
        n > 0,
        x > 0,
        s > 0,
        e >= 0,
        70368727400449 * (s * s) <= 70368744177664 * (x * n),
        70368744177664 * (x * n) <= 70368760954881 * (s * s),
        4194303 * (n * n) <= 4194304 * (e * s),
        4194304 * (e * s) <= 4194305 * (n * n),
    ensures
        999999 * (n * (n * n)) <= 1000000 * (x * (e * e)),
        1000000 * (x * (e * e)) <= 1000001 * (n * (n * n)),
{
    let nn = n * n;
    let n3 = n * nn;
    let ss = s * s;
    let xn = x * n;
    let es = e * s;
    let q = x * (e * e);
    assert(nn > 0 && xn > 0 && ss > 0 && es >= 0 && q >= 0) by (nonlinear_arith)
        requires
            n > 0,
            x > 0,
            s > 0,
            e >= 0,
            nn == n * n,
            xn == x * n,
            ss == s * s,
            es == e * s,
            q == x * (e * e),
    ;
    // The square of the rounded quotient, times x.
    lemma_product_order(4194303 * nn, 4194304 * es, 4194303 * nn, 4194304 * es);
    lemma_product_order(4194304 * es, 4194305 * nn, 4194304 * es, 4194305 * nn);
    let es2 = es * es;
    let n4 = nn * nn;
    assert((4194303 * nn) * (4194303 * nn) == 17592177655809 * n4 && (4194304 * es) * (4194304
        * es) == 17592186044416 * es2 && (4194305 * nn) * (4194305 * nn) == 17592194433025 * n4)
        by (nonlinear_arith)
        requires
            es2 == es * es,
            n4 == nn * nn,
    ;
    let qss = q * ss;
    let xn4 = x * n4;
    assert(17592177655809 * xn4 <= 17592186044416 * qss <= 17592194433025 * xn4)
        by (nonlinear_arith)
        requires
            17592177655809 * n4 <= 17592186044416 * es2 <= 17592194433025 * n4,
            x > 0,
            xn4 == x * n4,
            qss == (x * (e * e)) * (s * s),
            es2 == (e * s) * (e * s),
    ;
    // The square of the rounded root, times x * e * e.
    let qxn = q * xn;
    assert(70368727400449 * qss <= 70368744177664 * qxn <= 70368760954881 * qss)
        by (nonlinear_arith)
        requires
            70368727400449 * ss <= 70368744177664 * xn <= 70368760954881 * ss,
            q >= 0,
            qss == q * ss,
            qxn == q * xn,
    ;
    let n3xn = n3 * xn;
    assert(xn4 == n3xn) by (nonlinear_arith)
        requires
            xn4 == x * ((n * n) * (n * n)),
            n3xn == (n * (n * n)) * (x * n),
    ;
    assert((999999 * n3) * xn <= (1000000 * q) * xn && (1000000 * q) * xn <= (1000001 * n3) * xn)
        by (nonlinear_arith)
        requires
            17592177655809 * n3xn <= 17592186044416 * qss <= 17592194433025 * n3xn,
            70368727400449 * qss <= 70368744177664 * qxn <= 70368760954881 * qss,
            qxn == q * xn,
            n3xn == n3 * xn,
    ;
    lemma_cancel(999999 * n3, 1000000 * q, xn);
    lemma_cancel(1000000 * q, 1000001 * n3, xn);
}

/// Two estimates of an inverse square root that is at most two, one within
/// two thousandths and one within a millionth of it, differ by less than
/// five thousandths. Here `x`, `z`, `e` and `n` are the number, the
/// estimates and one, in units.
proof fn lemma_agreement_chain(x: int, z: int, e: int, n: int)
    requires
        n > 0,
        x > 0,
        z >= 0,
        e >= 0,
        4 * x >= n,
        249001 * (n * (n * n)) <= 250000 * (x * (z * z)),
        250000 * (x * (z * z)) <= 251001 * (n * (n * n)),
        999999 * (n * (n * n)) <= 1000000 * (x * (e * e)),
        1000000 * (x * (e * e)) <= 1000001 * (n * (n * n)),
    ensures
        200 * (z - e) < n,
        200 * (e - z) < n,
{
    let nn = n * n;
    let n3 = n * nn;
    let zz = z * z;
    let ee = e * e;
    let xzz = x * zz;
    let xee = x * ee;
    assert(nn > 0 && zz >= 0 && ee >= 0) by (nonlinear_arith)
        requires
            n > 0,
            nn == n * n,
            zz == z * z,
            ee == e * e,
    ;
    assert(n3 > 0) by (nonlinear_arith)
        requires
            n3 == n * nn,
            n > 0,
            nn > 0,
    ;
    // z * z against e * e: both times x are close to one.
    assert((999999 * zz) * x <= (1004006 * ee) * x && (996003 * ee) * x <= (1000000 * zz) * x)
        by (nonlinear_arith)
        requires
            249001 * n3 <= 250000 * xzz,
            250000 * xzz <= 251001 * n3,
            999999 * n3 <= 1000000 * xee,
            1000000 * xee <= 1000001 * n3,
            xzz == x * zz,
            xee == x * ee,
            n3 > 0,
    ;
    lemma_cancel(999999 * zz, 1004006 * ee, x);
    lemma_cancel(996003 * ee, 1000000 * zz, x);
    assert((1000000 * z) * (1000000 * z) == 1000000000000 * zz && (1002004 * e) * (1002004 * e)
        == 1004012016016 * ee && (997999 * e) * (997999 * e) == 996002004001 * ee)
        by (nonlinear_arith)
        requires
            zz == z * z,
            ee == e * e,
    ;
    lemma_root_order(1000000 * z, 1002004 * e);
    lemma_root_order(997999 * e, 1000000 * z);
    // e is at most a little over two.
    assert((1000000 * ee) * n <= (4000004 * nn) * n) by (nonlinear_arith)
        requires
            1000000 * xee <= 1000001 * n3,
            xee == x * ee,
            n3 == n * nn,
            4 * x >= n,
            ee >= 0,
    ;
    lemma_cancel(1000000 * ee, 4000004 * nn, n);
    assert((1000 * e) * (1000 * e) == 1000000 * ee && (2001 * n) * (2001 * n) == 4004001 * nn)
        by (nonlinear_arith)
        requires
            ee == e * e,
            nn == n * n,
    ;
    lemma_root_order(1000 * e, 2001 * n);
}

/// The inverse square root of a positive normal number, as the arithmetic
/// gives it by a square root and a division, lies within a millionth of the
/// inverse square root.
pub proof fn lemma_exact_rsqrt_accuracy(x: u32)
    requires
        positive_normal(x),
    ensures
        very_close_to_inverse_root(x, inverse(root(x))),
{
    let n = unit_denominator();
    let ux = units(x as int);
    let s = root(x);
    let e = inverse(s);
    lemma2_to64();
    lemma_pow2_pos(149);
    lemma_pow2_adds(149, 149);
    lemma_pow2_adds(149, 298);
    lemma_units_increasing(0, x as int);
    // The root.
    let square = ux * n;
    assert(square > 0) by (nonlinear_arith)
        requires
            square == ux * n,
            ux > 0,
            n > 0,
    ;
    lemma_root_of_valid(x);
    lemma_round_root_is_nearest(square);
    lemma_root_rounding_error(square, s as int);
    let us = units(s as int);
    lemma_units_increasing(0, s as int);
    // The inverse of the root.
    lemma_units_of_packed(126, 0x80_0000);
    assert(packed(126, 0x80_0000) == ONE);
    lemma_pow2_adds(23, 126);
    let num = units(ONE as int) * n;
    lemma_exact_rsqrt_is_valid(x);
    assert(e == quotient(ONE, s));
    lemma_round_is_nearest(num, us);
    lemma_rounding_error(num, us, e as int);
    let ue = units(e as int);
    lemma_units_increasing(0, e as int);
    assert(ue * us == units(e as int) * us);
    lemma_exact_chain(ux, us, ue, n);
}

/// The approximation of the inverse square root of a positive normal number
/// from one quarter upwards differs by less than five thousandths from the
/// inverse square root that the arithmetic gives by a square root and a
/// division, whatever the number of iterations.
pub proof fn lemma_agreement(x: u32, iterations: nat)
    requires
        positive_normal(x),
        x >= ONE_QUARTER,
    ensures
        differ_by_less_than_five_thousandths(approximation(x, iterations), inverse(root(x))),
{
    let n = unit_denominator();
    let y = approximation(x, iterations);
    let e = inverse(root(x));
    lemma_approximation_accuracy(x, iterations);
    lemma_exact_rsqrt_accuracy(x);
    lemma_exact_rsqrt_is_valid(x);
    lemma2_to64();
    lemma_pow2_pos(149);
    lemma_pow2_adds(149, 149);
    lemma_pow2_adds(149, 298);
    lemma_units_of_packed(124, 0x80_0000);
    assert(packed(124, 0x80_0000) == ONE_QUARTER);
    lemma_pow2_adds(23, 124);
    lemma_pow2_unfold(149);
    lemma_pow2_unfold(148);
    lemma_units_increasing(ONE_QUARTER as int, x as int);
    lemma_units_increasing(0, y as int);
    lemma_units_increasing(0, e as int);
    lemma_agreement_chain(units(x as int), units(y as int), units(e as int), n);
}

} // verus!
