//! The approximation against a fixed tolerance: for numbers from one quarter
//! upwards, whose inverse square roots are at most two, it differs from the
//! inverse square root by less than five thousandths. For smaller numbers two
//! thousandths of the inverse square root may be more than that.
use crate::ieee::format::{lemma_units_increasing, lemma_units_of_packed, packed, units};
use crate::ieee::round::unit_denominator;
use crate::rsqrt::accuracy::{lemma_cancel, lemma_product_order, lemma_root_order, one_cubed};
use crate::rsqrt::step_accuracy::lemma_approximation_accuracy;
use crate::rsqrt::{approximation, positive_normal};
use vstd::arithmetic::power2::{lemma2_to64, lemma_pow2_adds, lemma_pow2_pos, lemma_pow2_unfold};
use vstd::prelude::*;

verus! {

/// The pattern of one quarter.
pub const ONE_QUARTER: u32 = 0x3e80_0000;

/// Whether the estimate `y` differs from the inverse square root `r` of
/// `x` by less than 0.005, that is `y - 0.005 < r < y + 0.005`. Since
/// `x * r * r` is one, `r` lies below a positive bound exactly when `x` times
/// the square of the bound exceeds one; a bound that is not positive lies
/// below `r` anyway.
pub open spec fn within_five_thousandths(x: u32, y: u32) -> bool {
    let n = unit_denominator();
    let ux = units(x as int);
    let uy = units(y as int);
    &&& 200 * uy > n ==> ux * ((200 * uy - n) * (200 * uy - n)) < 40000 * one_cubed()
    &&& ux * ((200 * uy + n) * (200 * uy + n)) > 40000 * one_cubed()
}

/// An estimate within two thousandths of an inverse square root that is at
/// most two is within five thousandths of it in absolute terms. Here `x`,
/// `z` and `n` are the number, the estimate and one, in units.
proof fn lemma_close_is_within(x: int, z: int, n: int)
    requires
        n > 0,
        x >= 0,
        z >= 0,
        4 * x >= n,
        249001 * (n * (n * n)) <= 250000 * (x * (z * z)),
        250000 * (x * (z * z)) <= 251001 * (n * (n * n)),
    ensures
        200 * z > n ==> x * ((200 * z - n) * (200 * z - n)) < 40000 * (n * (n * n)),
        x * ((200 * z + n) * (200 * z + n)) > 40000 * (n * (n * n)),
{
    let nn = n * n;
    let n3 = n * nn;
    let zz = z * z;
    let u = x * zz;
    let v = x * (z * n);
    let t = x * nn;
    assert(nn > 0 && n3 > 0 && zz >= 0) by (nonlinear_arith)
        requires
            n > 0,
            nn == n * n,
            n3 == n * nn,
            zz == z * z,
    ;
    assert(v >= 0 && t >= 0 && 4 * t >= n3) by (nonlinear_arith)
        requires
            v == x * (z * n),
            t == x * nn,
            n3 == n * nn,
            nn > 0,
            x >= 0,
            z >= 0,
            n > 0,
            4 * x >= n,
    ;
    assert(x * ((200 * z + n) * (200 * z + n)) == 40000 * u + 400 * v + t && x * ((200 * z - n)
        * (200 * z - n)) == 40000 * u - 400 * v + t) by (nonlinear_arith)
        requires
            u == x * (z * z),
            v == x * (z * n),
            t == x * (n * n),
    ;
    assert(v * v == u * t) by (nonlinear_arith)
        requires
            u == x * (z * z),
            v == x * (z * n),
            t == x * (n * n),
    ;
    // The middle term is at least 0.499 n^3.
    lemma_product_order(249001 * n3, 250000 * u, n3, 4 * t);
    assert((250000 * u) * (4 * t) == 1000000 * (u * t) && (249001 * n3) * n3 == (499 * n3) * (499
        * n3) && (1000 * v) * (1000 * v) == 1000000 * (v * v)) by (nonlinear_arith);
    lemma_root_order(499 * n3, 1000 * v);
    if 200 * z > n {
        // The number is less than 40161, so the middle term is at most 200.81 n^3.
        lemma_product_order(n, 200 * z, n, 200 * z);
        assert(t <= 40000 * u) by (nonlinear_arith)
            requires
                n * n <= (200 * z) * (200 * z),
                t == x * (n * n),
                u == x * (z * z),
                x >= 0,
        ;
        assert(u >= 0 && 250000 * u <= 251001 * n3);
        lemma_product_order(250000 * u, 251001 * n3, 250000 * t, 10040040000 * n3);
        let vv = v * v;
        let n6 = n3 * n3;
        assert((250000 * u) * (250000 * t) == 62500000000 * vv && (251001 * n3) * (10040040000
            * n3) == 2520060080040000 * n6 && (100 * v) * (100 * v) == 10000 * vv && (20081
            * n3) * (20081 * n3) == 403246561 * n6) by (nonlinear_arith)
            requires
                vv == u * t,
                vv == v * v,
                n6 == n3 * n3,
        ;
        assert(n6 >= 0) by (nonlinear_arith)
            requires
                n6 == n3 * n3,
        ;
        assert((100 * v) * (100 * v) <= (20081 * n3) * (20081 * n3));
        lemma_root_order(100 * v, 20081 * n3);
        // The square of the middle term against the chord between its bounds.
        let low = 1000 * v - 499 * n3;
        let high = 20081 * n3 - 100 * v;
        lemma_product_order(0, low, 0, high);
        assert(low * high == 20081000 * (v * n3) - 100000 * (v * v) - 10020419 * (n3 * n3) + 49900
            * (v * n3)) by (nonlinear_arith)
            requires
                low == 1000 * v - 499 * n3,
                high == 20081 * n3 - 100 * v,
        ;
        // From below, the square is the number times the outer term.
        assert(249001 * (n3 * t) <= 250000 * (v * v)) by (nonlinear_arith)
            requires
                249001 * n3 <= 250000 * u,
                t >= 0,
                v * v == u * t,
        ;
        assert((24900100 * t) * n3 <= (5032725000 * v - 2505104750 * n3) * n3)
            by (nonlinear_arith)
            requires
                249001 * (n3 * t) <= 250000 * (v * v),
                100000 * (v * v) <= 20130900 * (v * n3) - 10020419 * (n3 * n3),
        ;
        lemma_cancel(24900100 * t, 5032725000 * v - 2505104750 * n3, n3);
    }
}

/// The approximation of the inverse square root of a positive normal number
/// from one quarter upwards differs from the inverse square root by less than
/// five thousandths, whatever the number of iterations.
pub proof fn lemma_approximation_tolerance(x: u32, iterations: nat)
    requires
        positive_normal(x),
        x >= ONE_QUARTER,
    ensures
        within_five_thousandths(x, approximation(x, iterations)),
{
    let n = unit_denominator();
    let y = approximation(x, iterations);
    lemma_approximation_accuracy(x, iterations);
    lemma2_to64();
    lemma_pow2_pos(149);
    lemma_pow2_adds(149, 149);
    lemma_pow2_adds(149, 298);
    lemma_units_of_packed(124, 0x80_0000);
    assert(packed(124, 0x80_0000) == ONE_QUARTER);
    lemma_pow2_adds(23, 124);
    lemma_pow2_unfold(149);
    lemma_pow2_unfold(148);
    lemma_units_increasing(ONE_QUARTER as int, x as int);
    lemma_units_increasing(0, y as int);
    lemma_close_is_within(units(x as int), units(y as int), n);
}

} // verus!
