//! Rounding a value that is known only as a truncation and a flag: the flag
//! says whether anything was cut off, and an odd last bit stands in for it.
use crate::ieee::format::{
    lemma_units_increasing, lemma_units_of_packed, lemma_units_step, packed, scale, significand,
    units, HIDDEN_BIT, INFINITY,
};
use crate::ieee::round::{
    is_bit_length, lemma_nearest_even_at_least, lemma_nearest_even_unique, lemma_round_overflow,
    lemma_scaled_order, nearest_even, rounding_scale, unit_denominator,
};
use vstd::arithmetic::power2::{
    lemma2_to64, lemma_pow2_adds, lemma_pow2_pos, lemma_pow2_strictly_increases, lemma_pow2_unfold,
    pow2,
};
use vstd::prelude::*;

verus! {

/// The bit that stands for what a truncation has cut off.
pub open spec fn sticky(inexact: bool) -> int {
    if inexact {
        1
    } else {
        0
    }
}

/// A value between `n` and `n + 1` steps of width `w` compares with a whole
/// number of steps `k` as `2n`, made odd if the value is not `n` itself,
/// compares with `2k`.
proof fn lemma_cut(k: int, n: int, s: int, w: int, v: int)
    requires
        w > 0,
        n * w <= v < (n + 1) * w,
        s == 0 || s == 1,
        (s == 0) == (n * w == v),
    ensures
        (2 * k <= 2 * n + s) == (k * w <= v),
        (2 * k == 2 * n + s) == (k * w == v),
        (2 * n + s <= 2 * k) == (v <= k * w),
{
    if k <= n {
        assert(k * w <= n * w) by (nonlinear_arith)
            requires
                k <= n,
                w > 0,
        ;
        if k < n {
            assert(k * w < n * w) by (nonlinear_arith)
                requires
                    k < n,
                    w > 0,
            ;
        }
    } else {
        assert((n + 1) * w <= k * w) by (nonlinear_arith)
            requires
                n + 1 <= k,
                w > 0,
        ;
    }
}

/// Twice the midpoint above a magnitude is a whole number of steps of any
/// width that is at most half the magnitude's last place.
proof fn lemma_midpoint_on_grid(mag: int, t: nat) -> (k: int)
    requires
        0 <= mag < INFINITY,
        t >= 1,
        scale(mag) + 148 >= t,
    ensures
        (units(mag) + units(mag + 1)) * unit_denominator() == (2 * pow2(t)) * k,
{
    let sc = scale(mag);
    let sig = significand(mag);
    let ps = pow2(sc) as int;
    let den = unit_denominator();
    let extra = (sc + 148 - t) as nat;
    lemma_units_step(mag);
    lemma_pow2_adds(sc, 149);
    lemma_pow2_adds(t + 1, extra);
    lemma_pow2_unfold(t + 1);
    let k = (2 * sig + 1) * pow2(extra);
    assert((sig * ps + (sig * ps + ps)) * den == (2 * sig + 1) * (ps * den)) by (nonlinear_arith);
    assert((2 * sig + 1) * ((2 * pow2(t)) * pow2(extra)) == (2 * pow2(t)) * ((2 * sig + 1) * pow2(
        extra,
    ))) by (nonlinear_arith);
    k
}

/// What the rounding of a truncation with a sticky bit says of the midpoints
/// around the result: each is a whole number of steps, the lower one at most
/// the truncation and the upper one at least, with equality only where the
/// result is even. The truncation `n` has at least 26 bits, so that half a
/// last place of the result is a whole number of the steps of `2^t`, and the
/// result is finite or the rounding of a finite value to infinity.
pub proof fn lemma_sticky_midpoints(n: int, t: nat, len: int, inexact: bool, mag: int) -> (k: (
    int,
    int,
))
    requires
        is_bit_length(n, len),
        len >= 26,
        t >= 1,
        rounding_scale(len + t) <= 253,
        nearest_even((2 * n + sticky(inexact)) * pow2((t - 1) as nat), unit_denominator(), mag),
    ensures
        mag > 0 ==> {
            &&& (units(mag - 1) + units(mag)) * unit_denominator() == (2 * pow2(t)) * k.0
            &&& 2 * k.0 <= 2 * n + sticky(inexact)
            &&& 2 * k.0 == 2 * n + sticky(inexact) ==> mag % 2 == 0
            &&& k.0 >= 0
        },
        mag < INFINITY ==> {
            &&& (units(mag) + units(mag + 1)) * unit_denominator() == (2 * pow2(t)) * k.1
            &&& 2 * n + sticky(inexact) <= 2 * k.1
            &&& 2 * k.1 == 2 * n + sticky(inexact) ==> mag % 2 == 0
            &&& k.1 >= 0
        },
{
    let d = unit_denominator();
    let p = pow2(t) as int;
    let ph = pow2((t - 1) as nat) as int;
    let s = sticky(inexact);
    let np = 2 * n + s;
    let q = rounding_scale(len + t);
    lemma2_to64();
    lemma_pow2_pos(149);
    lemma_pow2_pos(t);
    lemma_pow2_pos((t - 1) as nat);
    lemma_pow2_unfold(t);
    lemma_pow2_unfold(len as nat);
    lemma_pow2_unfold((len + 1) as nat);
    assert(n > 0) by {
        lemma_pow2_pos((len - 1) as nat);
    }
    lemma_pow2_adds((len - 1) as nat, t);
    assert(pow2((len - 1) as nat) * p <= n * p) by (nonlinear_arith)
        requires
            pow2((len - 1) as nat) <= n,
            p > 0,
    ;
    assert(np * ph >= n * p) by (nonlinear_arith)
        requires
            np >= 2 * n,
            p == 2 * ph,
            ph > 0,
    ;
    assert(2 * (np * ph) == np * p) by (nonlinear_arith)
        requires
            p == 2 * ph,
    ;
    // The result does not fall below the binade of the truncation.
    if q >= 1 {
        let low = packed(q, HIDDEN_BIT as int);
        lemma_units_of_packed(q, HIDDEN_BIT as int);
        lemma_pow2_adds(23, q as nat);
        lemma_pow2_adds((23 + q) as nat, 149);
        assert(units(low) * d <= np * ph);
        lemma_nearest_even_at_least(np * ph, d, mag, low);
    }
    let mut k0: int = 0;
    let mut k1: int = 0;
    if mag > 0 {
        let a = mag - 1;
        k0 = lemma_midpoint_on_grid(a, t);
        assert((2 * p) * k0 == (2 * k0) * p) by (nonlinear_arith);
        lemma_scaled_order(2 * k0, np, p);
        lemma_units_increasing(0, a);
        lemma_units_increasing(0, a + 1);
        assert(k0 >= 0) by (nonlinear_arith)
            requires
                (units(a) + units(a + 1)) * d == (2 * p) * k0,
                units(a) + units(a + 1) >= 0,
                d > 0,
                p > 0,
        ;
    }
    if mag < INFINITY {
        let a = mag;
        k1 = lemma_midpoint_on_grid(a, t);
        assert((2 * p) * k1 == (2 * k1) * p) by (nonlinear_arith);
        lemma_scaled_order(np, 2 * k1, p);
        lemma_scaled_order(2 * k1, np, p);
        lemma_units_increasing(0, a);
        lemma_units_increasing(0, a + 1);
        assert(k1 >= 0) by (nonlinear_arith)
            requires
                (units(a) + units(a + 1)) * d == (2 * p) * k1,
                units(a) + units(a + 1) >= 0,
                d > 0,
                p > 0,
        ;
    }
    (k0, k1)
}

/// A truncation of at least `2^128` rounds to infinity.
pub proof fn lemma_sticky_overflow(n: int, t: nat, len: int, inexact: bool, mag: int)
    requires
        is_bit_length(n, len),
        len >= 26,
        t >= 1,
        rounding_scale(len + t) > 253,
        nearest_even((2 * n + sticky(inexact)) * pow2((t - 1) as nat), unit_denominator(), mag),
    ensures
        mag == INFINITY,
        units(INFINITY as int) * unit_denominator() <= n * pow2(t),
        units(INFINITY - 1) < units(INFINITY as int),
        units(INFINITY - 1) >= 0,
{
    let d = unit_denominator();
    let p = pow2(t) as int;
    let ph = pow2((t - 1) as nat) as int;
    let np = 2 * n + sticky(inexact);
    lemma2_to64();
    lemma_pow2_pos(149);
    lemma_pow2_pos(t);
    lemma_pow2_unfold(len as nat);
    lemma_pow2_unfold((len + 1) as nat);
    assert(n > 0) by {
        lemma_pow2_pos((len - 1) as nat);
    }
    lemma_pow2_adds((len - 1) as nat, t);
    assert(pow2((len - 1) as nat) * p <= n * p) by (nonlinear_arith)
        requires
            pow2((len - 1) as nat) <= n,
            p > 0,
    ;
    lemma_round_overflow(np, (t - 1) as nat, len + 1);
    lemma_nearest_even_unique(np * ph, d, mag, INFINITY as int);
    if len + t - 1 > 426 {
        lemma_pow2_strictly_increases(426, (len + t - 1) as nat);
    }
    lemma_units_of_packed(253, 2 * HIDDEN_BIT);
    lemma_pow2_adds(24, 253);
    lemma_pow2_adds(277, 149);
    assert(packed(253, 2 * HIDDEN_BIT) == INFINITY);
    lemma_units_increasing(INFINITY - 1, INFINITY as int);
    lemma_units_increasing(0, INFINITY - 1);
}

/// A truncated value with a sticky bit rounds as the exact value does. The
/// exact value `num / den` units lies between `n` and `n + 1` steps of
/// `2^t / 2^149` units, where `n` has at least 26 bits.
pub proof fn lemma_nearest_even_with_sticky(
    num: int,
    den: int,
    n: int,
    t: nat,
    len: int,
    inexact: bool,
    mag: int,
)
    requires
        den > 0,
        is_bit_length(n, len),
        len >= 26,
        t >= 1,
        (n * pow2(t)) * den <= num * unit_denominator() < ((n + 1) * pow2(t)) * den,
        inexact == ((n * pow2(t)) * den != num * unit_denominator()),
        nearest_even((2 * n + sticky(inexact)) * pow2((t - 1) as nat), unit_denominator(), mag),
    ensures
        nearest_even(num, den, mag),
{
    let d = unit_denominator();
    let p = pow2(t) as int;
    let s = sticky(inexact);
    lemma_pow2_pos(149);
    lemma_pow2_pos(t);
    let w = p * den;
    let v = num * d;
    assert(w > 0) by (nonlinear_arith)
        requires
            w == p * den,
            p > 0,
            den > 0,
    ;
    assert(n * w == (n * p) * den && (n + 1) * w == ((n + 1) * p) * den) by (nonlinear_arith)
        requires
            w == p * den,
    ;
    if rounding_scale(len + t) > 253 {
        lemma_sticky_overflow(n, t, len, inexact, mag);
        let top = units(INFINITY as int);
        let before = units(INFINITY - 1);
        assert((top * den) * d <= num * d) by (nonlinear_arith)
            requires
                top * d <= n * p,
                (n * p) * den <= num * d,
                den > 0,
        ;
        lemma_scaled_order(top * den, num, d);
        assert((before + top) * den < 2 * (top * den)) by (nonlinear_arith)
            requires
                before < top,
                den > 0,
        ;
    } else {
        let k = lemma_sticky_midpoints(n, t, len, inexact, mag);
        if mag > 0 {
            let twice_mid = units(mag - 1) + units(mag);
            lemma_cut(k.0, n, s, w, v);
            assert((twice_mid * den) * d == 2 * (k.0 * w)) by (nonlinear_arith)
                requires
                    twice_mid * d == (2 * p) * k.0,
                    w == p * den,
            ;
            assert((2 * num) * d == 2 * v) by (nonlinear_arith)
                requires
                    v == num * d,
            ;
            lemma_scaled_order(twice_mid * den, 2 * num, d);
        }
        if mag < INFINITY {
            let twice_mid = units(mag) + units(mag + 1);
            lemma_cut(k.1, n, s, w, v);
            assert((twice_mid * den) * d == 2 * (k.1 * w)) by (nonlinear_arith)
                requires
                    twice_mid * d == (2 * p) * k.1,
                    w == p * den,
            ;
            assert((2 * num) * d == 2 * v) by (nonlinear_arith)
                requires
                    v == num * d,
            ;
            lemma_scaled_order(2 * num, twice_mid * den, d);
            lemma_scaled_order(twice_mid * den, 2 * num, d);
        }
    }
}

} // verus!
