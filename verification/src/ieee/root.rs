//! The square root, stated as the rounding of the exact root.
use crate::ieee::arith::split;
use crate::ieee::format::{
    infinite, is_sign_negative, lemma_units_increasing, magnitude_of, nan, sign_negative, units,
    zero, INFINITY, QUIET_NAN,
};
use crate::ieee::inexact::{lemma_sticky_midpoints, sticky};
use crate::ieee::round::{
    bit_length, is_bit_length, nearest_even, round_scaled, rounding_scale, unit_denominator,
};
use vstd::arithmetic::power2::{
    lemma2_to64, lemma2_to64_rest, lemma_pow2_adds, lemma_pow2_pos, lemma_pow2_strictly_increases,
    lemma_pow2_unfold, pow2,
};
use vstd::prelude::*;

verus! {

/// Whether the magnitude `mag` is the rounding of the square root of
/// `square`, both in units: no representable magnitude is nearer to the root,
/// and where the root lies halfway between two of them, `mag` is the even
/// one. The comparisons are made on squares.
pub open spec fn nearest_even_root(square: int, mag: int) -> bool {
    &&& 0 <= mag <= INFINITY
    &&& mag > 0 ==> {
        let twice_midpoint = units(mag - 1) + units(mag);
        &&& twice_midpoint * twice_midpoint <= 4 * square
        &&& twice_midpoint * twice_midpoint == 4 * square ==> mag % 2 == 0
    }
    &&& mag < INFINITY ==> {
        let twice_midpoint = units(mag) + units(mag + 1);
        &&& 4 * square <= twice_midpoint * twice_midpoint
        &&& twice_midpoint * twice_midpoint == 4 * square ==> mag % 2 == 0
    }
}

/// The magnitude that the square root of `square` rounds to.
pub open spec fn round_root_nearest_even(square: int) -> int {
    choose|mag: int| nearest_even_root(square, mag)
}

/// The square root of a number. The root of a NaN or of a negative number is
/// the quiet NaN, the root of a zero is that zero, the root of positive
/// infinity is positive infinity, and the root of a positive finite number is
/// the exact root rounded to nearest, ties to even. A number of `u` units is
/// `u * 2^-149`, so its root is the root of `u * 2^149` in units.
pub open spec fn root(a: u32) -> u32 {
    if nan(a) {
        QUIET_NAN
    } else if zero(a) {
        a
    } else if sign_negative(a) {
        QUIET_NAN
    } else if infinite(a) {
        a
    } else {
        round_root_nearest_even(units(a as int) * unit_denominator()) as u32
    }
}

/// Among numbers that are not negative, the larger has the larger square.
proof fn lemma_square_order(a: int, b: int)
    requires
        a >= 0,
        b >= 0,
    ensures
        (a * a <= b * b) == (a <= b),
        (a * a == b * b) == (a == b),
        (a * a < b * b) == (a < b),
{
    assert((a * a <= b * b) == (a <= b)) by (nonlinear_arith)
        requires
            a >= 0,
            b >= 0,
    ;
    assert((a * a < b * b) == (a < b)) by (nonlinear_arith)
        requires
            a >= 0,
            b >= 0,
    ;
}

/// A root rounds to one magnitude only.
pub proof fn lemma_nearest_even_root_unique(square: int, mag1: int, mag2: int)
    requires
        nearest_even_root(square, mag1),
        nearest_even_root(square, mag2),
    ensures
        mag1 == mag2,
{
    if mag1 != mag2 {
        let lo = if mag1 < mag2 {
            mag1
        } else {
            mag2
        };
        let hi = if mag1 < mag2 {
            mag2
        } else {
            mag1
        };
        let above_lo = units(lo) + units(lo + 1);
        let below_hi = units(hi - 1) + units(hi);
        lemma_units_increasing(lo, hi - 1);
        lemma_units_increasing(lo + 1, hi);
        lemma_units_increasing(lo, lo + 1);
        lemma_square_order(below_hi, above_lo);
        assert(below_hi == above_lo);
        assert(lo == hi - 1);
        assert(false);
    }
}

/// What a root rounds to is the rounding of the root.
pub proof fn lemma_round_root_nearest_even(square: int, mag: int)
    requires
        nearest_even_root(square, mag),
    ensures
        round_root_nearest_even(square) == mag,
{
    lemma_nearest_even_root_unique(square, mag, round_root_nearest_even(square));
}

/// The rounding of a root cannot fall below a representable value whose
/// square the radicand reaches.
pub proof fn lemma_nearest_even_root_at_least(square: int, mag: int, low: int)
    requires
        nearest_even_root(square, mag),
        0 <= low <= INFINITY,
        units(low) * units(low) <= square,
    ensures
        low <= mag,
{
    if mag < low {
        let u0 = units(mag);
        let u1 = units(mag + 1);
        let ul = units(low);
        lemma_units_increasing(0, mag);
        lemma_units_increasing(mag, mag + 1);
        lemma_units_increasing(mag + 1, low);
        assert((u0 + u1) * (u0 + u1) < 4 * (ul * ul)) by (nonlinear_arith)
            requires
                0 <= u0 < u1 <= ul,
        ;
    }
}

/// The rounding of a root cannot rise above a representable value whose
/// square the radicand does not exceed.
pub proof fn lemma_nearest_even_root_at_most(square: int, mag: int, high: int)
    requires
        nearest_even_root(square, mag),
        0 <= high <= INFINITY,
        square <= units(high) * units(high),
    ensures
        mag <= high,
{
    if mag > high {
        let u0 = units(mag - 1);
        let u1 = units(mag);
        let uh = units(high);
        lemma_units_increasing(0, high);
        lemma_units_increasing(mag - 1, mag);
        lemma_units_increasing(high, mag - 1);
        assert(4 * (uh * uh) < (u0 + u1) * (u0 + u1)) by (nonlinear_arith)
            requires
                0 <= uh <= u0 < u1,
        ;
    }
}

/// The largest magnitude up to `high` whose square does not exceed `square`.
proof fn lemma_root_magnitude_below(square: int, high: int) -> (below: int)
    requires
        square >= 0,
        0 <= high <= INFINITY,
        high < INFINITY ==> square < units(high + 1) * units(high + 1),
    ensures
        0 <= below <= high,
        units(below) * units(below) <= square,
        below < INFINITY ==> square < units(below + 1) * units(below + 1),
    decreases high,
{
    if units(high) * units(high) <= square {
        high
    } else {
        if high == 0 {
            crate::ieee::format::lemma_units_of_small(0);
        }
        lemma_root_magnitude_below(square, high - 1)
    }
}

/// Every radicand that is not negative has a rounded root.
pub proof fn lemma_nearest_even_root_exists(square: int) -> (mag: int)
    requires
        square >= 0,
    ensures
        nearest_even_root(square, mag),
{
    let below = lemma_root_magnitude_below(square, INFINITY as int);
    lemma_units_increasing(0, below);
    if below == INFINITY {
        lemma_units_increasing(0, INFINITY - 1);
        lemma_units_increasing(INFINITY - 1, INFINITY as int);
        let before = units(INFINITY - 1);
        let top = units(INFINITY as int);
        assert((before + top) * (before + top) < 4 * (top * top)) by (nonlinear_arith)
            requires
                0 <= before < top,
        ;
        below
    } else {
        let u0 = units(below);
        let u1 = units(below + 1);
        lemma_units_increasing(below, below + 1);
        let mid = u0 + u1;
        let up = mid * mid < 4 * square || (mid * mid == 4 * square && below % 2 == 1);
        assert(4 * (u0 * u0) < mid * mid < 4 * (u1 * u1)) by (nonlinear_arith)
            requires
                0 <= u0 < u1,
                mid == u0 + u1,
        ;
        if up {
            if below + 1 < INFINITY {
                let u2 = units(below + 2);
                lemma_units_increasing(below + 1, below + 2);
                assert(4 * (u1 * u1) < (u1 + u2) * (u1 + u2)) by (nonlinear_arith)
                    requires
                        0 <= u1 < u2,
                ;
            }
            below + 1
        } else {
            if below > 0 {
                let before = units(below - 1);
                lemma_units_increasing(0, below - 1);
                lemma_units_increasing(below - 1, below);
                assert((before + u0) * (before + u0) < 4 * (u0 * u0)) by (nonlinear_arith)
                    requires
                        0 <= before < u0,
                ;
            }
            below
        }
    }
}

/// The rounded root of a radicand that is not negative is nearest to the
/// root, ties to even: the rounding is defined for every such radicand.
pub proof fn lemma_round_root_is_nearest(square: int)
    requires
        square >= 0,
    ensures
        nearest_even_root(square, round_root_nearest_even(square)),
        0 <= round_root_nearest_even(square) <= INFINITY,
{
    let mag = lemma_nearest_even_root_exists(square);
    lemma_round_root_nearest_even(square, mag);
}

/// Rounding a root to a finite magnitude of at least `2^22` changes it by at
/// most one part in `2^23`: the square of the rounded root lies within the
/// squares of that of the radicand.
pub proof fn lemma_root_rounding_error(square: int, mag: int)
    requires
        nearest_even_root(square, mag),
        0x40_0000 <= mag < INFINITY,
    ensures
        70368727400449 * (units(mag) * units(mag)) <= 70368744177664 * square,
        70368744177664 * square <= 70368760954881 * (units(mag) * units(mag)),
{
    let q = crate::ieee::format::scale(mag);
    let p = pow2(q) as int;
    let s = units(mag);
    let before = units(mag - 1);
    let after = units(mag + 1);
    lemma2_to64();
    lemma_pow2_pos(q);
    crate::ieee::format::lemma_units_step(mag);
    crate::ieee::format::lemma_units_step(mag - 1);
    lemma_units_increasing(0, mag - 1);
    let q_before = crate::ieee::format::scale(mag - 1);
    if q_before < q {
        lemma_pow2_strictly_increases(q_before, q);
    }
    assert(s - before <= p);
    assert(after == s + p);
    assert(s >= 0x40_0000 * p) by {
        let sig = crate::ieee::format::significand(mag);
        let h = crate::ieee::format::HIDDEN_BIT as int;
        if mag >= h {
            assert(mag % h >= 0);
        }
        assert(sig >= 0x40_0000);
        assert(sig * p >= 0x40_0000 * p) by (nonlinear_arith)
            requires
                sig >= 0x40_0000,
                p > 0,
        ;
    }
    let low = before + s;
    let high = s + after;
    // Twice the root lies between the two sums, which are close to twice
    // the rounded root.
    assert(0 <= 8388607 * (2 * s) <= 8388608 * low);
    assert(8388608 * high <= 8388609 * (2 * s));
    lemma_square_order(8388607 * (2 * s), 8388608 * low);
    lemma_square_order(8388608 * high, 8388609 * (2 * s));
    assert((8388607 * (2 * s)) * (8388607 * (2 * s)) == 281474909601796 * (s * s) && (8388608
        * low) * (8388608 * low) == 70368744177664 * (low * low) && (8388608 * high) * (8388608
        * high) == 70368744177664 * (high * high) && (8388609 * (2 * s)) * (8388609 * (2 * s))
        == 281475043819524 * (s * s)) by (nonlinear_arith);
}

/// A root between `n` and `n + 1` steps of width `p` compares with a whole
/// number of steps `k` as `2n`, made odd if the root is not `n` steps itself,
/// compares with `2k`. The root is given by its square `v`.
proof fn lemma_root_cut(k: int, n: int, s: int, p: int, v: int)
    requires
        k >= 0,
        n >= 0,
        p > 0,
        (n * p) * (n * p) <= v < ((n + 1) * p) * ((n + 1) * p),
        s == 0 || s == 1,
        (s == 0) == ((n * p) * (n * p) == v),
    ensures
        (2 * k <= 2 * n + s) == ((k * p) * (k * p) <= v),
        (2 * k == 2 * n + s) == ((k * p) * (k * p) == v),
        (2 * n + s <= 2 * k) == (v <= (k * p) * (k * p)),
{
    assert(k * p >= 0 && n * p >= 0 && (n + 1) * p >= 0) by (nonlinear_arith)
        requires
            k >= 0,
            n >= 0,
            p > 0,
    ;
    if k <= n {
        assert(k * p <= n * p) by (nonlinear_arith)
            requires
                k <= n,
                p > 0,
        ;
        lemma_square_order(k * p, n * p);
        if k < n {
            assert(k * p < n * p) by (nonlinear_arith)
                requires
                    k < n,
                    p > 0,
            ;
        }
    } else {
        assert((n + 1) * p <= k * p) by (nonlinear_arith)
            requires
                n + 1 <= k,
                p > 0,
        ;
        lemma_square_order((n + 1) * p, k * p);
    }
}

/// Comparing twice a midpoint with twice the root, on squares, is comparing
/// the midpoint's number of steps with the root.
proof fn lemma_midpoint_square(twice_mid: int, square: int, d: int, p: int, k: int)
    requires
        d > 0,
        twice_mid * d == (2 * p) * k,
    ensures
        (twice_mid * twice_mid <= 4 * square) == ((k * p) * (k * p) <= square * (d * d)),
        (twice_mid * twice_mid == 4 * square) == ((k * p) * (k * p) == square * (d * d)),
        (4 * square <= twice_mid * twice_mid) == (square * (d * d) <= (k * p) * (k * p)),
{
    let dd = d * d;
    assert(dd > 0) by (nonlinear_arith)
        requires
            dd == d * d,
            d > 0,
    ;
    assert((twice_mid * twice_mid) * dd == 4 * ((k * p) * (k * p))) by (nonlinear_arith)
        requires
            twice_mid * d == (2 * p) * k,
            dd == d * d,
    ;
    assert((4 * square) * dd == 4 * (square * dd)) by (nonlinear_arith);
    crate::ieee::round::lemma_scaled_order(twice_mid * twice_mid, 4 * square, dd);
    crate::ieee::round::lemma_scaled_order(4 * square, twice_mid * twice_mid, dd);
}

/// A truncated root with a sticky bit rounds as the exact root does. The
/// root of `square` lies between `n` and `n + 1` steps of `2^t / 2^149`
/// units, where `n` has at least 26 bits.
pub proof fn lemma_nearest_even_root_with_sticky(
    square: int,
    n: int,
    t: nat,
    len: int,
    inexact: bool,
    mag: int,
)
    requires
        is_bit_length(n, len),
        len >= 26,
        t >= 1,
        rounding_scale(len + t) <= 253,
        ({
            let scaled = square * (unit_denominator() * unit_denominator());
            &&& (n * pow2(t)) * (n * pow2(t)) <= scaled < ((n + 1) * pow2(t)) * ((n + 1) * pow2(
                t,
            ))
            &&& inexact == ((n * pow2(t)) * (n * pow2(t)) != scaled)
        }),
        nearest_even((2 * n + sticky(inexact)) * pow2((t - 1) as nat), unit_denominator(), mag),
    ensures
        nearest_even_root(square, mag),
{
    let d = unit_denominator();
    let p = pow2(t) as int;
    let s = sticky(inexact);
    lemma_pow2_pos(149);
    lemma_pow2_pos(t);
    assert(n >= 0) by {
        lemma_pow2_pos((len - 1) as nat);
    }
    let k = lemma_sticky_midpoints(n, t, len, inexact, mag);
    let scaled = square * (d * d);
    if mag > 0 {
        let twice_mid = units(mag - 1) + units(mag);
        lemma_root_cut(k.0, n, s, p, scaled);
        lemma_midpoint_square(twice_mid, square, d, p, k.0);
    }
    if mag < INFINITY {
        let twice_mid = units(mag) + units(mag + 1);
        lemma_root_cut(k.1, n, s, p, scaled);
        lemma_midpoint_square(twice_mid, square, d, p, k.1);
    }
}

/// The whole part of the square root of `n`.
pub fn whole_root(n: u64) -> (r: u64)
    requires
        n < 0x1000_0000_0000_0000,
    ensures
        r * r <= n < (r + 1) * (r + 1),
        r < 0x4000_0000,
{
    let mut r: u64 = 0;
    let mut width: u64 = 0x4000_0000;
    let ghost mut i: nat = 30;
    proof {
        lemma2_to64();
    }
    while width > 1
        invariant
            width == pow2(i),
            width >= 1,
            r * r <= n < (r + width) * (r + width),
            r + width <= 0x4000_0000,
        decreases width,
    {
        proof {
            lemma2_to64();
            lemma_pow2_unfold(i);
            lemma_pow2_pos((i - 1) as nat);
        }
        let half: u64 = width / 2;
        let cand: u64 = r + half;
        proof {
            assert(cand * cand <= 0x4000_0000 * 0x4000_0000) by (nonlinear_arith)
                requires
                    0 <= cand <= 0x4000_0000,
            ;
            assert(r + width == cand + half);
        }
        if cand * cand <= n {
            r = cand;
        }
        width = half;
        proof {
            i = (i - 1) as nat;
        }
    }
    r
}

/// The square of a shifted significand, in the terms of the sticky lemma.
proof fn lemma_root_between(sa: int, qa: nat, j: nat, h: nat, shifted: int, r: int)
    requires
        shifted == sa * pow2(j),
        qa + 149 == j + 2 * h,
        r >= 0,
        r * r <= shifted < (r + 1) * (r + 1),
    ensures
        ({
            let t = h + 149;
            let square = (sa * pow2(qa)) * unit_denominator();
            let scaled = square * (unit_denominator() * unit_denominator());
            &&& (r * pow2(t)) * (r * pow2(t)) <= scaled < ((r + 1) * pow2(t)) * ((r + 1) * pow2(t))
            &&& (r * r != shifted) == ((r * pow2(t)) * (r * pow2(t)) != scaled)
        }),
{
    let d = unit_denominator();
    let t = h + 149;
    let p = pow2(t) as int;
    let pj = pow2(j) as int;
    let pa = pow2(qa) as int;
    let ph = pow2(h) as int;
    lemma_pow2_pos(t);
    lemma_pow2_adds(h, 149);
    lemma_pow2_adds(h, h);
    lemma_pow2_adds(j, 2 * h);
    lemma_pow2_adds(qa, 149);
    let pp = p * p;
    assert(pp > 0) by (nonlinear_arith)
        requires
            pp == p * p,
            p > 0,
    ;
    // 2^qa * 2^149 == 2^j * (2^h)^2, so the scaled square is the shifted
    // significand times the square of the step.
    assert(((sa * pa) * d) * (d * d) == shifted * pp) by (nonlinear_arith)
        requires
            shifted == sa * pj,
            pa * d == pj * (ph * ph),
            p == ph * d,
            pp == p * p,
    ;
    assert((r * p) * (r * p) == (r * r) * pp && ((r + 1) * p) * ((r + 1) * p) == ((r + 1) * (r
        + 1)) * pp) by (nonlinear_arith)
        requires
            pp == p * p,
    ;
    crate::ieee::round::lemma_scaled_order(r * r, shifted, pp);
    crate::ieee::round::lemma_scaled_order(shifted, (r + 1) * (r + 1), pp);
}

/// Extracts the square root.
pub fn square_root(a: u32) -> (result: u32)
    ensures
        result == root(a),
{
    let ma: u32 = magnitude_of(a);
    if ma > INFINITY {
        return QUIET_NAN;
    }
    if ma == 0 {
        return a;
    }
    if is_sign_negative(a) {
        return QUIET_NAN;
    }
    if ma == INFINITY {
        return a;
    }
    let (sa, qa) = split(ma);
    proof {
        lemma2_to64();
        lemma2_to64_rest();
    }
    let la: u64 = bit_length(sa);
    let e: u64 = qa + 149;
    let even: bool = (e - (59 - la)) % 2 == 0;
    let j: u64 = if even {
        59 - la
    } else {
        60 - la
    };
    let h: u64 = (e - j) / 2;
    proof {
        lemma_pow2_adds(la as nat, j as nat);
        lemma_pow2_adds((la - 1) as nat, j as nat);
        if la + j < 60 {
            lemma_pow2_strictly_increases((la + j) as nat, 60);
        }
        if la + j - 1 > 58 {
            lemma_pow2_strictly_increases(58, (la + j - 1) as nat);
        }
        lemma_pow2_pos(j as nat);
        assert(pow2((la - 1) as nat) * pow2(j as nat) <= sa * pow2(j as nat) < pow2(la as nat)
            * pow2(j as nat)) by (nonlinear_arith)
            requires
                pow2((la - 1) as nat) <= sa < pow2(la as nat),
                pow2(j as nat) > 0,
        ;
        vstd::bits::lemma_u64_shl_is_mul(sa, j);
    }
    let shifted: u64 = sa << j;
    let r: u64 = whole_root(shifted);
    proof {
        assert(r >= 0x2000_0000) by (nonlinear_arith)
            requires
                shifted < (r + 1) * (r + 1),
                shifted >= 0x400_0000_0000_0000,
                r >= 0,
        ;
    }
    let inexact: bool = r * r != shifted;
    let odd: u64 = if inexact {
        1
    } else {
        0
    };
    let t: u64 = h + 149;
    let mag: u32 = round_scaled(2 * r + odd, t - 1);
    proof {
        lemma_root_between(sa as int, qa as nat, j as nat, h as nat, shifted as int, r as int);
        assert(is_bit_length(r as int, 30));
        assert(odd == sticky(inexact));
        let square = units(ma as int) * unit_denominator();
        lemma_nearest_even_root_with_sticky(square, r as int, t as nat, 30, inexact, mag as int);
        lemma_round_root_nearest_even(square, mag as int);
    }
    mag
}

} // verus!
