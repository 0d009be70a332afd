//! Rounding to nearest, ties to even: the one rounding that every operation
//! of this library ends with.
use crate::ieee::format::{
    lemma_units_increasing, lemma_units_of_packed, lemma_units_of_small, packed, units,
    HIDDEN_BIT, INFINITY,
};
use vstd::arithmetic::power2::{
    lemma2_to64, lemma2_to64_rest, lemma_pow2_adds, lemma_pow2_pos, lemma_pow2_strictly_increases,
    pow2,
};
use vstd::prelude::*;

verus! {

/// How many units of the exact results make up one unit of the numbers:
/// a product of two numbers is a whole multiple of `2^-298`, which is
/// `2^-149` units.
pub open spec fn unit_denominator() -> int {
    pow2(149) as int
}

/// Whether the magnitude `mag` is the rounding of the exact value
/// `num / den` units: no representable magnitude is nearer, and where the
/// exact value lies halfway between two of them, `mag` is the even one. The
/// pattern of infinity takes part as if it were `2^128`, so a value that is
/// nearer to `2^128` than to the largest finite number rounds to infinity.
pub open spec fn nearest_even(num: int, den: int, mag: int) -> bool {
    &&& 0 <= mag <= INFINITY
    &&& mag > 0 ==> {
        let twice_midpoint = units(mag - 1) + units(mag);
        &&& twice_midpoint * den <= 2 * num
        &&& twice_midpoint * den == 2 * num ==> mag % 2 == 0
    }
    &&& mag < INFINITY ==> {
        let twice_midpoint = units(mag) + units(mag + 1);
        &&& 2 * num <= twice_midpoint * den
        &&& twice_midpoint * den == 2 * num ==> mag % 2 == 0
    }
}

/// The magnitude that the exact value `num / den` units rounds to.
pub open spec fn round_nearest_even(num: int, den: int) -> int {
    choose|mag: int| nearest_even(num, den, mag)
}

/// Multiplying both sides by a positive number keeps their order.
pub proof fn lemma_scaled_order(a: int, b: int, k: int)
    requires
        k > 0,
    ensures
        (a * k <= b * k) == (a <= b),
        (a * k == b * k) == (a == b),
        (a * k < b * k) == (a < b),
{
    assert((a * k <= b * k) == (a <= b)) by (nonlinear_arith)
        requires
            k > 0,
    ;
    assert((a * k == b * k) == (a == b)) by (nonlinear_arith)
        requires
            k > 0,
    ;
}

/// A value rounds to one magnitude only.
pub proof fn lemma_nearest_even_unique(num: int, den: int, mag1: int, mag2: int)
    requires
        den > 0,
        nearest_even(num, den, mag1),
        nearest_even(num, den, mag2),
    ensures
        mag1 == mag2,
{
    if mag1 != mag2 {
        let lo = if mag1 < mag2 {
            mag1
        } else {
            mag2
        };
        let hi = if mag1 < mag2 {
            mag2
        } else {
            mag1
        };
        let above_lo = units(lo) + units(lo + 1);
        let below_hi = units(hi - 1) + units(hi);
        lemma_units_increasing(lo, hi - 1);
        lemma_units_increasing(lo + 1, hi);
        lemma_units_increasing(lo, lo + 1);
        assert(below_hi * den <= 2 * num <= above_lo * den);
        lemma_scaled_order(below_hi, above_lo, den);
        assert(below_hi == above_lo);
        assert(lo == hi - 1);
        assert(lo % 2 == 0 && hi % 2 == 0);
        assert(false);
    }
}

/// What a value rounds to is the rounding of the value.
pub proof fn lemma_round_nearest_even(num: int, den: int, mag: int)
    requires
        den > 0,
        nearest_even(num, den, mag),
    ensures
        round_nearest_even(num, den) == mag,
{
    lemma_nearest_even_unique(num, den, mag, round_nearest_even(num, den));
}

/// Rounding does not depend on how the exact value is written as a fraction.
pub proof fn lemma_nearest_even_of_equal_fractions(num: int, den: int, mag: int, factor: int)
    requires
        factor > 0,
    ensures
        nearest_even(num * factor, den * factor, mag) == nearest_even(num, den, mag),
{
    if 0 < mag <= INFINITY {
        let mid = units(mag - 1) + units(mag);
        assert(mid * (den * factor) == (mid * den) * factor) by (nonlinear_arith);
        assert(2 * (num * factor) == (2 * num) * factor) by (nonlinear_arith);
        lemma_scaled_order(mid * den, 2 * num, factor);
    }
    if 0 <= mag < INFINITY {
        let mid = units(mag) + units(mag + 1);
        assert(mid * (den * factor) == (mid * den) * factor) by (nonlinear_arith);
        assert(2 * (num * factor) == (2 * num) * factor) by (nonlinear_arith);
        lemma_scaled_order(2 * num, mid * den, factor);
    }
}

/// Rounding from the magnitude just below: the exact value lies between
/// `below` and its successor, and goes up exactly when it is past the middle,
/// or in the middle with `below` odd.
pub proof fn lemma_nearest_even_from_below(num: int, den: int, below: int, up: bool)
    requires
        den > 0,
        0 <= below < INFINITY,
        units(below) * den <= num < units(below + 1) * den,
        ({
            let twice_rest = 2 * (num - units(below) * den);
            let gap = (units(below + 1) - units(below)) * den;
            if up {
                twice_rest > gap || (twice_rest == gap && below % 2 == 1)
            } else {
                twice_rest < gap || (twice_rest == gap && below % 2 == 0)
            }
        }),
    ensures
        nearest_even(
            num,
            den,
            if up {
                below + 1
            } else {
                below
            },
        ),
{
    let u0 = units(below);
    let u1 = units(below + 1);
    assert((u0 + u1) * den == 2 * (u0 * den) + (u1 - u0) * den) by (nonlinear_arith);
    if up {
        if below + 1 < INFINITY {
            let u2 = units(below + 2);
            lemma_units_increasing(below + 1, below + 2);
            lemma_scaled_order(u1, u2, den);
            assert((u1 + u2) * den == u1 * den + u2 * den) by (nonlinear_arith);
        }
    } else {
        if below > 0 {
            let before = units(below - 1);
            lemma_units_increasing(below - 1, below);
            lemma_scaled_order(before, u0, den);
            assert((before + u0) * den == before * den + u0 * den) by (nonlinear_arith);
        }
    }
}

/// Rounding cannot fall below a representable value that the exact value
/// reaches.
pub proof fn lemma_nearest_even_at_least(num: int, den: int, mag: int, low: int)
    requires
        den > 0,
        nearest_even(num, den, mag),
        0 <= low <= INFINITY,
        units(low) * den <= num,
    ensures
        low <= mag,
{
    if mag < low {
        let u0 = units(mag);
        let u1 = units(mag + 1);
        let ul = units(low);
        lemma_units_increasing(mag, mag + 1);
        lemma_units_increasing(mag + 1, low);
        assert((u0 + u1) * den < 2 * (ul * den)) by (nonlinear_arith)
            requires
                u0 < u1 <= ul,
                den > 0,
        ;
    }
}

/// Rounding cannot rise above a representable value that the exact value
/// does not exceed.
pub proof fn lemma_nearest_even_at_most(num: int, den: int, mag: int, high: int)
    requires
        den > 0,
        nearest_even(num, den, mag),
        0 <= high <= INFINITY,
        num <= units(high) * den,
    ensures
        mag <= high,
{
    if mag > high {
        let u0 = units(mag - 1);
        let u1 = units(mag);
        let uh = units(high);
        lemma_units_increasing(mag - 1, mag);
        lemma_units_increasing(high, mag - 1);
        assert(2 * (uh * den) < (u0 + u1) * den) by (nonlinear_arith)
            requires
                uh <= u0 < u1,
                den > 0,
        ;
    }
}

/// The largest magnitude up to `high` whose value does not exceed
/// `num / den`.
proof fn lemma_magnitude_below(num: int, den: int, high: int) -> (below: int)
    requires
        den > 0,
        num >= 0,
        0 <= high <= INFINITY,
        high < INFINITY ==> num < units(high + 1) * den,
    ensures
        0 <= below <= high,
        units(below) * den <= num,
        below < INFINITY ==> num < units(below + 1) * den,
    decreases high,
{
    if units(high) * den <= num {
        high
    } else {
        if high == 0 {
            lemma_units_of_small(0);
            assert(units(0) * den == 0);
        }
        lemma_magnitude_below(num, den, high - 1)
    }
}

/// Every value that is not negative has a rounding.
pub proof fn lemma_nearest_even_exists(num: int, den: int) -> (mag: int)
    requires
        den > 0,
        num >= 0,
    ensures
        nearest_even(num, den, mag),
{
    let below = lemma_magnitude_below(num, den, INFINITY as int);
    if below == INFINITY {
        lemma_units_increasing(INFINITY - 1, INFINITY as int);
        let before = units(INFINITY - 1);
        let top = units(INFINITY as int);
        assert((before + top) * den < 2 * (top * den)) by (nonlinear_arith)
            requires
                before < top,
                den > 0,
        ;
        below
    } else {
        let twice_rest = 2 * (num - units(below) * den);
        let gap = (units(below + 1) - units(below)) * den;
        let up = twice_rest > gap || (twice_rest == gap && below % 2 == 1);
        lemma_nearest_even_from_below(num, den, below, up);
        if up {
            below + 1
        } else {
            below
        }
    }
}

/// The rounding of a value that is not negative is nearest to it, ties to
/// even: the rounding is defined for every such value.
pub proof fn lemma_round_is_nearest(num: int, den: int)
    requires
        den > 0,
        num >= 0,
    ensures
        nearest_even(num, den, round_nearest_even(num, den)),
        0 <= round_nearest_even(num, den) <= INFINITY,
{
    let mag = lemma_nearest_even_exists(num, den);
    lemma_round_nearest_even(num, den, mag);
}

/// Rounding to a finite magnitude of at least `2^22`, which leaves out the
/// lower half of the subnormals, changes a value by at most one part in
/// `2^22`.
pub proof fn lemma_rounding_error(num: int, den: int, mag: int)
    requires
        den > 0,
        nearest_even(num, den, mag),
        0x40_0000 <= mag < INFINITY,
    ensures
        0x40_0000 * (units(mag) * den - num) <= num,
        0x40_0000 * (num - units(mag) * den) <= num,
        num > 0,
{
    let h = HIDDEN_BIT as int;
    let q = crate::ieee::format::scale(mag);
    let p = pow2(q) as int;
    let u = units(mag);
    let before = units(mag - 1);
    let after = units(mag + 1);
    lemma2_to64();
    lemma_pow2_pos(q);
    crate::ieee::format::lemma_units_step(mag);
    crate::ieee::format::lemma_units_step(mag - 1);
    // The gap below is at most the gap above.
    let q_before = crate::ieee::format::scale(mag - 1);
    assert(q_before <= q);
    if q_before < q {
        lemma_pow2_strictly_increases(q_before, q);
    }
    assert(u - before <= p);
    assert(after == u + p);
    // The value is at least 2^22 last places.
    assert(u >= 0x40_0000 * p) by {
        let sig = crate::ieee::format::significand(mag);
        if mag >= h {
            assert(sig >= h) by {
                assert(mag % h >= 0);
            }
        }
        assert(sig >= 0x40_0000);
        assert(sig * p >= 0x40_0000 * p) by (nonlinear_arith)
            requires
                sig >= 0x40_0000,
                p > 0,
        ;
    }
    let ud = u * den;
    let pd = p * den;
    assert(pd > 0 && ud >= 0x40_0000 * pd) by (nonlinear_arith)
        requires
            ud == u * den,
            pd == p * den,
            u >= 0x40_0000 * p,
            p > 0,
            den > 0,
    ;
    assert((before + u) * den >= 2 * ud - pd && (u + after) * den == 2 * ud + pd)
        by (nonlinear_arith)
        requires
            ud == u * den,
            pd == p * den,
            u - before <= p,
            after == u + p,
            den > 0,
    ;
}

/// The number of bits of `n`: zero for zero, else the `len` with
/// `2^(len-1) <= n < 2^len`.
pub open spec fn is_bit_length(n: int, len: int) -> bool {
    if n == 0 {
        len == 0
    } else {
        len >= 1 && pow2((len - 1) as nat) <= n < pow2(len as nat)
    }
}

/// Counts the bits of `n`.
pub fn bit_length(n: u64) -> (len: u64)
    ensures
        is_bit_length(n as int, len as int),
        len <= 64,
{
    let mut len: u64 = 0;
    let mut rest: u64 = n;
    proof {
        lemma2_to64();
    }
    while rest > 0
        invariant
            len <= 64,
            rest * pow2(len as nat) <= n < (rest + 1) * pow2(len as nat),
            len >= 1 ==> pow2((len - 1) as nat) <= n,
            n > 0 ==> rest > 0 || len >= 1,
            n == 0 ==> len == 0,
        decreases rest,
    {
        proof {
            let p = pow2(len as nat) as int;
            vstd::arithmetic::power2::lemma_pow2_unfold((len + 1) as nat);
            lemma_pow2_pos(len as nat);
            let half = (rest / 2) as int;
            assert(half * (2 * p) <= rest * p && (rest + 1) * p <= (half + 1) * (2 * p))
                by (nonlinear_arith)
                requires
                    2 * half <= rest <= 2 * half + 1,
                    p > 0,
            ;
            assert(p <= rest * p) by (nonlinear_arith)
                requires
                    rest >= 1,
                    p > 0,
            ;
            if len >= 64 {
                lemma2_to64();
                assert(false);
            }
        }
        rest = rest / 2;
        len = len + 1;
    }
    proof {
        let p = pow2(len as nat) as int;
        assert((rest + 1) * p == p) by (nonlinear_arith)
            requires
                rest == 0,
        ;
    }
    len
}

/// The scale at which a value of `top` bits, counted from `2^-298`, is
/// rounded: its leading bit becomes the hidden bit, but for a value below the
/// normal range, which is rounded to whole units.
pub open spec fn rounding_scale(top: int) -> int {
    if top > 173 {
        top - 173
    } else {
        0
    }
}

/// A value of at least `2^128` rounds to infinity.
pub proof fn lemma_round_overflow(n: int, t: nat, len: int)
    requires
        n > 0,
        is_bit_length(n, len),
        rounding_scale(len + t) > 253,
    ensures
        nearest_even(n * pow2(t), unit_denominator(), INFINITY as int),
{
    let den = unit_denominator();
    let exact = n * pow2(t);
    lemma_pow2_pos(149);
    lemma_pow2_pos(t);
    lemma_pow2_adds((len - 1) as nat, t);
    if len + t - 1 > 426 {
        lemma_pow2_strictly_increases(426, (len + t - 1) as nat);
    }
    assert(pow2((len - 1) as nat) * pow2(t) <= n * pow2(t)) by (nonlinear_arith)
        requires
            pow2((len - 1) as nat) <= n,
            pow2(t) > 0,
    ;
    lemma2_to64();
    lemma_units_of_packed(253, 2 * HIDDEN_BIT);
    lemma_pow2_adds(24, 253);
    lemma_pow2_adds(277, 149);
    assert(packed(253, 2 * HIDDEN_BIT) == INFINITY);
    assert(units(INFINITY as int) * den <= exact);
    lemma_units_increasing(INFINITY - 1, INFINITY as int);
    lemma_scaled_order(units(INFINITY - 1), units(INFINITY as int), den);
    assert((units(INFINITY - 1) + units(INFINITY as int)) * den == units(INFINITY - 1) * den
        + units(INFINITY as int) * den) by (nonlinear_arith);
}

/// A value below half a unit rounds to zero.
proof fn lemma_round_tiny(n: int, t: nat)
    requires
        0 <= n < pow2(63),
        t + 64 <= 149,
    ensures
        nearest_even(n * pow2(t), unit_denominator(), 0),
{
    let den = unit_denominator();
    lemma_pow2_pos(149);
    lemma_pow2_pos(t);
    lemma_pow2_adds(63, t);
    if 63 + t < 148 {
        lemma_pow2_strictly_increases(63 + t, 148);
    }
    vstd::arithmetic::power2::lemma_pow2_unfold(149);
    assert(0 <= n * pow2(t) < pow2(63) * pow2(t)) by (nonlinear_arith)
        requires
            0 <= n < pow2(63),
            pow2(t) > 0,
    ;
    lemma_units_of_small(0);
    lemma_units_of_small(1);
    assert(units(0) * den == 0);
    assert((units(1) - units(0)) * den == den);
    lemma_nearest_even_from_below(n * pow2(t), den, 0, false);
}

/// A value that is a whole number of last places is its own rounding.
proof fn lemma_round_exact(n: int, t: nat, len: int, q: int, l: nat)
    requires
        n > 0,
        is_bit_length(n, len),
        q == rounding_scale(len + t),
        q <= 253,
        t == l + q + 149,
    ensures
        n * pow2(l) <= 0xff_ffff,
        q > 0 ==> n * pow2(l) >= HIDDEN_BIT,
        nearest_even(n * pow2(t), unit_denominator(), packed(q, n * pow2(l))),
        0 <= packed(q, n * pow2(l)) < INFINITY,
{
    let den = unit_denominator();
    let pl = pow2(l) as int;
    let sig = n * pl;
    lemma2_to64();
    lemma_pow2_pos(149);
    lemma_pow2_pos(l);
    lemma_pow2_adds(len as nat, l);
    lemma_pow2_adds((len - 1) as nat, l);
    if len + l < 24 {
        lemma_pow2_strictly_increases((len + l) as nat, 24);
    }
    assert(pow2((len - 1) as nat) * pl <= n * pl < pow2(len as nat) * pl) by (nonlinear_arith)
        requires
            pow2((len - 1) as nat) <= n < pow2(len as nat),
            pl > 0,
    ;
    lemma_pow2_adds(l, q as nat);
    lemma_pow2_adds(l + q as nat, 149);
    assert(n * pow2(t) == (sig * pow2(q as nat)) * den) by (nonlinear_arith)
        requires
            pow2(t) == (pl * pow2(q as nat)) * den,
            sig == n * pl,
    ;
    lemma_units_of_packed(q, sig);
    lemma_units_of_packed(q, sig + 1);
    let below = packed(q, sig);
    assert(packed(q, sig + 1) == below + 1);
    lemma_pow2_pos(q as nat);
    assert(units(below) * den < units(below + 1) * den && (units(below + 1) - units(below)) * den
        > 0) by (nonlinear_arith)
        requires
            units(below) == sig * pow2(q as nat),
            units(below + 1) == (sig + 1) * pow2(q as nat),
            pow2(q as nat) > 0,
            den > 0,
    ;
    lemma_nearest_even_from_below(n * pow2(t), den, below, false);
}

/// A value with bits below the last place: `floor` last places and a `rest`
/// of `s` bits, which decides the direction.
proof fn lemma_round_inexact(
    n: int,
    t: nat,
    len: int,
    q: int,
    s: nat,
    floor: int,
    rest: int,
    up: bool,
)
    requires
        n > 0,
        is_bit_length(n, len),
        q == rounding_scale(len + t),
        q <= 253,
        s >= 1,
        q + 149 == s + t,
        n == pow2(s) * floor + rest,
        0 <= rest < pow2(s),
        up == (2 * rest > pow2(s) || (2 * rest == pow2(s) && floor % 2 == 1)),
    ensures
        0 <= floor <= 0xff_ffff,
        q > 0 ==> floor >= HIDDEN_BIT,
        nearest_even(
            n * pow2(t),
            unit_denominator(),
            packed(
                q,
                if up {
                    floor + 1
                } else {
                    floor
                },
            ),
        ),
        0 <= packed(q, floor) < INFINITY,
{
    let den = unit_denominator();
    let ps = pow2(s) as int;
    let pt = pow2(t) as int;
    let pq = pow2(q as nat) as int;
    lemma2_to64();
    lemma_pow2_pos(149);
    lemma_pow2_pos(s);
    lemma_pow2_pos(t);
    lemma_pow2_pos(q as nat);
    lemma_pow2_adds(s, 24);
    lemma_pow2_adds(s, 23);
    if q > 0 {
        assert(s == len - 24);
    } else {
        if len < s + 24 {
            lemma_pow2_strictly_increases(len as nat, s + 24);
        }
    }
    assert(floor >= 0) by (nonlinear_arith)
        requires
            n == ps * floor + rest,
            rest < ps,
            n > 0,
            ps > 0,
    ;
    assert(floor < 0x100_0000) by (nonlinear_arith)
        requires
            n == ps * floor + rest,
            0 <= rest,
            n < ps * 0x100_0000,
            ps > 0,
    ;
    assert(q > 0 ==> floor >= 0x80_0000) by (nonlinear_arith)
        requires
            n == ps * floor + rest,
            rest < ps,
            q > 0 ==> n >= ps * 0x80_0000,
            ps > 0,
    ;
    lemma_pow2_adds(q as nat, 149);
    lemma_pow2_adds(s, t);
    assert(pq * den == ps * pt);
    lemma_units_of_packed(q, floor);
    lemma_units_of_packed(q, floor + 1);
    let below = packed(q, floor);
    assert(packed(q, floor + 1) == below + 1);
    let u0 = units(below);
    let u1 = units(below + 1);
    assert(n * pt == u0 * den + rest * pt && (u1 - u0) * den == ps * pt) by (nonlinear_arith)
        requires
            n == ps * floor + rest,
            pq * den == ps * pt,
            u0 == floor * pq,
            u1 == (floor + 1) * pq,
    ;
    lemma_scaled_order(2 * rest, ps, pt);
    lemma_scaled_order(ps, 2 * rest, pt);
    lemma_scaled_order(rest, ps, pt);
    assert(2 * (rest * pt) == (2 * rest) * pt) by (nonlinear_arith);
    assert(0 <= rest * pt) by (nonlinear_arith)
        requires
            0 <= rest,
            pt > 0,
    ;
    assert(u1 * den == u0 * den + ps * pt) by (nonlinear_arith)
        requires
            (u1 - u0) * den == ps * pt,
    ;
    assert(below % 2 == floor % 2);
    lemma_nearest_even_from_below(n * pt, den, below, up);
}

/// Rounds the exact value `n * 2^t / 2^149` units, that is `n * 2^(t-298)`,
/// to the nearest magnitude, ties to even.
pub fn round_scaled(n: u64, t: u64) -> (mag: u32)
    requires
        n < 0x8000_0000_0000_0000,
        t <= 1024,
    ensures
        nearest_even(n * pow2(t as nat), unit_denominator(), mag as int),
        mag <= INFINITY,
{
    proof {
        lemma2_to64();
        lemma2_to64_rest();
    }
    let len: u64 = bit_length(n);
    if n == 0 {
        proof {
            lemma_round_tiny(0, 0);
            assert(0 * pow2(0) == 0 * pow2(t as nat)) by (nonlinear_arith);
        }
        return 0;
    }
    let top: u64 = len + t;
    let q: u64 = if top > 173 {
        top - 173
    } else {
        0
    };
    if q > 253 {
        proof {
            lemma_round_overflow(n as int, t as nat, len as int);
        }
        return INFINITY;
    }
    let sig: u64;
    if t >= q + 149 {
        let l: u64 = t - 149 - q;
        proof {
            lemma_round_exact(n as int, t as nat, len as int, q as int, l as nat);
            vstd::bits::lemma_u64_shl_is_mul(n, l);
        }
        sig = n << l;
    } else {
        let s: u64 = q + 149 - t;
        if s >= 64 {
            proof {
                lemma_round_tiny(n as int, t as nat);
            }
            return 0;
        }
        let floor: u64 = n >> s;
        proof {
            let ps = pow2(s as nat) as int;
            lemma_pow2_pos(s as nat);
            vstd::bits::lemma_u64_shr_is_div(n, s);
            vstd::arithmetic::div_mod::lemma_fundamental_div_mod(n as int, ps);
            vstd::arithmetic::div_mod::lemma_mod_pos_bound(n as int, ps);
            assert(floor * ps == ps * floor) by (nonlinear_arith);
            vstd::bits::lemma_u64_shl_is_mul(floor, s);
            vstd::arithmetic::power2::lemma_pow2_unfold(s as nat);
            vstd::bits::lemma_u64_pow2_no_overflow((s - 1) as nat);
            vstd::bits::lemma_u64_shl_is_mul(1, (s - 1) as u64);
        }
        let rest: u64 = n - (floor << s);
        let half: u64 = 1u64 << (s - 1);
        let round_up: bool = rest > half || (rest == half && floor % 2 == 1);
        proof {
            lemma_round_inexact(
                n as int,
                t as nat,
                len as int,
                q as int,
                s as nat,
                floor as int,
                rest as int,
                round_up,
            );
        }
        sig = if round_up {
            floor + 1
        } else {
            floor
        };
    }
    proof {
        lemma_units_of_packed(q as int, sig as int);
    }
    (q * 0x80_0000 + sig) as u32
}

} // verus!
