//! The layout of a single-precision number, the classes of numbers, and the
//! value of a finite number in units of `2^-149`.
use vstd::arithmetic::power2::{lemma_pow2_pos, lemma_pow2_unfold, pow2};
use vstd::prelude::*;

verus! {

/// The sign bit.
pub const SIGN_BIT: u32 = 0x8000_0000;

/// The pattern of positive infinity: the least magnitude that is not finite.
pub const INFINITY: u32 = 0x7f80_0000;

/// The quiet not-a-number that every invalid operation returns.
pub const QUIET_NAN: u32 = 0x7fc0_0000;

/// The weight of the least exponent bit, which is also the hidden leading
/// bit of a normal number's significand: `2^23`.
pub const HIDDEN_BIT: u32 = 0x0080_0000;

/// Whether the sign bit is set.
pub open spec fn sign_negative(bits: u32) -> bool {
    bits >= SIGN_BIT
}

/// The pattern without its sign bit. Among numbers that are not NaN, a larger
/// magnitude pattern is a larger absolute value.
pub open spec fn magnitude(bits: u32) -> u32 {
    if bits >= SIGN_BIT {
        (bits - SIGN_BIT) as u32
    } else {
        bits
    }
}

/// The pattern of magnitude `mag` with the given sign.
pub open spec fn signed(negative: bool, mag: u32) -> u32
    recommends
        mag < SIGN_BIT,
{
    if negative {
        (mag + SIGN_BIT) as u32
    } else {
        mag
    }
}

/// The same number with the opposite sign.
pub open spec fn negated(bits: u32) -> u32 {
    signed(!sign_negative(bits), magnitude(bits))
}

/// Not a number.
pub open spec fn nan(bits: u32) -> bool {
    magnitude(bits) > INFINITY
}

/// Positive or negative infinity.
pub open spec fn infinite(bits: u32) -> bool {
    magnitude(bits) == INFINITY
}

/// Zero, subnormal or normal.
pub open spec fn finite(bits: u32) -> bool {
    magnitude(bits) < INFINITY
}

/// Positive or negative zero.
pub open spec fn zero(bits: u32) -> bool {
    magnitude(bits) == 0
}

/// Neither zero, subnormal, infinite nor NaN.
pub open spec fn normal(bits: u32) -> bool {
    HIDDEN_BIT <= magnitude(bits) < INFINITY
}

/// Whether two numbers are equal as numbers: neither is NaN, and they are
/// the same pattern or both zero.
pub open spec fn equal(a: u32, b: u32) -> bool {
    !nan(a) && !nan(b) && (a == b || (zero(a) && zero(b)))
}

/// The significand of the finite magnitude `mag` as a whole number: the
/// fraction bits, with the hidden bit on top unless the number is subnormal.
pub open spec fn significand(mag: int) -> int {
    if mag < HIDDEN_BIT {
        mag
    } else {
        HIDDEN_BIT + mag % (HIDDEN_BIT as int)
    }
}

/// The power of two by which the significand of `mag` is scaled, counted from
/// the unit: zero for subnormals and for the lowest normal binade.
pub open spec fn scale(mag: int) -> nat {
    if mag < 2 * HIDDEN_BIT {
        0
    } else {
        (mag / (HIDDEN_BIT as int) - 1) as nat
    }
}

/// The value of the magnitude `mag` in units of `2^-149`. It is meant for
/// `0 <= mag <= INFINITY`, where the pattern of infinity stands for `2^128`,
/// the first power of two that is too large to be represented.
pub open spec fn units(mag: int) -> int {
    significand(mag) * pow2(scale(mag))
}

/// The value of a finite number in units of `2^-149`, with its sign.
pub open spec fn signed_units(bits: u32) -> int {
    if sign_negative(bits) {
        -units(magnitude(bits) as int)
    } else {
        units(magnitude(bits) as int)
    }
}

/// The pattern that holds the significand `sig` at the scale `q`.
pub open spec fn packed(q: int, sig: int) -> int {
    q * HIDDEN_BIT + sig
}

/// A significand and a scale that fit together pack into the pattern that
/// has them: a subnormal significand goes with scale zero, a normal one may
/// even be `2^24`, which carries into the next binade.
pub proof fn lemma_units_of_packed(q: int, sig: int)
    requires
        0 <= q <= 253,
        0 <= sig <= 2 * HIDDEN_BIT,
        q > 0 ==> sig >= HIDDEN_BIT,
    ensures
        0 <= packed(q, sig) <= INFINITY,
        units(packed(q, sig)) == sig * pow2(q as nat),
        sig < 2 * HIDDEN_BIT ==> scale(packed(q, sig)) == q,
        packed(q, sig) % 2 == sig % 2,
{
    let m = packed(q, sig);
    if sig < HIDDEN_BIT {
        assert(q == 0);
        assert(pow2(0) == 1) by {
            vstd::arithmetic::power2::lemma2_to64();
        }
    } else if sig < 2 * HIDDEN_BIT {
        let h = HIDDEN_BIT as int;
        assert(m == (q + 1) * h + (sig - h));
        assert(m / h == q + 1 && m % h == sig - h) by (nonlinear_arith)
            requires
                m == (q + 1) * h + (sig - h),
                0 <= sig - h < h,
                h > 0,
        ;
    } else {
        let h = HIDDEN_BIT as int;
        assert(m == (q + 2) * h);
        assert(m / h == q + 2 && m % h == 0) by (nonlinear_arith)
            requires
                m == (q + 2) * h,
                h > 0,
        ;
        lemma_pow2_unfold((q + 1) as nat);
        assert(h * (2 * pow2(q as nat)) == (2 * h) * pow2(q as nat)) by (nonlinear_arith);
    }
}

/// Below the second normal binade a magnitude is its own value in units.
pub proof fn lemma_units_of_small(mag: int)
    requires
        0 <= mag < 2 * HIDDEN_BIT,
    ensures
        units(mag) == mag,
        scale(mag) == 0,
{
    vstd::arithmetic::power2::lemma2_to64();
    let h = HIDDEN_BIT as int;
    if mag >= h {
        assert(mag % h == mag - h) by (nonlinear_arith)
            requires
                h <= mag < 2 * h,
        ;
    }
    assert(significand(mag) == mag);
    assert(mag * 1 == mag);
}

/// The next magnitude is larger by one unit in the last place.
pub proof fn lemma_units_step(mag: int)
    requires
        0 <= mag < INFINITY,
    ensures
        units(mag + 1) == units(mag) + pow2(scale(mag)),
{
    let h = HIDDEN_BIT as int;
    let q = scale(mag) as int;
    let sig = significand(mag);
    assert(0 <= q <= 253 && mag == packed(q, sig) && 0 <= sig < 2 * h && (q > 0 ==> sig >= h)) by {
        if mag >= h {
            assert(mag == h * (mag / h) + mag % h && 0 <= mag % h < h && 1 <= mag / h <= 254)
                by (nonlinear_arith)
                requires
                    h <= mag < 255 * h,
                    h > 0,
            ;
        }
    }
    lemma_units_of_packed(q, sig);
    lemma_units_of_packed(q, sig + 1);
    assert((sig + 1) * pow2(q as nat) == sig * pow2(q as nat) + pow2(q as nat))
        by (nonlinear_arith);
}

/// A larger magnitude has a larger value.
pub proof fn lemma_units_increasing(lo: int, hi: int)
    requires
        0 <= lo <= hi <= INFINITY,
    ensures
        0 <= units(lo) <= units(hi),
        lo < hi ==> units(lo) < units(hi),
    decreases hi - lo,
{
    lemma_pow2_pos(scale(lo));
    assert(0 <= units(lo)) by (nonlinear_arith)
        requires
            units(lo) == significand(lo) * pow2(scale(lo)),
            significand(lo) >= 0,
            pow2(scale(lo)) > 0,
    ;
    if lo < hi {
        lemma_units_increasing(lo, hi - 1);
        lemma_units_step(hi - 1);
        lemma_pow2_pos(scale(hi - 1));
    }
}

/// Whether the sign bit is clear.
pub fn is_sign_positive(bits: u32) -> (answer: bool)
    ensures
        answer == !sign_negative(bits),
{
    bits < SIGN_BIT
}

/// Whether the sign bit is set.
pub fn is_sign_negative(bits: u32) -> (answer: bool)
    ensures
        answer == sign_negative(bits),
{
    bits >= SIGN_BIT
}

/// The pattern without its sign bit.
pub fn magnitude_of(bits: u32) -> (mag: u32)
    ensures
        mag == magnitude(bits),
        mag < SIGN_BIT,
{
    if bits >= SIGN_BIT {
        bits - SIGN_BIT
    } else {
        bits
    }
}

/// The pattern of magnitude `mag` with the given sign.
pub fn with_sign(negative: bool, mag: u32) -> (bits: u32)
    requires
        mag < SIGN_BIT,
    ensures
        bits == signed(negative, mag),
        magnitude(bits) == mag,
        sign_negative(bits) == negative,
{
    if negative {
        mag + SIGN_BIT
    } else {
        mag
    }
}

/// The same number with the opposite sign.
pub fn negate(bits: u32) -> (flipped: u32)
    ensures
        flipped == negated(bits),
        magnitude(flipped) == magnitude(bits),
        sign_negative(flipped) != sign_negative(bits),
{
    with_sign(bits < SIGN_BIT, magnitude_of(bits))
}

/// Whether the pattern is not a number.
pub fn is_nan(bits: u32) -> (answer: bool)
    ensures
        answer == nan(bits),
{
    magnitude_of(bits) > INFINITY
}

/// Whether the pattern is an infinity.
pub fn is_infinite(bits: u32) -> (answer: bool)
    ensures
        answer == infinite(bits),
{
    magnitude_of(bits) == INFINITY
}

/// Whether the pattern is zero, subnormal or normal.
pub fn is_finite(bits: u32) -> (answer: bool)
    ensures
        answer == finite(bits),
{
    magnitude_of(bits) < INFINITY
}

/// Whether two numbers are equal as numbers.
pub fn is_equal(a: u32, b: u32) -> (answer: bool)
    ensures
        answer == equal(a, b),
{
    let ma: u32 = magnitude_of(a);
    let mb: u32 = magnitude_of(b);
    ma <= INFINITY && mb <= INFINITY && (a == b || (ma == 0 && mb == 0))
}

/// Whether the pattern is a normal number: not zero, not subnormal, not
/// infinite and not NaN.
pub fn is_normal(bits: u32) -> (answer: bool)
    ensures
        answer == normal(bits),
{
    let mag: u32 = magnitude_of(bits);
    HIDDEN_BIT <= mag && mag < INFINITY
}

} // verus!
