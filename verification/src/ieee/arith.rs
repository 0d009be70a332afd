//! Multiplication, addition and subtraction, each stated as the rounding of
//! the exact result.
use crate::ieee::format::{
    finite, infinite, is_sign_negative, lemma_units_increasing, lemma_units_step, magnitude,
    magnitude_of, nan, negate, negated, scale, sign_negative, signed, signed_units, significand,
    units, with_sign, zero, HIDDEN_BIT, INFINITY, QUIET_NAN,
};
use crate::ieee::round::{
    lemma_nearest_even_of_equal_fractions, lemma_round_nearest_even, nearest_even,
    round_nearest_even, round_scaled, unit_denominator,
};
use vstd::arithmetic::power2::{
    lemma2_to64, lemma2_to64_rest, lemma_pow2_adds, lemma_pow2_pos, lemma_pow2_strictly_increases,
    pow2,
};
use vstd::prelude::*;

verus! {

/// The product of two numbers. An operand that is not a number, or zero
/// times infinity, gives the quiet NaN. Otherwise the sign is negative
/// exactly when the signs differ, and the magnitude is the exact product
/// rounded to nearest, ties to even; infinity times a non-zero number is
/// infinity.
pub open spec fn product(a: u32, b: u32) -> u32 {
    let negative = sign_negative(a) != sign_negative(b);
    if nan(a) || nan(b) {
        QUIET_NAN
    } else if infinite(a) || infinite(b) {
        if zero(a) || zero(b) {
            QUIET_NAN
        } else {
            signed(negative, INFINITY)
        }
    } else {
        signed(
            negative,
            round_nearest_even(
                units(magnitude(a) as int) * units(magnitude(b) as int),
                unit_denominator(),
            ) as u32,
        )
    }
}

/// The sum of two finite numbers: the exact sum rounded to nearest, ties to
/// even, with the sign of the exact sum. An exact zero is positive unless
/// both operands are negative.
pub open spec fn finite_sum(a: u32, b: u32) -> u32 {
    let exact = signed_units(a) + signed_units(b);
    if exact == 0 {
        signed(sign_negative(a) && sign_negative(b), 0)
    } else if exact > 0 {
        signed(false, round_nearest_even(exact, 1) as u32)
    } else {
        signed(true, round_nearest_even(-exact, 1) as u32)
    }
}

/// The sum of two numbers. An operand that is not a number, or the sum of
/// the two infinities of opposite sign, gives the quiet NaN; an infinity plus
/// anything else is that infinity; finite numbers add as [`finite_sum`] says.
pub open spec fn sum(a: u32, b: u32) -> u32 {
    if nan(a) || nan(b) {
        QUIET_NAN
    } else if infinite(a) && infinite(b) {
        if sign_negative(a) == sign_negative(b) {
            a
        } else {
            QUIET_NAN
        }
    } else if infinite(a) {
        a
    } else if infinite(b) {
        b
    } else {
        finite_sum(a, b)
    }
}

/// The difference of two numbers: the sum of the first and the negated
/// second.
pub open spec fn difference(a: u32, b: u32) -> u32 {
    sum(a, negated(b))
}

/// The significand and the scale of a finite magnitude.
pub fn split(mag: u32) -> (parts: (u64, u64))
    requires
        mag < INFINITY,
    ensures
        parts.0 == significand(mag as int),
        parts.1 == scale(mag as int),
        units(mag as int) == parts.0 * pow2(parts.1 as nat),
        parts.0 < 2 * HIDDEN_BIT,
        parts.1 <= 253,
        parts.1 > 0 ==> parts.0 >= HIDDEN_BIT,
        mag > 0 ==> parts.0 > 0,
{
    if mag < HIDDEN_BIT {
        (mag as u64, 0)
    } else {
        ((HIDDEN_BIT + mag % HIDDEN_BIT) as u64, (mag / HIDDEN_BIT - 1) as u64)
    }
}

/// The product of two scaled whole numbers is the product of the numbers at
/// the sum of the scales.
proof fn lemma_product_of_scaled(sa: int, qa: nat, sb: int, qb: nat)
    ensures
        (sa * pow2(qa)) * (sb * pow2(qb)) == (sa * sb) * pow2(qa + qb),
{
    lemma_pow2_adds(qa, qb);
    let pa = pow2(qa) as int;
    let pb = pow2(qb) as int;
    assert((sa * pa) * (sb * pb) == (sa * sb) * (pa * pb)) by (nonlinear_arith);
}

/// Multiplies two numbers.
pub fn multiply(a: u32, b: u32) -> (result: u32)
    ensures
        result == product(a, b),
{
    let ma: u32 = magnitude_of(a);
    let mb: u32 = magnitude_of(b);
    let negative: bool = is_sign_negative(a) != is_sign_negative(b);
    if ma > INFINITY || mb > INFINITY {
        return QUIET_NAN;
    }
    if ma == INFINITY || mb == INFINITY {
        if ma == 0 || mb == 0 {
            return QUIET_NAN;
        }
        return with_sign(negative, INFINITY);
    }
    let (sa, qa) = split(ma);
    let (sb, qb) = split(mb);
    proof {
        lemma2_to64();
        assert(sa * sb < 0x1_0000_0000_0000) by (nonlinear_arith)
            requires
                sa < 0x100_0000,
                sb < 0x100_0000,
        ;
    }
    let n: u64 = sa * sb;
    let mag: u32 = round_scaled(n, qa + qb);
    proof {
        lemma_product_of_scaled(sa as int, qa as nat, sb as int, qb as nat);
        lemma_pow2_pos(149);
        lemma_round_nearest_even(
            units(ma as int) * units(mb as int),
            unit_denominator(),
            mag as int,
        );
    }
    with_sign(negative, mag)
}

/// Two scaled whole numbers brought to the lower scale.
proof fn lemma_aligned(sa: int, qa: nat, sb: int, qb: nat, d: nat)
    requires
        qa == qb + d,
    ensures
        sa * pow2(qa) + sb * pow2(qb) == (sa * pow2(d) + sb) * pow2(qb),
        sa * pow2(qa) - sb * pow2(qb) == (sa * pow2(d) - sb) * pow2(qb),
        (sa * pow2(d) + sb) * pow2(qb + 149) == (sa * pow2(qa) + sb * pow2(qb))
            * unit_denominator(),
        (sa * pow2(d) - sb) * pow2(qb + 149) == (sa * pow2(qa) - sb * pow2(qb))
            * unit_denominator(),
        sa * pow2(qa) >= sb * pow2(qb) ==> sa * pow2(d) >= sb,
{
    lemma_pow2_adds(d, qb);
    lemma_pow2_adds(qb, 149);
    lemma_pow2_pos(qb);
    let pd = pow2(d) as int;
    let pb = pow2(qb) as int;
    let den = pow2(149) as int;
    assert(sa * (pd * pb) + sb * pb == (sa * pd + sb) * pb) by (nonlinear_arith);
    assert(sa * (pd * pb) - sb * pb == (sa * pd - sb) * pb) by (nonlinear_arith);
    assert((sa * pd + sb) * (pb * den) == ((sa * pd + sb) * pb) * den) by (nonlinear_arith);
    assert((sa * pd - sb) * (pb * den) == ((sa * pd - sb) * pb) * den) by (nonlinear_arith);
    assert((sa * pd - sb) * pb >= 0 ==> sa * pd - sb >= 0) by (nonlinear_arith)
        requires
            pb > 0,
    ;
}

/// A number so small beside another that adding or subtracting it leaves
/// the other as the rounded result.
proof fn lemma_absorbed(big: int, small_units: int, add: bool)
    requires
        0 < big < INFINITY,
        scale(big) >= 2,
        0 <= small_units < pow2((scale(big) - 2) as nat),
    ensures
        nearest_even(
            if add {
                units(big) + small_units
            } else {
                units(big) - small_units
            },
            1,
            big,
        ),
{
    let q = scale(big);
    lemma_units_step(big);
    lemma_units_step(big - 1);
    lemma_units_increasing(big - 1, big);
    vstd::arithmetic::power2::lemma_pow2_unfold(q);
    vstd::arithmetic::power2::lemma_pow2_unfold((q - 1) as nat);
    lemma_pow2_pos((q - 2) as nat);
    let h = HIDDEN_BIT as int;
    assert(scale(big - 1) >= q - 1) by {
        assert((big - 1) / h >= big / h - 1) by (nonlinear_arith)
            requires
                big >= 1,
                h == 0x80_0000,
        ;
    }
    if scale(big - 1) > q - 1 {
        lemma_pow2_strictly_increases((q - 1) as nat, scale(big - 1));
    }
}

/// Adds two finite numbers of which the first is at least as large in
/// magnitude as the second.
fn plus_ordered(a: u32, b: u32) -> (result: u32)
    requires
        finite(a),
        finite(b),
        magnitude(a) >= magnitude(b),
    ensures
        result == finite_sum(a, b),
{
    let ma: u32 = magnitude_of(a);
    let mb: u32 = magnitude_of(b);
    let negative: bool = is_sign_negative(a);
    let same_sign: bool = negative == is_sign_negative(b);
    let (sa, qa) = split(ma);
    let (sb, qb) = split(mb);
    let ghost ua = units(ma as int);
    let ghost ub = units(mb as int);
    let ghost exact = signed_units(a) + signed_units(b);
    proof {
        lemma2_to64();
        lemma2_to64_rest();
        lemma_units_increasing(mb as int, ma as int);
        lemma_units_increasing(0, mb as int);
        lemma_pow2_pos(149);
    }
    let d: u64 = qa - qb;
    if d > 38 {
        proof {
            lemma_pow2_adds(24, qb as nat);
            lemma_pow2_pos(qb as nat);
            assert(sb * pow2(qb as nat) < pow2(24) * pow2(qb as nat)) by (nonlinear_arith)
                requires
                    sb < pow2(24),
                    pow2(qb as nat) > 0,
            ;
            lemma_pow2_strictly_increases((24 + qb) as nat, (qa - 2) as nat);
            lemma_absorbed(ma as int, ub, same_sign);
            lemma_round_nearest_even(
                if same_sign {
                    ua + ub
                } else {
                    ua - ub
                },
                1,
                ma as int,
            );
            lemma_units_increasing(0, ma as int);
        }
        return with_sign(negative, ma);
    }
    proof {
        lemma_aligned(sa as int, qa as nat, sb as int, qb as nat, d as nat);
        if d < 38 {
            lemma_pow2_strictly_increases(d as nat, 38);
        }
        assert(sa * pow2(d as nat) <= 0xff_ffff * 0x40_0000_0000) by (nonlinear_arith)
            requires
                sa <= 0xff_ffff,
                pow2(d as nat) <= 0x40_0000_0000,
        ;
        vstd::bits::lemma_u64_shl_is_mul(sa, d);
    }
    let shifted: u64 = sa << d;
    let n: u64 = if same_sign {
        shifted + sb
    } else {
        shifted - sb
    };
    let mag: u32 = round_scaled(n, qb + 149);
    proof {
        let whole = if same_sign {
            ua + ub
        } else {
            ua - ub
        };
        assert(n * pow2((qb + 149) as nat) == whole * unit_denominator());
        lemma_nearest_even_of_equal_fractions(whole, 1, mag as int, unit_denominator());
        assert(whole * 1 == whole);
        assert(1 * unit_denominator() == unit_denominator());
        lemma_round_nearest_even(whole, 1, mag as int);
        if whole == 0 {
            lemma_nearest_even_zero();
            crate::ieee::round::lemma_nearest_even_unique(0, 1, 0, mag as int);
        }
    }
    if n == 0 {
        proof {
            lemma_pow2_pos(qb as nat);
            assert(n * pow2(qb as nat) == 0) by (nonlinear_arith)
                requires
                    n == 0,
            ;
        }
        with_sign(negative && same_sign, 0)
    } else {
        proof {
            lemma_pow2_pos(qb as nat);
            assert(n * pow2(qb as nat) > 0) by (nonlinear_arith)
                requires
                    n > 0,
                    pow2(qb as nat) > 0,
            ;
        }
        with_sign(negative, mag)
    }
}

/// Zero rounds to zero.
proof fn lemma_nearest_even_zero()
    ensures
        nearest_even(0, 1, 0),
{
    crate::ieee::format::lemma_units_of_small(0);
    crate::ieee::format::lemma_units_of_small(1);
}

/// Adds two numbers.
pub fn plus(a: u32, b: u32) -> (result: u32)
    ensures
        result == sum(a, b),
{
    let ma: u32 = magnitude_of(a);
    let mb: u32 = magnitude_of(b);
    if ma > INFINITY || mb > INFINITY {
        return QUIET_NAN;
    }
    if ma == INFINITY {
        if mb == INFINITY && is_sign_negative(a) != is_sign_negative(b) {
            return QUIET_NAN;
        }
        return a;
    }
    if mb == INFINITY {
        return b;
    }
    if ma >= mb {
        plus_ordered(a, b)
    } else {
        plus_ordered(b, a)
    }
}

/// Subtracts the second number from the first.
pub fn minus(a: u32, b: u32) -> (result: u32)
    ensures
        result == difference(a, b),
{
    plus(a, negate(b))
}

} // verus!
