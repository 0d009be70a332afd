//! Division, stated as the rounding of the exact quotient.
use crate::ieee::arith::split;
use crate::ieee::format::{
    infinite, is_sign_negative, lemma_units_increasing, lemma_units_of_small, magnitude,
    magnitude_of, nan, sign_negative, signed, units, with_sign, zero, INFINITY, QUIET_NAN,
};
use crate::ieee::inexact::{lemma_nearest_even_with_sticky, sticky};
use crate::ieee::round::{
    bit_length, is_bit_length, lemma_nearest_even_from_below, lemma_round_nearest_even,
    lemma_scaled_order, nearest_even, round_nearest_even, round_scaled, unit_denominator,
};
use vstd::arithmetic::power2::{
    lemma2_to64, lemma2_to64_rest, lemma_pow2_adds, lemma_pow2_pos, lemma_pow2_strictly_increases,
    pow2,
};
use vstd::prelude::*;

verus! {

/// The pattern of `1.0`.
pub const ONE: u32 = 0x3f80_0000;

/// The quotient of two numbers. An operand that is not a number, infinity by
/// infinity and zero by zero give the quiet NaN. Otherwise the sign is
/// negative exactly when the signs differ; an infinity divided by a finite
/// number and a non-zero number divided by zero are infinite, a finite number
/// divided by an infinity is zero, and the quotient of finite numbers is the
/// exact quotient rounded to nearest, ties to even.
pub open spec fn quotient(a: u32, b: u32) -> u32 {
    let negative = sign_negative(a) != sign_negative(b);
    if nan(a) || nan(b) {
        QUIET_NAN
    } else if infinite(a) {
        if infinite(b) {
            QUIET_NAN
        } else {
            signed(negative, INFINITY)
        }
    } else if infinite(b) {
        signed(negative, 0)
    } else if zero(b) {
        if zero(a) {
            QUIET_NAN
        } else {
            signed(negative, INFINITY)
        }
    } else {
        signed(
            negative,
            round_nearest_even(
                units(magnitude(a) as int) * unit_denominator(),
                units(magnitude(b) as int),
            ) as u32,
        )
    }
}

/// The inverse of a number: one divided by it.
pub open spec fn inverse(b: u32) -> u32 {
    quotient(ONE, b)
}

/// The whole quotient of two significands, the first of which was shifted so
/// that the quotient has thirty or thirty-one bits.
proof fn lemma_quotient_size(sa: int, la: int, sb: int, lb: int, k: nat, whole: int, rest: int)
    requires
        sa > 0,
        sb > 0,
        is_bit_length(sa, la),
        is_bit_length(sb, lb),
        la + k == lb + 30,
        sa * pow2(k) == sb * whole + rest,
        0 <= rest < sb,
    ensures
        0x2000_0000 <= whole < 0x8000_0000,
        is_bit_length(
            whole,
            if whole < 0x4000_0000 {
                30
            } else {
                31
            },
        ),
{
    lemma2_to64();
    let pk = pow2(k) as int;
    let low_b = pow2((lb - 1) as nat) as int;
    let high_b = pow2(lb as nat) as int;
    lemma_pow2_pos(k);
    lemma_pow2_pos((lb - 1) as nat);
    lemma_pow2_adds((la - 1) as nat, k);
    lemma_pow2_adds(la as nat, k);
    lemma_pow2_adds(lb as nat, 29);
    lemma_pow2_adds((lb - 1) as nat, 31);
    let shifted = sa * pk;
    assert(pow2((la - 1) as nat) * pk <= shifted < pow2(la as nat) * pk) by (nonlinear_arith)
        requires
            pow2((la - 1) as nat) <= sa < pow2(la as nat),
            pk > 0,
            shifted == sa * pk,
    ;
    assert(whole < 0x8000_0000) by (nonlinear_arith)
        requires
            shifted == sb * whole + rest,
            0 <= rest,
            shifted < low_b * 0x8000_0000,
            low_b <= sb,
            low_b > 0,
    ;
    assert(whole >= 0x2000_0000) by (nonlinear_arith)
        requires
            shifted == sb * whole + rest,
            rest < sb,
            shifted >= high_b * 0x2000_0000,
            0 < sb < high_b,
    ;
}

/// The exact quotient lies between the whole quotient and its successor, in
/// steps of `2^t / 2^149` units.
proof fn lemma_quotient_between(
    sa: int,
    qa: nat,
    sb: int,
    qb: nat,
    k: nat,
    whole: int,
    rest: int,
    t: nat,
)
    requires
        sb > 0,
        sa * pow2(k) == sb * whole + rest,
        0 <= rest < sb,
        k + t + qb == qa + 298,
    ensures
        ({
            let num = (sa * pow2(qa)) * unit_denominator();
            let den = sb * pow2(qb);
            &&& den > 0
            &&& (whole * pow2(t)) * den <= num * unit_denominator() < ((whole + 1) * pow2(t))
                * den
            &&& (rest != 0) == ((whole * pow2(t)) * den != num * unit_denominator())
        }),
{
    let d = unit_denominator();
    let pk = pow2(k) as int;
    let pt = pow2(t) as int;
    let pa = pow2(qa) as int;
    let pb = pow2(qb) as int;
    lemma_pow2_pos(t);
    lemma_pow2_pos(qb);
    lemma_pow2_adds(k, t);
    lemma_pow2_adds(k + t, qb);
    lemma_pow2_adds(qa, 149);
    lemma_pow2_adds(qa + 149, 149);
    assert((pk * pt) * pb == (pa * d) * d);
    let c = pt * pb;
    assert(c > 0) by (nonlinear_arith)
        requires
            c == pt * pb,
            pt > 0,
            pb > 0,
    ;
    let shifted = sa * pk;
    assert(((sa * pa) * d) * d == shifted * c) by (nonlinear_arith)
        requires
            (pk * pt) * pb == (pa * d) * d,
            shifted == sa * pk,
            c == pt * pb,
    ;
    assert((whole * pt) * (sb * pb) == (sb * whole) * c && ((whole + 1) * pt) * (sb * pb) == (sb
        * whole + sb) * c) by (nonlinear_arith)
        requires
            c == pt * pb,
    ;
    assert(sb * pb > 0) by (nonlinear_arith)
        requires
            sb > 0,
            pb > 0,
    ;
    lemma_scaled_order(sb * whole, shifted, c);
    lemma_scaled_order(shifted, sb * whole + sb, c);
}

/// A quotient below half a unit rounds to zero.
proof fn lemma_quotient_tiny(sa: int, qa: nat, sb: int, qb: nat, k: nat, whole: int, rest: int)
    requires
        sa >= 0,
        sb > 0,
        sa * pow2(k) == sb * whole + rest,
        0 <= rest < sb,
        whole < 0x8000_0000,
        qa + 298 <= qb + k,
        k <= 53,
    ensures
        nearest_even((sa * pow2(qa)) * unit_denominator(), sb * pow2(qb), 0),
{
    let d = unit_denominator();
    let pk = pow2(k) as int;
    let pa = pow2(qa) as int;
    let pb = pow2(qb) as int;
    let num = (sa * pa) * d;
    let den = sb * pb;
    lemma2_to64();
    lemma_pow2_pos(k);
    lemma_pow2_pos(qa);
    lemma_pow2_pos(qb);
    lemma_pow2_pos(149);
    // 2^k * 2^qa * 2^149 * 2 * 2^31 <= 2^k * 2^qb
    lemma_pow2_adds(qa, 149);
    lemma_pow2_adds(qa + 149, 32);
    lemma_pow2_adds(k, (qa + 298 - k) as nat);
    if qa + 181 < qa + 298 {
        lemma_pow2_strictly_increases(qa + 181, qa + 298);
    }
    if qa + 298 - k < qb {
        lemma_pow2_strictly_increases((qa + 298 - k) as nat, qb);
    }
    let low_b = pow2((qa + 298 - k) as nat) as int;
    assert((pa * d) * 0x1_0000_0000 <= pk * low_b);
    assert(low_b <= pb);
    let shifted = sa * pk;
    assert(shifted < 0x8000_0000 * sb) by (nonlinear_arith)
        requires
            shifted == sb * whole + rest,
            rest < sb,
            whole < 0x8000_0000,
            sb > 0,
    ;
    assert((2 * num) * pk <= den * pk) by (nonlinear_arith)
        requires
            num == (sa * pa) * d,
            den == sb * pb,
            shifted == sa * pk,
            0 <= shifted < 0x8000_0000 * sb,
            (pa * d) * 0x1_0000_0000 <= pk * low_b,
            low_b <= pb,
            sb > 0,
            pa > 0,
            d > 0,
            pk > 0,
            sa >= 0,
    ;
    lemma_scaled_order(2 * num, den, pk);
    assert(den > 0) by (nonlinear_arith)
        requires
            den == sb * pb,
            sb > 0,
            pb > 0,
    ;
    assert(num >= 0) by (nonlinear_arith)
        requires
            num == (sa * pa) * d,
            sa >= 0,
            pa > 0,
            d > 0,
    ;
    lemma_units_of_small(0);
    lemma_units_of_small(1);
    assert(units(0) * den == 0);
    assert((units(1) - units(0)) * den == den);
    assert(units(1) * den == den);
    lemma_nearest_even_from_below(num, den, 0, false);
}

/// Divides the first number by the second.
pub fn divide(a: u32, b: u32) -> (result: u32)
    ensures
        result == quotient(a, b),
{
    let ma: u32 = magnitude_of(a);
    let mb: u32 = magnitude_of(b);
    let negative: bool = is_sign_negative(a) != is_sign_negative(b);
    if ma > INFINITY || mb > INFINITY {
        return QUIET_NAN;
    }
    if ma == INFINITY {
        if mb == INFINITY {
            return QUIET_NAN;
        }
        return with_sign(negative, INFINITY);
    }
    if mb == INFINITY {
        return with_sign(negative, 0);
    }
    if mb == 0 {
        if ma == 0 {
            return QUIET_NAN;
        }
        return with_sign(negative, INFINITY);
    }
    let (sa, qa) = split(ma);
    let (sb, qb) = split(mb);
    let ghost num = units(ma as int) * unit_denominator();
    let ghost den = units(mb as int);
    proof {
        lemma2_to64();
        lemma2_to64_rest();
        lemma_pow2_pos(149);
        lemma_units_increasing(0, mb as int);
        lemma_units_of_small(0);
    }
    if ma == 0 {
        proof {
            lemma_units_of_small(1);
            assert(units(0) * den == 0);
            assert((units(1) - units(0)) * den == den);
            assert(units(1) * den == den);
            assert(num == 0) by (nonlinear_arith)
                requires
                    num == units(ma as int) * unit_denominator(),
                    units(ma as int) == 0,
            ;
            lemma_nearest_even_from_below(0, den, 0, false);
            lemma_round_nearest_even(num, den, 0);
        }
        return with_sign(negative, 0);
    }
    let la: u64 = bit_length(sa);
    let lb: u64 = bit_length(sb);
    let k: u64 = 30 + lb - la;
    proof {
        lemma_pow2_adds(la as nat, k as nat);
        if lb + 30 < 54 {
            lemma_pow2_strictly_increases((lb + 30) as nat, 54);
        }
        lemma_pow2_pos(k as nat);
        assert(sa * pow2(k as nat) < pow2(la as nat) * pow2(k as nat)) by (nonlinear_arith)
            requires
                sa < pow2(la as nat),
                pow2(k as nat) > 0,
        ;
        vstd::bits::lemma_u64_shl_is_mul(sa, k);
    }
    let shifted: u64 = sa << k;
    let whole: u64 = shifted / sb;
    let rest: u64 = shifted % sb;
    proof {
        vstd::arithmetic::div_mod::lemma_fundamental_div_mod(shifted as int, sb as int);
        vstd::arithmetic::div_mod::lemma_mod_pos_bound(shifted as int, sb as int);
        lemma_quotient_size(
            sa as int,
            la as int,
            sb as int,
            lb as int,
            k as nat,
            whole as int,
            rest as int,
        );
    }
    let up: u64 = qa + 298;
    let down: u64 = qb + k;
    if up <= down {
        proof {
            lemma_quotient_tiny(
                sa as int,
                qa as nat,
                sb as int,
                qb as nat,
                k as nat,
                whole as int,
                rest as int,
            );
            lemma_round_nearest_even(num, den, 0);
        }
        return with_sign(negative, 0);
    }
    let t: u64 = up - down;
    let inexact: bool = rest != 0;
    let odd: u64 = if inexact {
        1
    } else {
        0
    };
    let mag: u32 = round_scaled(2 * whole + odd, t - 1);
    proof {
        lemma_quotient_between(
            sa as int,
            qa as nat,
            sb as int,
            qb as nat,
            k as nat,
            whole as int,
            rest as int,
            t as nat,
        );
        let len: int = if whole < 0x4000_0000 {
            30
        } else {
            31
        };
        assert(odd == sticky(inexact));
        lemma_nearest_even_with_sticky(
            num,
            den,
            whole as int,
            t as nat,
            len,
            inexact,
            mag as int,
        );
        lemma_round_nearest_even(num, den, mag as int);
    }
    with_sign(negative, mag)
}

/// One divided by the number.
pub fn invert(b: u32) -> (result: u32)
    ensures
        result == inverse(b),
{
    divide(ONE, b)
}

} // verus!
