//! Comparing positive double-precision numbers by their whole parts, three
//! ways: with a precondition, with an [`Option`], and with a type that
//! carries the check. A number is the `u64` that holds its 64 bits.
//!
//! The module ends with the two ends of the type lattice: a type that every
//! type fits, and types without values.
use std::cmp::Ordering;
use vstd::arithmetic::power2::{lemma2_to64, lemma2_to64_rest, pow2};
use vstd::prelude::*;

verus! {

/// The sign bit of a double-precision pattern.
pub const DOUBLE_SIGN_BIT: u64 = 0x8000_0000_0000_0000;

/// The weight of the least exponent bit of a double-precision pattern, which
/// is also the hidden leading bit of a normal significand: `2^52`.
pub const DOUBLE_HIDDEN_BIT: u64 = 0x0010_0000_0000_0000;

/// The pattern of `2^32`, the least positive number whose whole part does
/// not fit in a `u32`.
pub const DOUBLE_TWO_TO_32: u64 = 0x41f0_0000_0000_0000;

/// Whether the sign bit of the pattern is clear.
pub open spec fn sign_positive(bits: u64) -> bool {
    bits < DOUBLE_SIGN_BIT
}

/// Whether the pattern is that of a positive number below `2^32`: its whole
/// part is a `u32`. Infinity and NaN lie above.
pub open spec fn fits_u32(bits: u64) -> bool {
    bits < DOUBLE_TWO_TO_32
}

/// The whole part of a positive finite number: its value rounded towards
/// zero. A number of exponent field `e >= 1` and fraction `f` is
/// `(2^52 + f) * 2^(e - 1075)`; below exponent field 1023 it is less than one.
pub open spec fn whole_part(bits: u64) -> int {
    let e = bits as int / DOUBLE_HIDDEN_BIT as int;
    let sig = DOUBLE_HIDDEN_BIT as int + bits as int % DOUBLE_HIDDEN_BIT as int;
    if e < 1023 {
        0
    } else if e <= 1075 {
        sig / pow2((1075 - e) as nat) as int
    } else {
        sig * pow2((e - 1075) as nat)
    }
}

/// The whole part of a positive number below `2^32` as a `u32`.
pub open spec fn whole(bits: u64) -> u32 {
    whole_part(bits) as u32
}

/// Whether the sign bit of the pattern is clear.
pub fn is_sign_positive(bits: u64) -> (answer: bool)
    ensures
        answer == sign_positive(bits),
{
    bits < DOUBLE_SIGN_BIT
}

/// The whole part of a positive number below `2^32`.
pub fn truncate(bits: u64) -> (whole: u32)
    requires
        fits_u32(bits),
    ensures
        whole == whole_part(bits),
        whole == self::whole(bits),
{
    let e: u64 = bits / DOUBLE_HIDDEN_BIT;
    if e < 1023 {
        return 0;
    }
    let sig: u64 = DOUBLE_HIDDEN_BIT + bits % DOUBLE_HIDDEN_BIT;
    let shift: u64 = 1075 - e;
    proof {
        lemma2_to64();
        lemma2_to64_rest();
        vstd::bits::lemma_u64_shr_is_div(sig, shift);
        if shift > 21 {
            vstd::arithmetic::power2::lemma_pow2_strictly_increases(21, shift as nat);
        }
        let p = pow2(shift as nat) as int;
        assert(sig as int / p < 0x1_0000_0000) by (nonlinear_arith)
            requires
                0 <= sig < 0x20_0000_0000_0000,
                p >= 0x20_0000,
        ;
    }
    (sig >> shift) as u32
}

/// How two whole numbers compare.
pub open spec fn compared(a: u32, b: u32) -> Ordering {
    if a < b {
        Ordering::Less
    } else if a == b {
        Ordering::Equal
    } else {
        Ordering::Greater
    }
}

/// Compares two whole parts.
fn compare_whole(a: u32, b: u32) -> (order: Ordering)
    ensures
        order == compared(a, b),
{
    if a < b {
        Ordering::Less
    } else if a == b {
        Ordering::Equal
    } else {
        Ordering::Greater
    }
}

/// Compares the whole parts of two positive numbers below `2^32`. It is for
/// the caller to see that the numbers are such.
pub fn cmp_f64(a: u64, b: u64) -> (order: Ordering)
    requires
        fits_u32(a),
        fits_u32(b),
    ensures
        order == compared(whole(a), whole(b)),
{
    compare_whole(truncate(a), truncate(b))
}

/// Compares the whole parts of two numbers if both are positive. Positive
/// numbers must be below `2^32`.
pub fn better_cmp_f64(a: u64, b: u64) -> (order: Option<Ordering>)
    requires
        sign_positive(a) && sign_positive(b) ==> fits_u32(a) && fits_u32(b),
    ensures
        sign_positive(a) && sign_positive(b) ==> order == Some(compared(whole(a), whole(b))),
        !(sign_positive(a) && sign_positive(b)) ==> order.is_none(),
{
    if !is_sign_positive(a) || !is_sign_positive(b) {
        return None;
    }
    Some(compare_whole(truncate(a), truncate(b)))
}

/// A number that was checked to be positive.
#[derive(Clone, Copy, Debug)]
pub struct Positive(u64);

impl View for Positive {
    type V = u64;

    /// The bit pattern of the number.
    closed spec fn view(&self) -> u64 {
        self.0
    }
}

impl Positive {
    /// The sign bit of every number of this type is clear.
    #[verifier::type_invariant]
    spec fn is_positive(&self) -> bool {
        sign_positive(self.0)
    }

    /// Wraps `number` if its sign bit is clear.
    pub fn new(number: u64) -> (made: Option<Self>)
        ensures
            sign_positive(number) ==> made.is_some() && made.unwrap()@ == number,
            !sign_positive(number) ==> made.is_none(),
    {
        if !is_sign_positive(number) {
            return None;
        }
        Some(Self(number))
    }

    /// The whole part of the number, which must be below `2^32`.
    #[inline(always)]
    pub fn as_u32(&self) -> (whole: u32)
        requires
            fits_u32(self@),
        ensures
            whole == whole_part(self@),
            whole == self::whole(self@),
    {
        truncate(self.0)
    }

    /// The bit pattern of the number, whose sign bit is clear.
    pub fn inner(&self) -> (bits: u64)
        ensures
            bits == self@,
            sign_positive(bits),
    {
        proof {
            use_type_invariant(self);
        }
        self.0
    }
}

/// Compares the whole parts of two checked numbers below `2^32`.
pub fn safe_cmp_f64(a: Positive, b: Positive) -> (order: Ordering)
    requires
        fits_u32(a@),
        fits_u32(b@),
    ensures
        order == compared(whole(a@), whole(b@)),
{
    compare_whole(a.as_u32(), b.as_u32())
}

/// A field of the most general type there is: a type parameter without even
/// the bound that its size is known.
pub struct TopTypeExample<T: ?Sized> {
    pub top_type: T,
}

/// A marker for the types that have no value: the never type, an enum without
/// variants, and the statements that yield nothing.
pub struct BottomTypeExample;

} // verus!
