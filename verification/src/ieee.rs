//! IEEE-754 single-precision arithmetic on bit patterns.
//!
//! A number is the `u32` that holds its 32 bits: one sign bit, eight bits of
//! exponent and twenty-three bits of fraction. Every finite number is a whole
//! multiple of the smallest subnormal, `2^-149`, here called a *unit*, and the
//! arithmetic is stated over these whole numbers: a result is the
//! representable number nearest to the exact one, ties going to the even
//! pattern.
//!
//! [`format`] lays out the patterns and gives them their values, [`round`]
//! defines the rounding and rounds values with a power of two as denominator,
//! [`inexact`] extends this to values known by a truncation and a sticky bit.
//! On these stand the operations: [`arith`] multiplies, adds and subtracts,
//! [`divide`] divides, [`root`] extracts square roots. An operation whose
//! result is not a number returns the one quiet NaN `0x7fc0_0000`; apart from
//! the bits of a NaN, the results are those of the hardware.
pub mod arith;
pub mod divide;
pub mod format;
pub mod inexact;
pub mod root;
pub mod round;
