//! The fast approximate inverse square root: a first guess read off the bit
//! pattern of the number, refined by Newton's method.
//!
//! Numbers are IEEE-754 single-precision bit patterns, and every step is the
//! arithmetic of [`crate::ieee`], so a result is determined to the last bit.
//!
//! What is proved of the results stands in the submodules. [`accuracy`]
//! bounds the first guess, [`step_ranges`] and [`step_accuracy`] follow a step
//! of Newton's method through its roundings, [`tolerance`] and [`agreement`]
//! hold the estimate against a fixed tolerance and against the computation by
//! square root and division, [`unit_length`] measures the normalized vector,
//! and [`validity`] says when the unchecked constructors and operators keep a
//! number positive and normal.
use crate::ieee::arith::{difference, minus, multiply, plus, product, sum};
use crate::ieee::divide::{inverse, invert};
use crate::ieee::format::{
    equal, is_equal, is_normal, is_sign_positive, magnitude, nan, normal, sign_negative,
    INFINITY,
};
use crate::ieee::root::{root, square_root};
use vstd::prelude::*;
use vstd::std_specs::cmp::PartialEqSpecImpl;
use vstd::std_specs::ops::{AddSpecImpl, MulSpecImpl};

pub mod accuracy;
pub mod agreement;
pub mod step_accuracy;
pub mod step_ranges;
pub mod tolerance;
pub mod unit_length;
pub mod validity;

verus! {

/// The constant from which half the pattern of a number is subtracted to get
/// the first guess.
pub const MAGIC: u32 = 0x5f37_59df;

/// The pattern of `0.5`.
pub const ONE_HALF: u32 = 0x3f00_0000;

/// The pattern of `1.5`.
pub const THREE_HALFS: u32 = 0x3fc0_0000;

/// The first guess for the inverse square root of `bits`: the magic constant
/// minus half the pattern, in arithmetic modulo `2^32`.
pub open spec fn seed(bits: u32) -> u32 {
    if bits / 2 <= MAGIC {
        (MAGIC - bits / 2) as u32
    } else {
        (MAGIC + 0x1_0000_0000 - bits / 2) as u32
    }
}

/// One step of Newton's method on the guess `y`, where `half` is half the
/// number whose inverse square root is sought: `y * (1.5 - half * y * y)`.
pub open spec fn refined(half: u32, y: u32) -> u32 {
    product(y, difference(THREE_HALFS, product(product(half, y), y)))
}

/// The guess `y` after `steps` steps of Newton's method.
pub open spec fn refined_times(half: u32, y: u32, steps: nat) -> u32
    decreases steps,
{
    if steps == 0 {
        y
    } else {
        refined(half, refined_times(half, y, (steps - 1) as nat))
    }
}

/// The number of steps that are taken when `iterations` are asked for: at
/// least one.
pub open spec fn effective_iterations(iterations: nat) -> nat {
    if iterations >= 1 {
        iterations
    } else {
        1
    }
}

/// The approximation of the inverse square root of `bits` after
/// `iterations` steps, of which at least one is always taken. Every step uses
/// the same half of the number.
pub open spec fn approximation(bits: u32, iterations: nat) -> u32 {
    refined_times(product(bits, ONE_HALF), seed(bits), effective_iterations(iterations))
}

/// Asking for no step at all gives what one step gives.
pub proof fn lemma_no_iteration_is_one_iteration(bits: u32)
    ensures
        approximation(bits, 0) == approximation(bits, 1),
{
}

/// The approximation with one step is the first guess refined once.
pub proof fn lemma_one_iteration(bits: u32)
    ensures
        approximation(bits, 1) == refined(product(bits, ONE_HALF), seed(bits)),
{
    reveal_with_fuel(refined_times, 2);
}

/// One more step refines the approximation once more.
pub proof fn lemma_next_iteration(bits: u32, iterations: nat)
    requires
        iterations >= 1,
    ensures
        approximation(bits, iterations + 1) == refined(
            product(bits, ONE_HALF),
            approximation(bits, iterations),
        ),
{
}

/// The first guess for the inverse square root of `bits`.
pub fn initial_guess(bits: u32) -> (guess: u32)
    ensures
        guess == seed(bits),
        positive_normal(bits) ==> positive_normal(guess),
{
    MAGIC.wrapping_sub(bits / 2)
}

/// One step of Newton's method.
pub fn refine(half: u32, y: u32) -> (better: u32)
    ensures
        better == refined(half, y),
{
    multiply(y, minus(THREE_HALFS, multiply(multiply(half, y), y)))
}

/// Approximates the inverse square root of `number` with one step of
/// Newton's method. Nothing is checked: the result means something for a
/// positive normal number only, and is some pattern for any other. For a
/// positive normal number it is a positive normal number within two
/// thousandths of the inverse square root, which is less than 0.005 away
/// where the number is at least one quarter.
pub fn rsqrt(number: u32) -> (estimate: u32)
    ensures
        estimate == approximation(number, 1),
        positive_normal(number) ==> positive_normal(estimate)
            && step_accuracy::close_to_inverse_root(number, estimate),
        positive_normal(number) && number >= tolerance::ONE_QUARTER
            ==> tolerance::within_five_thousandths(number, estimate),
{
    proof {
        lemma_one_iteration(number);
        if positive_normal(number) {
            step_accuracy::lemma_approximation_accuracy(number, 1);
            if number >= tolerance::ONE_QUARTER {
                tolerance::lemma_approximation_tolerance(number, 1);
            }
        }
    }
    let x2: u32 = multiply(number, ONE_HALF);
    let y: u32 = initial_guess(number);
    refine(x2, y)
}

/// A number that was checked to be positive and normal: not zero, not
/// subnormal, not infinite and not NaN. Only [`PositiveFloat::new`] checks;
/// arithmetic on checked numbers is not checked again.
#[derive(Clone, Copy, Debug)]
pub struct PositiveFloat(u32);

impl View for PositiveFloat {
    type V = u32;

    /// The bit pattern of the number.
    closed spec fn view(&self) -> u32 {
        self.0
    }
}

impl PartialEq for PositiveFloat {
    /// Equality of the numbers, not of the patterns.
    fn eq(&self, other: &Self) -> (answer: bool) {
        is_equal(self.0, other.0)
    }
}

impl PartialEqSpecImpl for PositiveFloat {
    open spec fn obeys_eq_spec() -> bool {
        true
    }

    open spec fn eq_spec(&self, other: &Self) -> bool {
        equal(self@, other@)
    }
}

/// Whether the pattern is that of a positive normal number.
pub open spec fn positive_normal(bits: u32) -> bool {
    !sign_negative(bits) && normal(bits)
}

impl PositiveFloat {
    /// The number is what the type's name says.
    pub open spec fn is_valid(&self) -> bool {
        positive_normal(self@)
    }

    /// Wraps `v` if it is positive and normal.
    #[inline]
    pub fn new(v: u32) -> (made: Option<Self>)
        ensures
            positive_normal(v) ==> made.is_some() && made.unwrap()@ == v
                && made.unwrap().is_valid(),
            !positive_normal(v) ==> made.is_none(),
    {
        if is_sign_positive(v) && is_normal(v) {
            Some(Self(v))
        } else {
            None
        }
    }

    /// Wraps the square of `x` without a check. The square is a positive
    /// normal number unless `x` is so small or so large that it is not.
    #[inline]
    pub fn from_square(x: u32) -> (square: Self)
        ensures
            square@ == product(x, x),
            validity::LEAST_SQUARABLE <= magnitude(x) < validity::LEAST_UNSQUARABLE
                ==> square.is_valid(),
    {
        proof {
            if validity::LEAST_SQUARABLE <= magnitude(x) < validity::LEAST_UNSQUARABLE {
                validity::lemma_square_is_valid(x);
            }
        }
        Self(multiply(x, x))
    }

    /// The bit pattern of the number.
    #[inline]
    pub fn inner(&self) -> (bits: u32)
        ensures
            bits == self@,
    {
        self.0
    }

    /// The inverse square root as the arithmetic gives it: the inverse of the
    /// correctly rounded square root, correctly rounded again. It is the
    /// measure that the approximation is held against.
    #[inline]
    pub fn rsqrt(&self) -> (exact: Self)
        ensures
            exact@ == inverse(root(self@)),
            self.is_valid() ==> exact.is_valid() && agreement::very_close_to_inverse_root(
                self@,
                exact@,
            ),
    {
        proof {
            if self.is_valid() {
                validity::lemma_exact_rsqrt_is_valid(self.0);
                agreement::lemma_exact_rsqrt_accuracy(self.0);
            }
        }
        Self(invert(square_root(self.0)))
    }

    /// Approximates the inverse square root with `ITERS` steps of Newton's
    /// method, and with one step where `ITERS` is zero. The estimate for a
    /// valid number is valid and within two thousandths of the inverse square
    /// root; where the number is at least one quarter, it is less than 0.005
    /// away from the inverse square root and from what
    /// [`PositiveFloat::rsqrt`] returns.
    pub fn fast_rsqrt<const ITERS: usize>(&self) -> (estimate: Self)
        ensures
            estimate@ == approximation(self@, ITERS as nat),
            self.is_valid() ==> estimate.is_valid() && step_accuracy::close_to_inverse_root(
                self@,
                estimate@,
            ),
            self.is_valid() && self@ >= tolerance::ONE_QUARTER ==> {
                &&& tolerance::within_five_thousandths(self@, estimate@)
                &&& agreement::differ_by_less_than_five_thousandths(
                    estimate@,
                    inverse(root(self@)),
                )
            },
    {
        proof {
            if self.is_valid() {
                step_accuracy::lemma_approximation_accuracy(self.0, ITERS as nat);
                if self.0 >= tolerance::ONE_QUARTER {
                    tolerance::lemma_approximation_tolerance(self.0, ITERS as nat);
                    agreement::lemma_agreement(self.0, ITERS as nat);
                }
            }
        }
        let x2: u32 = multiply(self.0, ONE_HALF);
        let i: u32 = self.0;
        let mut y: u32 = initial_guess(i);
        let steps: usize = if ITERS >= 1 {
            ITERS
        } else {
            1
        };
        let mut done: usize = 0;
        while done < steps
            invariant
                done <= steps,
                y == refined_times(x2, seed(i), done as nat),
            decreases steps - done,
        {
            y = refine(x2, y);
            done = done + 1;
        }
        Self(y)
    }
}

impl core::ops::Add for PositiveFloat {
    type Output = PositiveFloat;

    /// The sum, unchecked.
    fn add(self, rhs: PositiveFloat) -> (total: PositiveFloat)
        ensures
            total@ == sum(self@, rhs@),
            self.is_valid() && rhs.is_valid() ==> total.is_valid() || total@ == INFINITY,
    {
        proof {
            if self.is_valid() && rhs.is_valid() {
                validity::lemma_sum_is_valid_or_infinite(self.0, rhs.0);
            }
        }
        PositiveFloat(plus(self.0, rhs.0))
    }
}

impl AddSpecImpl for PositiveFloat {
    open spec fn obeys_add_spec() -> bool {
        true
    }

    open spec fn add_req(self, rhs: PositiveFloat) -> bool {
        true
    }

    closed spec fn add_spec(self, rhs: PositiveFloat) -> PositiveFloat {
        PositiveFloat(sum(self.0, rhs.0))
    }
}

impl core::ops::Mul for PositiveFloat {
    type Output = PositiveFloat;

    /// The product, unchecked.
    fn mul(self, rhs: PositiveFloat) -> (scaled: PositiveFloat)
        ensures
            scaled@ == product(self@, rhs@),
            self.is_valid() && rhs.is_valid() ==> !sign_negative(scaled@) && !nan(scaled@),
    {
        proof {
            if self.is_valid() && rhs.is_valid() {
                validity::lemma_product_is_positive(self.0, rhs.0);
            }
        }
        PositiveFloat(multiply(self.0, rhs.0))
    }
}

impl MulSpecImpl for PositiveFloat {
    open spec fn obeys_mul_spec() -> bool {
        true
    }

    open spec fn mul_req(self, rhs: PositiveFloat) -> bool {
        true
    }

    closed spec fn mul_spec(self, rhs: PositiveFloat) -> PositiveFloat {
        PositiveFloat(product(self.0, rhs.0))
    }
}

/// A vector of three numbers.
pub type Vec3D = (u32, u32, u32);

/// Vectors that are brought to length one by a fast approximate inverse
/// square root.
pub trait FastNormalize {
    /// What normalizing gives.
    type NormVec;

    /// The normalized vector.
    spec fn normalized(&self) -> Self::NormVec;

    /// Normalizes this vector.
    fn normalize(&self) -> (unit: Self::NormVec)
        ensures
            unit == self.normalized(),
    ;
}

/// The factor that brings the vector `(x, y, z)` to length one: the
/// approximate inverse square root, with one step, of the sum of the squares,
/// added from left to right.
pub open spec fn reciprocal_norm(x: u32, y: u32, z: u32) -> u32 {
    approximation(sum(sum(product(x, x), product(y, y)), product(z, z)), 1)
}

/// The vector `(x, y, z)` with each component multiplied by the
/// [`reciprocal_norm`].
pub open spec fn scaled_to_unit(x: u32, y: u32, z: u32) -> (u32, u32, u32) {
    let factor = reciprocal_norm(x, y, z);
    (product(x, factor), product(y, factor), product(z, factor))
}

/// Multiplies each component by the reciprocal norm.
fn scale_to_unit(x: u32, y: u32, z: u32) -> (unit: (u32, u32, u32))
    ensures
        unit == scaled_to_unit(x, y, z),
{
    let squares_sum = PositiveFloat::from_square(x) + PositiveFloat::from_square(y)
        + PositiveFloat::from_square(z);
    let recip_norm: u32 = squares_sum.fast_rsqrt::<1>().inner();
    (multiply(x, recip_norm), multiply(y, recip_norm), multiply(z, recip_norm))
}

/// Normalizing checks the components: a vector with a component that is not
/// normal, be it zero, has no normalized form. A vector whose components are
/// of moderate size, from `2^-60` up to `2^60` in magnitude, is normalized to
/// a length within five thousandths of one.
impl FastNormalize for Vec3D {
    type NormVec = Option<Vec3D>;

    open spec fn normalized(&self) -> Option<Vec3D> {
        if normal(self.0) && normal(self.1) && normal(self.2) {
            Some(scaled_to_unit(self.0, self.1, self.2))
        } else {
            None
        }
    }

    fn normalize(&self) -> (unit: Option<Vec3D>)
        ensures
            unit_length::moderate(self.0) && unit_length::moderate(self.1) && unit_length::moderate(
                self.2,
            ) ==> {
                &&& unit matches Some(v)
                &&& normal(v.0) && normal(v.1) && normal(v.2)
                &&& unit_length::unit_length(v)
            },
    {
        proof {
            if unit_length::moderate(self.0) && unit_length::moderate(self.1)
                && unit_length::moderate(self.2) {
                unit_length::lemma_normalized_has_unit_length(self.0, self.1, self.2);
            }
        }
        let (x, y, z) = *self;
        if !is_normal(x) || !is_normal(y) || !is_normal(z) {
            return None;
        }
        Some(scale_to_unit(x, y, z))
    }
}

/// A number that was checked to be normal: not zero, not subnormal, not
/// infinite and not NaN. It may be negative. Only [`Float::new`] checks.
#[derive(Clone, Copy, Debug)]
pub struct Float(u32);

impl View for Float {
    type V = u32;

    /// The bit pattern of the number.
    closed spec fn view(&self) -> u32 {
        self.0
    }
}

impl Float {
    /// The number is normal.
    pub open spec fn is_valid(&self) -> bool {
        normal(self@)
    }

    /// Wraps `v` if it is normal.
    #[inline]
    pub fn new(v: u32) -> (made: Option<Self>)
        ensures
            normal(v) ==> made.is_some() && made.unwrap()@ == v && made.unwrap().is_valid(),
            !normal(v) ==> made.is_none(),
    {
        if is_normal(v) {
            Some(Self(v))
        } else {
            None
        }
    }

    /// The square of the number.
    #[inline]
    pub fn square(&self) -> (squared: PositiveFloat)
        ensures
            squared@ == product(self@, self@),
    {
        PositiveFloat::from_square(self.0)
    }

    /// The bit pattern of the number.
    #[inline]
    pub fn inner(&self) -> (bits: u32)
        ensures
            bits == self@,
    {
        self.0
    }
}

/// Normalizing a vector of checked numbers needs no check and always gives
/// a vector: each component times the reciprocal norm, wrapped unchecked.
impl FastNormalize for (Float, Float, Float) {
    type NormVec = (Float, Float, Float);

    closed spec fn normalized(&self) -> (Float, Float, Float) {
        let unit = scaled_to_unit(self.0.0, self.1.0, self.2.0);
        (Float(unit.0), Float(unit.1), Float(unit.2))
    }

    fn normalize(&self) -> (unit: (Float, Float, Float))
        ensures
            (unit.0@, unit.1@, unit.2@) == scaled_to_unit(self.0@, self.1@, self.2@),
            unit_length::moderate(self.0@) && unit_length::moderate(self.1@)
                && unit_length::moderate(self.2@) ==> {
                &&& unit.0.is_valid() && unit.1.is_valid() && unit.2.is_valid()
                &&& unit_length::unit_length((unit.0@, unit.1@, unit.2@))
            },
    {
        proof {
            if unit_length::moderate(self.0@) && unit_length::moderate(self.1@)
                && unit_length::moderate(self.2@) {
                unit_length::lemma_normalized_has_unit_length(self.0@, self.1@, self.2@);
            }
        }
        let (x, y, z) = self;
        let recip_norm: u32 = (x.square() + y.square() + z.square()).fast_rsqrt::<1>().inner();
        (
            Float(multiply(x.0, recip_norm)),
            Float(multiply(y.0, recip_norm)),
            Float(multiply(z.0, recip_norm)),
        )
    }
}

} // verus!
