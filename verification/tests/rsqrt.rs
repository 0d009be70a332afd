use quickcheck::{QuickCheck, TestResult};
use rust_examples::rsqrt::{
    initial_guess, refine, rsqrt, FastNormalize, Float, PositiveFloat, MAGIC, ONE_HALF,
    THREE_HALFS,
};

const EPS: f64 = 0.005;

fn approx(x: f64, y: f64, eps: f64) -> bool {
    (x - y).abs() < eps
}

/// The same computation on the hardware's numbers.
fn hardware_rsqrt(number: f32, iterations: usize) -> f32 {
    let x2 = number * 0.5;
    let i = number.to_bits();
    let mut y = f32::from_bits(0x5f3759dfu32.wrapping_sub(i >> 1));
    for _ in 0..iterations.max(1) {
        y *= 1.5 - (x2 * y * y);
    }
    y
}

fn same(soft: u32, hard: f32) -> bool {
    if hard.is_nan() {
        f32::from_bits(soft).is_nan()
    } else {
        soft == hard.to_bits()
    }
}

struct Patterns(u64);

impl Patterns {
    fn next(&mut self) -> u32 {
        self.0 ^= self.0 << 13;
        self.0 ^= self.0 >> 7;
        self.0 ^= self.0 << 17;
        (self.0 >> 16) as u32
    }
}

fn norm_of(v: (u32, u32, u32)) -> f32 {
    let (x, y, z) = (
        f32::from_bits(v.0),
        f32::from_bits(v.1),
        f32::from_bits(v.2),
    );
    (x * x + y * y + z * z).sqrt()
}

fn check_positive_float(number: f32, expected: Option<f32>) {
    assert_eq!(
        PositiveFloat::new(number.to_bits()).map(|p| f32::from_bits(p.inner())),
        expected
    );
    assert_eq!(
        PositiveFloat::new(number.to_bits()),
        expected.and_then(|e| PositiveFloat::new(e.to_bits()))
    );
}

#[test]
fn positive_float_nan() {
    check_positive_float(f32::NAN, None);
}

#[test]
fn positive_float_inf() {
    check_positive_float(f32::INFINITY, None);
}

#[test]
fn positive_float_neg_inf() {
    check_positive_float(f32::NEG_INFINITY, None);
}

#[test]
fn positive_float_zero() {
    check_positive_float(0.0, None);
}

#[test]
fn positive_float_neg() {
    check_positive_float(-1.0, None);
}

#[test]
fn positive_float_one() {
    check_positive_float(1.0, Some(1.0));
}

#[test]
fn positive_float_pos() {
    check_positive_float(4.2, Some(4.2));
}

#[test]
fn positive_float_construction_boundary() {
    assert!(PositiveFloat::new((-4.2f32).to_bits()).is_none());
    assert!(PositiveFloat::new((-0.0f32).to_bits()).is_none());
    // Subnormals are refused, the smallest normal number is accepted.
    assert!(PositiveFloat::new(0x007f_ffff).is_none());
    assert!(PositiveFloat::new(0x0000_0001).is_none());
    assert_eq!(
        PositiveFloat::new(f32::MIN_POSITIVE.to_bits()).map(|p| p.inner()),
        Some(0x0080_0000)
    );
    assert_eq!(
        PositiveFloat::new(f32::MAX.to_bits()).map(|p| p.inner()),
        Some(0x7f7f_ffff)
    );
    assert!(PositiveFloat::new(0x7f80_0001).is_none());
    assert!(PositiveFloat::new(0xff7f_ffff).is_none());
}

#[test]
fn positive_float_new_accepts_exactly_the_positive_normal_numbers() {
    let mut patterns = Patterns(0x5555_aaaa_3333_cccc);
    for _ in 0..100_000 {
        let bits = patterns.next();
        let x = f32::from_bits(bits);
        let made = PositiveFloat::new(bits);
        assert_eq!(made.is_some(), x.is_sign_positive() && x.is_normal());
        if let Some(p) = made {
            assert_eq!(p.inner(), bits);
        }
    }
}

#[test]
fn wikipedia_example() {
    let estimate = f32::from_bits(rsqrt(0.15625f32.to_bits()));
    let target = 2.52982;
    assert!(
        approx(estimate as f64, 2.52982, EPS),
        "{} is not within {} of {}",
        estimate,
        EPS,
        target
    );
}

#[test]
fn wikipedia_example_to_the_last_bit() {
    // The first guess for 0.15625 is the magic constant minus half its pattern.
    assert_eq!(0.15625f32.to_bits(), 0x3e20_0000);
    assert_eq!(initial_guess(0x3e20_0000), 0x5f37_59df - 0x1f10_0000);
    assert_eq!(initial_guess(0x3e20_0000), 0x4027_59df);
    assert_eq!(rsqrt(0x3e20_0000), hardware_rsqrt(0.15625, 1).to_bits());
    assert_eq!(rsqrt(0x3e20_0000), 0x4021_a191);
    assert!(approx(f32::from_bits(0x4021_a191) as f64, 2.52549, 0.00001));
}

#[test]
fn constants_are_the_patterns_of_their_values() {
    assert_eq!(ONE_HALF, 0.5f32.to_bits());
    assert_eq!(THREE_HALFS, 1.5f32.to_bits());
    assert_eq!(MAGIC, 0x5f37_59df);
}

#[test]
fn initial_guess_wraps_around() {
    assert_eq!(initial_guess(0), 0x5f37_59df);
    assert_eq!(initial_guess(1), 0x5f37_59df);
    assert_eq!(initial_guess(2), 0x5f37_59de);
    assert_eq!(initial_guess(0x7f7f_ffff), 0x5f37_59df - 0x3fbf_ffff);
    // Half the pattern exceeds the constant: the difference wraps.
    assert_eq!(initial_guess(0xffff_ffff), 0xdf37_59e0);
    assert_eq!(initial_guess(0xbe6e_b3c0), 0xffff_ffff);
    assert_eq!(initial_guess(0xbe6e_b3be), 0);
}

#[test]
fn refine_is_one_step_of_newtons_method() {
    let mut patterns = Patterns(0x1111_2222_3333_4444);
    for _ in 0..100_000 {
        let half = patterns.next();
        let y = patterns.next();
        let (h, g) = (f32::from_bits(half), f32::from_bits(y));
        assert!(same(refine(half, y), g * (1.5 - (h * g * g))));
    }
}

fn rsqrt_property(number: f32) -> TestResult {
    if number.is_sign_negative() || !number.is_normal() {
        return TestResult::discard();
    }

    let estimate = f32::from_bits(rsqrt(number.to_bits()));
    let target = number.sqrt().recip();
    let close_approx = approx(estimate as f64, target as f64, EPS);

    TestResult::from_bool(close_approx)
}

#[test]
fn rsqrt_approximates_inverse_square_root() {
    QuickCheck::new().quickcheck(rsqrt_property as fn(f32) -> TestResult);
}

fn safe_rsqrt_property(number: f32) -> TestResult {
    if let Some(number) = PositiveFloat::new(number.to_bits()) {
        let estimate = f32::from_bits(number.fast_rsqrt::<1>().inner());
        let target = f32::from_bits(number.inner()).sqrt().recip();
        let close_approx = approx(estimate as f64, target as f64, EPS);

        TestResult::from_bool(close_approx)
    } else {
        TestResult::discard()
    }
}

#[test]
fn safe_rsqrt_approximates_inverse_square_root() {
    QuickCheck::new().quickcheck(safe_rsqrt_property as fn(f32) -> TestResult);
}

#[test]
fn rsqrt_is_within_two_thousandths_of_the_true_value_relatively() {
    // One step of Newton's method leaves a relative error below 0.2 percent.
    let mut patterns = Patterns(0xabcd_ef01_2345_6789);
    for _ in 0..200_000 {
        let bits = patterns.next() & 0x7fff_ffff;
        let x = f32::from_bits(bits);
        if !x.is_normal() {
            continue;
        }
        let estimate = f32::from_bits(rsqrt(bits)) as f64;
        let target = 1.0 / (x as f64).sqrt();
        assert!(
            ((estimate - target) / target).abs() < 0.002,
            "{}: {} instead of {}",
            x,
            estimate,
            target
        );
    }
}

#[test]
fn rsqrt_agrees_with_the_hardware_bit_for_bit() {
    let mut patterns = Patterns(0x0f0f_f0f0_1234_4321);
    for _ in 0..300_000 {
        let bits = patterns.next();
        let hard = hardware_rsqrt(f32::from_bits(bits), 1);
        assert!(
            same(rsqrt(bits), hard),
            "{:#010x}: {:#010x} instead of {:#010x}",
            bits,
            rsqrt(bits),
            hard.to_bits()
        );
    }
}

#[test]
fn rsqrt_of_exact_powers_of_four() {
    for (x, target) in [(1.0f32, 1.0f64), (4.0, 0.5), (16.0, 0.25), (0.25, 2.0), (64.0, 0.125)] {
        let estimate = f32::from_bits(rsqrt(x.to_bits()));
        assert_eq!(estimate, hardware_rsqrt(x, 1));
        assert!(approx(estimate as f64, target, EPS));
    }
    assert_eq!(rsqrt(1.0f32.to_bits()), 0x3f7f_910f);
}

#[test]
fn fast_rsqrt_agrees_with_the_hardware_for_each_iteration_count() {
    let mut patterns = Patterns(0x7777_1234_8888_4321);
    for _ in 0..50_000 {
        let bits = (patterns.next() & 0x7fff_ffff).clamp(0x0080_0000, 0x7f7f_ffff);
        let x = f32::from_bits(bits);
        let p = PositiveFloat::new(bits).unwrap();
        assert!(same(p.fast_rsqrt::<0>().inner(), hardware_rsqrt(x, 0)));
        assert!(same(p.fast_rsqrt::<1>().inner(), hardware_rsqrt(x, 1)));
        assert!(same(p.fast_rsqrt::<2>().inner(), hardware_rsqrt(x, 2)));
        assert!(same(p.fast_rsqrt::<3>().inner(), hardware_rsqrt(x, 3)));
        assert!(same(p.fast_rsqrt::<7>().inner(), hardware_rsqrt(x, 7)));
    }
}

#[test]
fn fast_rsqrt_takes_at_least_one_step() {
    let mut patterns = Patterns(0x2468_ace0_1357_9bdf);
    for _ in 0..50_000 {
        let bits = (patterns.next() & 0x7fff_ffff).clamp(0x0080_0000, 0x7f7f_ffff);
        let p = PositiveFloat::new(bits).unwrap();
        assert_eq!(p.fast_rsqrt::<0>().inner(), p.fast_rsqrt::<1>().inner());
        assert_eq!(p.fast_rsqrt::<1>().inner(), rsqrt(bits));
    }
    let four = PositiveFloat::new(4.0f32.to_bits()).unwrap();
    assert_eq!(four.fast_rsqrt::<0>().inner(), four.fast_rsqrt::<1>().inner());
    assert_ne!(four.fast_rsqrt::<1>().inner(), four.fast_rsqrt::<2>().inner());
}

#[test]
fn fast_rsqrt_uses_the_same_half_in_every_step() {
    let bits = 2.0f32.to_bits();
    let p = PositiveFloat::new(bits).unwrap();
    let half = 1.0f32.to_bits();
    let once = refine(half, initial_guess(bits));
    let twice = refine(half, once);
    assert_eq!(p.fast_rsqrt::<1>().inner(), once);
    assert_eq!(p.fast_rsqrt::<2>().inner(), twice);
    let better = f32::from_bits(twice) as f64;
    let good = f32::from_bits(once) as f64;
    let target = 1.0 / 2.0f64.sqrt();
    assert!((better - target).abs() < (good - target).abs());
    assert!((better - target).abs() < 0.00001);
}

#[test]
fn from_square_is_the_square() {
    for x in [1.0f32, -3.0, 4.2, 1.0e-10, -1.5e19, 1.0e-30, 3.0e38] {
        assert_eq!(
            PositiveFloat::from_square(x.to_bits()).inner(),
            (x * x).to_bits()
        );
    }
    assert_eq!(
        PositiveFloat::from_square((-3.0f32).to_bits()).inner(),
        9.0f32.to_bits()
    );
    // Too small and too large numbers have squares that are not normal.
    assert_eq!(PositiveFloat::from_square(1.0e-30f32.to_bits()).inner(), 0);
    assert_eq!(
        PositiveFloat::from_square(3.0e38f32.to_bits()).inner(),
        f32::INFINITY.to_bits()
    );
}

#[test]
fn sum_and_product_of_positive_floats() {
    let a = PositiveFloat::new(1.5f32.to_bits()).unwrap();
    let b = PositiveFloat::new(2.25f32.to_bits()).unwrap();
    assert_eq!((a + b).inner(), 3.75f32.to_bits());
    assert_eq!((a * b).inner(), 3.375f32.to_bits());
    let mut patterns = Patterns(0x1020_3040_5060_7080);
    for _ in 0..50_000 {
        let x = (patterns.next() & 0x7fff_ffff).clamp(0x0080_0000, 0x7f7f_ffff);
        let y = (patterns.next() & 0x7fff_ffff).clamp(0x0080_0000, 0x7f7f_ffff);
        let (p, q) = (PositiveFloat::new(x).unwrap(), PositiveFloat::new(y).unwrap());
        assert_eq!(
            (p + q).inner(),
            (f32::from_bits(x) + f32::from_bits(y)).to_bits()
        );
        assert_eq!(
            (p * q).inner(),
            (f32::from_bits(x) * f32::from_bits(y)).to_bits()
        );
    }
}

#[test]
fn positive_floats_compare_as_numbers() {
    let one = PositiveFloat::new(1.0f32.to_bits()).unwrap();
    let two = PositiveFloat::new(2.0f32.to_bits()).unwrap();
    assert_eq!(one, one);
    assert_ne!(one, two);
    assert_eq!(one + one, two);
    // What is not a number is not equal to itself.
    let huge = PositiveFloat::new(f32::MAX.to_bits()).unwrap();
    let infinite = huge + huge;
    let zero = PositiveFloat::from_square(1.0e-30f32.to_bits());
    let nothing = infinite * zero;
    assert_eq!(infinite, infinite);
    assert!(f32::from_bits(nothing.inner()).is_nan());
    assert_ne!(nothing, nothing);
}

fn check_fast_normalization(x: f32, y: f32, z: f32, some: bool) {
    let v_norm = (x.to_bits(), y.to_bits(), z.to_bits()).normalize();

    assert_eq!(v_norm.is_some(), some);

    if let Some((x, y, z)) = v_norm {
        let (x, y, z) = (f32::from_bits(x), f32::from_bits(y), f32::from_bits(z));
        let norm = (x * x + y * y + z * z).sqrt();

        assert!(
            approx(norm as f64, 1.0, EPS),
            "Norm should be approx. one, got: {}",
            norm
        );
    }
}

#[test]
fn fast_normalization_case_1() {
    check_fast_normalization(1.0, 1.0, 1.0, true);
}

#[test]
fn fast_normalization_case_2() {
    check_fast_normalization(1.0, 2.0, 3.0, true);
}

#[test]
fn fast_normalization_case_3() {
    check_fast_normalization(4.2, -1.0, -1.0, true);
}

#[test]
fn fast_normalization_case_4() {
    check_fast_normalization(0.0, 0.0, 0.0, false);
}

#[test]
fn fast_normalization_case_5() {
    check_fast_normalization(1.0, f32::INFINITY, 2.0, false);
}

#[test]
fn fast_normalization_case_6() {
    check_fast_normalization(1.0, f32::NEG_INFINITY, 2.0, false);
}

#[test]
fn fast_normalization_case_7() {
    check_fast_normalization(1.0, f32::NAN, 2.0, false);
}

#[test]
fn fast_normalization_rejects_any_component_that_is_not_normal() {
    let one = 1.0f32.to_bits();
    for bad in [0u32, 0x8000_0000, 1, 0x007f_ffff, 0x7f80_0000, 0xff80_0000, 0x7fc0_0000] {
        assert_eq!((bad, one, one).normalize(), None);
        assert_eq!((one, bad, one).normalize(), None);
        assert_eq!((one, one, bad).normalize(), None);
    }
}

#[test]
fn fast_normalization_agrees_with_the_hardware_bit_for_bit() {
    let mut patterns = Patterns(0x6666_7777_8888_9999);
    for _ in 0..100_000 {
        let v = (patterns.next(), patterns.next(), patterns.next());
        let (x, y, z) = (f32::from_bits(v.0), f32::from_bits(v.1), f32::from_bits(v.2));
        let unit = v.normalize();
        if !x.is_normal() || !y.is_normal() || !z.is_normal() {
            assert_eq!(unit, None);
            continue;
        }
        let r = hardware_rsqrt(x * x + y * y + z * z, 1);
        let unit = unit.unwrap();
        assert!(same(unit.0, x * r) && same(unit.1, y * r) && same(unit.2, z * r));
    }
}

#[test]
fn fast_normalization_of_a_known_vector() {
    // (3, 4, 12) has length 13.
    let unit = (3.0f32.to_bits(), 4.0f32.to_bits(), 12.0f32.to_bits())
        .normalize()
        .unwrap();
    let r = hardware_rsqrt(169.0, 1);
    assert_eq!(unit.0, (3.0 * r).to_bits());
    assert_eq!(unit.1, (4.0 * r).to_bits());
    assert_eq!(unit.2, (12.0 * r).to_bits());
    assert!(approx(f32::from_bits(unit.0) as f64, 3.0 / 13.0, 0.001));
    assert!(approx(f32::from_bits(unit.2) as f64, 12.0 / 13.0, 0.002));
    assert!(approx(norm_of(unit) as f64, 1.0, EPS));
}

fn check_fast_safe_normalization(x: f32, y: f32, z: f32) {
    let checked = (
        Float::new(x.to_bits()).unwrap(),
        Float::new(y.to_bits()).unwrap(),
        Float::new(z.to_bits()).unwrap(),
    );
    let (x, y, z) = checked.normalize();

    let norm = f32::from_bits((x.square() + y.square() + z.square()).inner()).sqrt();

    assert!(
        approx(norm as f64, 1.0, EPS),
        "Norm should be approx. one, got: {}",
        norm
    );
}

#[test]
fn fast_safe_normalization_case_1() {
    check_fast_safe_normalization(1.0, 1.0, 1.0);
}

#[test]
fn fast_safe_normalization_case_2() {
    check_fast_safe_normalization(1.0, 2.0, 3.0);
}

#[test]
fn fast_safe_normalization_case_3() {
    check_fast_safe_normalization(4.2, -1.0, -1.0);
}

#[test]
fn checked_and_unchecked_normalization_agree() {
    let mut patterns = Patterns(0x1212_3434_5656_7878);
    for _ in 0..50_000 {
        let v = (patterns.next(), patterns.next(), patterns.next());
        let checked = (Float::new(v.0), Float::new(v.1), Float::new(v.2));
        if let (Some(x), Some(y), Some(z)) = checked {
            let plain = v.normalize().unwrap();
            let (a, b, c) = (x, y, z).normalize();
            assert_eq!((a.inner(), b.inner(), c.inner()), plain);
        } else {
            assert_eq!(v.normalize(), None);
        }
    }
}

#[test]
fn float_new_accepts_exactly_the_normal_numbers() {
    assert_eq!(Float::new(1.0f32.to_bits()).map(|f| f.inner()), Some(0x3f80_0000));
    assert_eq!(Float::new((-4.2f32).to_bits()).map(|f| f.inner()), Some((-4.2f32).to_bits()));
    assert!(Float::new(0).is_none());
    assert!(Float::new(0x8000_0000).is_none());
    assert!(Float::new(0x007f_ffff).is_none());
    assert!(Float::new(f32::INFINITY.to_bits()).is_none());
    assert!(Float::new(f32::NEG_INFINITY.to_bits()).is_none());
    assert!(Float::new(f32::NAN.to_bits()).is_none());
    let mut patterns = Patterns(0x9999_aaaa_bbbb_cccc);
    for _ in 0..100_000 {
        let bits = patterns.next();
        assert_eq!(Float::new(bits).is_some(), f32::from_bits(bits).is_normal());
    }
}

#[test]
fn float_square_is_a_positive_float() {
    let three = Float::new((-3.0f32).to_bits()).unwrap();
    assert_eq!(three.square().inner(), 9.0f32.to_bits());
    assert_eq!(
        Some(three.square()),
        PositiveFloat::new(9.0f32.to_bits())
    );
}

#[test]
fn wrappers_take_no_more_space_than_the_number() {
    assert_eq!(std::mem::size_of::<PositiveFloat>(), std::mem::size_of::<f32>());
    assert_eq!(std::mem::size_of::<Float>(), std::mem::size_of::<f32>());
}

#[test]
fn exact_rsqrt_agrees_with_the_hardware() {
    let mut patterns = Patterns(0x3141_5926_5358_9793);
    for _ in 0..200_000 {
        let bits = (patterns.next() & 0x7fff_ffff).clamp(0x0080_0000, 0x7f7f_ffff);
        let p = PositiveFloat::new(bits).unwrap();
        assert_eq!(
            p.rsqrt().inner(),
            f32::from_bits(bits).sqrt().recip().to_bits()
        );
    }
}

#[test]
fn exact_rsqrt_of_known_values() {
    let quarter = PositiveFloat::new(0.25f32.to_bits()).unwrap();
    assert_eq!(quarter.rsqrt().inner(), 2.0f32.to_bits());
    let four = PositiveFloat::new(4.0f32.to_bits()).unwrap();
    assert_eq!(four.rsqrt().inner(), 0.5f32.to_bits());
    let one = PositiveFloat::new(1.0f32.to_bits()).unwrap();
    assert_eq!(one.rsqrt(), one);
    // 1 / sqrt(0.15625) = 2.5298221...
    let x = PositiveFloat::new(0.15625f32.to_bits()).unwrap();
    assert!(approx(f32::from_bits(x.rsqrt().inner()) as f64, 2.5298221, 0.000001));
}

#[test]
fn exact_rsqrt_of_a_positive_normal_number_is_positive_and_normal() {
    let least = PositiveFloat::new(0x0080_0000).unwrap();
    let greatest = PositiveFloat::new(0x7f7f_ffff).unwrap();
    assert_eq!(least.rsqrt().inner(), 0x5f00_0000);
    assert_eq!(greatest.rsqrt().inner(), 0x1f80_0001);
    assert!(PositiveFloat::new(least.rsqrt().inner()).is_some());
    assert!(PositiveFloat::new(greatest.rsqrt().inner()).is_some());
}

#[test]
fn approximation_is_close_to_the_exact_inverse_square_root() {
    let mut patterns = Patterns(0x2718_2818_2845_9045);
    for _ in 0..100_000 {
        // Numbers of magnitude one and above, where the inverse root is at most one.
        let bits = (patterns.next() & 0x7fff_ffff).clamp(0x3f80_0000, 0x7f7f_ffff);
        let p = PositiveFloat::new(bits).unwrap();
        let estimate = f32::from_bits(p.fast_rsqrt::<1>().inner());
        let target = f32::from_bits(p.rsqrt().inner());
        assert!(approx(estimate as f64, target as f64, EPS));
        assert_eq!(p.fast_rsqrt::<1>().inner(), rsqrt(bits));
    }
}

#[test]
fn first_guess_is_within_a_few_percent() {
    // x * y * y lies between 0.932 and 1.0695 for the first guess y.
    let mut patterns = Patterns(0x4242_4242_1717_1717);
    let mut least = f64::MAX;
    let mut greatest = 0.0f64;
    let mut check = |bits: u32| {
        let x = f32::from_bits(bits) as f64;
        let y = f32::from_bits(initial_guess(bits)) as f64;
        let square = x * y * y;
        assert!(0.932 <= square && square <= 1.0695, "{:#010x}: {}", bits, square);
        least = least.min(square);
        greatest = greatest.max(square);
    };
    for _ in 0..200_000 {
        check((patterns.next() & 0x7fff_ffff).clamp(0x0080_0000, 0x7f7f_ffff));
    }
    // The extremes both lie in a binade of even exponent field.
    check(0x3f6e_b3be);
    check(0x3f6e_b3bf);
    check(0x3f6e_b3c0);
    check(0x3f13_9a00);
    check(0x0080_0000);
    check(0x7f7f_ffff);
    assert!(least < 0.9325 && greatest > 1.069);
}

#[test]
fn every_step_keeps_a_valid_number_valid() {
    let mut patterns = Patterns(0x0101_0202_0303_0404);
    let check = |bits: u32| {
        let p = PositiveFloat::new(bits).unwrap();
        assert!(PositiveFloat::new(p.fast_rsqrt::<1>().inner()).is_some());
        assert!(PositiveFloat::new(p.fast_rsqrt::<0>().inner()).is_some());
        assert!(PositiveFloat::new(p.fast_rsqrt::<2>().inner()).is_some());
        assert!(PositiveFloat::new(p.fast_rsqrt::<5>().inner()).is_some());
        assert!(PositiveFloat::new(rsqrt(bits)).is_some());
        assert!(PositiveFloat::new(initial_guess(bits)).is_some());
    };
    for _ in 0..200_000 {
        check((patterns.next() & 0x7fff_ffff).clamp(0x0080_0000, 0x7f7f_ffff));
    }
    for bits in [0x0080_0000, 0x0080_0001, 0x00ff_ffff, 0x0100_0000, 0x7f00_0000, 0x7f7f_ffff] {
        check(bits);
    }
}

#[test]
fn one_step_is_within_five_thousandths_from_one_quarter_upwards() {
    let mut patterns = Patterns(0x0bad_cafe_0bad_cafe);
    let check = |bits: u32| {
        let x = f32::from_bits(bits) as f64;
        let estimate = f32::from_bits(rsqrt(bits)) as f64;
        let target = 1.0 / x.sqrt();
        assert!((estimate - target).abs() < EPS, "{}: {} and {}", x, estimate, target);
    };
    for _ in 0..200_000 {
        check((patterns.next() & 0x7fff_ffff).clamp(0x3e80_0000, 0x7f7f_ffff));
    }
    check(0x3e80_0000);
    check(0x3e80_0001);
    check(0x3eff_ffff);
    check(0x7f7f_ffff);
}

#[test]
fn one_step_is_further_off_for_small_numbers() {
    // The inverse square root of a small number is large, and two thousandths
    // of it are more than five thousandths.
    let x = f32::MIN_POSITIVE;
    let estimate = f32::from_bits(rsqrt(x.to_bits())) as f64;
    let target = 1.0 / (x as f64).sqrt();
    assert!((estimate - target).abs() > EPS);
    assert!(((estimate - target) / target).abs() < 0.002);
    let small = 0.01f32;
    let estimate = f32::from_bits(rsqrt(small.to_bits())) as f64;
    assert!((estimate - 10.0).abs() > EPS);
    assert!((estimate - 10.0).abs() < 0.02);
}

#[test]
fn one_step_agrees_with_the_exact_value_from_one_quarter_upwards() {
    let mut patterns = Patterns(0x7e57_ab1e_7e57_ab1e);
    let check = |bits: u32| {
        let p = PositiveFloat::new(bits).unwrap();
        let estimate = f32::from_bits(p.fast_rsqrt::<1>().inner()) as f64;
        let exact = f32::from_bits(p.rsqrt().inner()) as f64;
        assert!((estimate - exact).abs() < EPS);
    };
    for _ in 0..100_000 {
        check((patterns.next() & 0x7fff_ffff).clamp(0x3e80_0000, 0x7f7f_ffff));
    }
    check(0x3e80_0000);
    check(0x7f7f_ffff);
}

#[test]
fn exact_rsqrt_is_within_a_millionth() {
    let mut patterns = Patterns(0x600d_f00d_600d_f00d);
    for _ in 0..100_000 {
        let bits = (patterns.next() & 0x7fff_ffff).clamp(0x0080_0000, 0x7f7f_ffff);
        let p = PositiveFloat::new(bits).unwrap();
        let x = f32::from_bits(bits) as f64;
        let exact = f32::from_bits(p.rsqrt().inner()) as f64;
        let square = x * exact * exact;
        assert!(0.999999 <= square && square <= 1.000001);
        assert!(PositiveFloat::new(p.rsqrt().inner()).is_some());
    }
}

#[test]
fn squares_of_moderate_numbers_are_valid() {
    // From 2^-63 up to, but not including, 2^64 in magnitude.
    for bits in [0x2000_0000u32, 0x2000_0001, 0x3f80_0000, 0x5f7f_ffff, 0xa000_0000, 0xdf7f_ffff] {
        let square = PositiveFloat::from_square(bits);
        assert!(PositiveFloat::new(square.inner()).is_some());
    }
    // Just outside, the square is subnormal or infinite.
    assert!(PositiveFloat::new(PositiveFloat::from_square(0x1fff_ffff).inner()).is_none());
    assert!(PositiveFloat::new(PositiveFloat::from_square(0x5f80_0000).inner()).is_none());
}

#[test]
fn sums_of_valid_numbers_are_valid_or_infinite() {
    let greatest = PositiveFloat::new(0x7f7f_ffff).unwrap();
    let least = PositiveFloat::new(0x0080_0000).unwrap();
    assert_eq!((greatest + greatest).inner(), 0x7f80_0000);
    assert_eq!((greatest + least).inner(), 0x7f7f_ffff);
    assert_eq!((least + least).inner(), 0x0100_0000);
    let mut patterns = Patterns(0xaaaa_5555_aaaa_5555);
    for _ in 0..100_000 {
        let a = (patterns.next() & 0x7fff_ffff).clamp(0x0080_0000, 0x7f7f_ffff);
        let b = (patterns.next() & 0x7fff_ffff).clamp(0x0080_0000, 0x7f7f_ffff);
        let total = PositiveFloat::new(a).unwrap() + PositiveFloat::new(b).unwrap();
        assert!(PositiveFloat::new(total.inner()).is_some() || total.inner() == 0x7f80_0000);
        let scaled = PositiveFloat::new(a).unwrap() * PositiveFloat::new(b).unwrap();
        let value = f32::from_bits(scaled.inner());
        assert!(!value.is_nan() && value.is_sign_positive());
    }
}

#[test]
fn more_steps_stay_within_two_thousandths() {
    let mut patterns = Patterns(0x9090_8080_7070_6060);
    for _ in 0..50_000 {
        let bits = (patterns.next() & 0x7fff_ffff).clamp(0x0080_0000, 0x7f7f_ffff);
        let p = PositiveFloat::new(bits).unwrap();
        let target = 1.0 / (f32::from_bits(bits) as f64).sqrt();
        for estimate in [
            p.fast_rsqrt::<1>().inner(),
            p.fast_rsqrt::<2>().inner(),
            p.fast_rsqrt::<3>().inner(),
            p.fast_rsqrt::<10>().inner(),
        ] {
            let estimate = f32::from_bits(estimate) as f64;
            assert!(((estimate - target) / target).abs() < 0.002);
        }
        // Further steps come closer still.
        let third = f32::from_bits(p.fast_rsqrt::<3>().inner()) as f64;
        assert!(((third - target) / target).abs() < 0.000001);
    }
}

#[test]
fn normalized_vectors_of_moderate_components_have_unit_length() {
    let mut patterns = Patterns(0x0f1e_2d3c_4b5a_6978);
    let mut moderate = || {
        let bits = patterns.next();
        let magnitude = 0x2180_0000 + (bits & 0x7fff_ffff) % (0x5d80_0000 - 0x2180_0000);
        magnitude | (bits & 0x8000_0000)
    };
    for _ in 0..100_000 {
        let v = (moderate(), moderate(), moderate());
        let unit = v.normalize().unwrap();
        let (a, b, c) = (
            f32::from_bits(unit.0) as f64,
            f32::from_bits(unit.1) as f64,
            f32::from_bits(unit.2) as f64,
        );
        assert!(f32::from_bits(unit.0).is_normal());
        assert!(f32::from_bits(unit.1).is_normal());
        assert!(f32::from_bits(unit.2).is_normal());
        let norm = (a * a + b * b + c * c).sqrt();
        assert!((norm - 1.0).abs() < EPS, "{:?}: {}", v, norm);
    }
    // The ends of the range.
    for v in [
        (0x2180_0000u32, 0x2180_0000u32, 0x2180_0000u32),
        (0x5d7f_ffff, 0x5d7f_ffff, 0x5d7f_ffff),
        (0x2180_0000, 0x5d7f_ffff, 0xa180_0000),
        (0xdd7f_ffff, 0x2180_0000, 0x3f80_0000),
    ] {
        let unit = v.normalize().unwrap();
        assert!(approx(norm_of(unit) as f64, 1.0, EPS));
    }
}

#[test]
fn normalizing_immoderate_vectors_may_fail_to_give_unit_length() {
    // The squares of large components are infinite, and nothing is left of
    // the vector.
    let large = 1.0e30f32.to_bits();
    let unit = (large, large, large).normalize().unwrap();
    assert!(!approx(norm_of(unit) as f64, 1.0, EPS));
}
