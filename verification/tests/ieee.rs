use rust_examples::ieee::arith::{minus, multiply, plus, split};
use rust_examples::ieee::format::{
    is_finite, is_infinite, is_nan, is_normal, is_sign_negative, is_sign_positive, magnitude_of,
    negate, with_sign, HIDDEN_BIT, INFINITY, QUIET_NAN, SIGN_BIT,
};
use rust_examples::ieee::divide::{divide, invert, ONE};
use rust_examples::ieee::root::{square_root, whole_root};
use rust_examples::ieee::round::{bit_length, round_scaled};

/// A small generator of bit patterns that spreads over all exponents.
struct Patterns(u64);

impl Patterns {
    fn next(&mut self) -> u32 {
        self.0 ^= self.0 << 13;
        self.0 ^= self.0 >> 7;
        self.0 ^= self.0 << 17;
        (self.0 >> 16) as u32
    }
}

fn edge_patterns() -> Vec<u32> {
    let mut edges = vec![
        0x0000_0000,
        0x0000_0001,
        0x0000_0002,
        0x0000_0003,
        0x003f_ffff,
        0x0040_0000,
        0x007f_fffe,
        0x007f_ffff,
        0x0080_0000,
        0x0080_0001,
        0x00ff_ffff,
        0x0100_0000,
        0x1f80_0000,
        0x3300_0000,
        0x3380_0000,
        0x33ff_ffff,
        0x3400_0000,
        0x3eff_ffff,
        0x3f00_0000,
        0x3f7f_ffff,
        0x3f80_0000,
        0x3f80_0001,
        0x3fc0_0000,
        0x3fff_ffff,
        0x4000_0000,
        0x4040_0000,
        0x4b00_0000,
        0x4b7f_ffff,
        0x4b80_0000,
        0x5f37_59df,
        0x5f80_0000,
        0x7e80_0000,
        0x7f00_0000,
        0x7f7f_fffe,
        0x7f7f_ffff,
        0x7f80_0000,
        0x7f80_0001,
        0x7fc0_0000,
        0x7fff_ffff,
    ];
    let negatives: Vec<u32> = edges.iter().map(|bits| bits | 0x8000_0000).collect();
    edges.extend(negatives);
    edges
}

fn same(soft: u32, hard: f32) -> bool {
    if hard.is_nan() {
        soft == QUIET_NAN
    } else {
        soft == hard.to_bits()
    }
}

fn check_all(a: u32, b: u32) {
    let x = f32::from_bits(a);
    let y = f32::from_bits(b);
    assert!(
        same(multiply(a, b), x * y),
        "{:#010x} * {:#010x}: {:#010x} instead of {:#010x}",
        a,
        b,
        multiply(a, b),
        (x * y).to_bits()
    );
    assert!(
        same(plus(a, b), x + y),
        "{:#010x} + {:#010x}: {:#010x} instead of {:#010x}",
        a,
        b,
        plus(a, b),
        (x + y).to_bits()
    );
    assert!(
        same(divide(a, b), x / y),
        "{:#010x} / {:#010x}: {:#010x} instead of {:#010x}",
        a,
        b,
        divide(a, b),
        (x / y).to_bits()
    );
    assert!(
        same(minus(a, b), x - y),
        "{:#010x} - {:#010x}: {:#010x} instead of {:#010x}",
        a,
        b,
        minus(a, b),
        (x - y).to_bits()
    );
}

#[test]
fn arithmetic_agrees_with_the_hardware_on_edge_cases() {
    let edges = edge_patterns();
    for &a in &edges {
        for &b in &edges {
            check_all(a, b);
        }
    }
}

#[test]
fn arithmetic_agrees_with_the_hardware_on_spread_patterns() {
    let mut patterns = Patterns(0x9e37_79b9_7f4a_7c15);
    for _ in 0..200_000 {
        check_all(patterns.next(), patterns.next());
    }
}

#[test]
fn arithmetic_agrees_with_the_hardware_on_close_exponents() {
    // Operands whose exponents are near each other, where sums cancel and round.
    let mut patterns = Patterns(0x0123_4567_89ab_cdef);
    for _ in 0..200_000 {
        let a = patterns.next();
        let shift = (patterns.next() % 60) as i32 - 30;
        let exponent = (((a >> 23) & 0xff) as i32 + shift).clamp(0, 254) as u32;
        let b = (patterns.next() & 0x807f_ffff) | (exponent << 23);
        check_all(a, b);
    }
}

#[test]
fn arithmetic_agrees_with_the_hardware_near_the_subnormals() {
    let mut patterns = Patterns(0xfeed_face_cafe_beef);
    for _ in 0..100_000 {
        let tiny = patterns.next() & 0x81ff_ffff;
        let other = patterns.next();
        check_all(tiny, other);
        check_all(other, tiny);
        // Products that land among the subnormals.
        let a = (patterns.next() & 0x807f_ffff) | (((patterns.next() % 40) + 30) << 23);
        let b = (patterns.next() & 0x807f_ffff) | (((patterns.next() % 40) + 50) << 23);
        check_all(a, b);
    }
}

#[test]
fn arithmetic_agrees_with_the_hardware_near_overflow() {
    let mut patterns = Patterns(0x0bad_c0de_0dd_ba11);
    for _ in 0..100_000 {
        let a = (patterns.next() & 0x807f_ffff) | (((patterns.next() % 8) + 247) << 23);
        let b = (patterns.next() & 0x807f_ffff) | (((patterns.next() % 8) + 247) << 23);
        check_all(a, b);
        let c = (patterns.next() & 0x807f_ffff) | (((patterns.next() % 16) + 120) << 23);
        check_all(a, c);
    }
}

#[test]
fn product_of_exact_values() {
    // 1.5 * 2.0 = 3.0
    assert_eq!(multiply(0x3fc0_0000, 0x4000_0000), 0x4040_0000);
    // 0.15625 * 0.5 = 0.078125
    assert_eq!(multiply(0x3e20_0000, 0x3f00_0000), 0x3da0_0000);
    // -2.0 * 3.0 = -6.0
    assert_eq!(multiply(0xc000_0000, 0x4040_0000), 0xc0c0_0000);
    // The smallest subnormal times one half is a tie that goes to the even zero.
    assert_eq!(multiply(0x0000_0001, 0x3f00_0000), 0x0000_0000);
    // Three of the smallest subnormal times one half is a tie that goes up to two.
    assert_eq!(multiply(0x0000_0003, 0x3f00_0000), 0x0000_0002);
    // The largest finite number times two overflows.
    assert_eq!(multiply(0x7f7f_ffff, 0x4000_0000), INFINITY);
    assert_eq!(multiply(0xff7f_ffff, 0x4000_0000), INFINITY | SIGN_BIT);
}

#[test]
fn product_of_special_values() {
    assert_eq!(multiply(0x7fc0_0001, 0x3f80_0000), QUIET_NAN);
    assert_eq!(multiply(0x3f80_0000, 0xffff_ffff), QUIET_NAN);
    assert_eq!(multiply(INFINITY, 0), QUIET_NAN);
    assert_eq!(multiply(SIGN_BIT, INFINITY), QUIET_NAN);
    assert_eq!(multiply(INFINITY, 0xbf80_0000), INFINITY | SIGN_BIT);
    assert_eq!(multiply(INFINITY | SIGN_BIT, INFINITY | SIGN_BIT), INFINITY);
    assert_eq!(multiply(0, 0xbf80_0000), SIGN_BIT);
    assert_eq!(multiply(SIGN_BIT, SIGN_BIT), 0);
}

#[test]
fn sum_of_exact_values() {
    // 1.0 + 2.0 = 3.0
    assert_eq!(plus(0x3f80_0000, 0x4000_0000), 0x4040_0000);
    // 1.5 - 0.25 = 1.25
    assert_eq!(minus(0x3fc0_0000, 0x3e80_0000), 0x3fa0_0000);
    // 1.0 + 2^-24 is a tie that goes to the even 1.0.
    assert_eq!(plus(0x3f80_0000, 0x3380_0000), 0x3f80_0000);
    // 1.0 + 3 * 2^-25 rounds up to the successor of 1.0.
    assert_eq!(plus(0x3f80_0000, 0x33c0_0000), 0x3f80_0001);
    // The largest finite number plus itself overflows.
    assert_eq!(plus(0x7f7f_ffff, 0x7f7f_ffff), INFINITY);
    // A number far below another is absorbed.
    assert_eq!(plus(0x7f00_0000, 0x0000_0001), 0x7f00_0000);
    assert_eq!(minus(0x7f00_0000, 0x0000_0001), 0x7f00_0000);
}

#[test]
fn sum_of_special_values() {
    assert_eq!(plus(QUIET_NAN, 0x3f80_0000), QUIET_NAN);
    assert_eq!(plus(0x3f80_0000, 0x7f80_0001), QUIET_NAN);
    assert_eq!(plus(INFINITY, INFINITY | SIGN_BIT), QUIET_NAN);
    assert_eq!(minus(INFINITY, INFINITY), QUIET_NAN);
    assert_eq!(plus(INFINITY, INFINITY), INFINITY);
    assert_eq!(plus(INFINITY | SIGN_BIT, 0x7f7f_ffff), INFINITY | SIGN_BIT);
    assert_eq!(plus(0x3f80_0000, INFINITY), INFINITY);
}

#[test]
fn sign_of_an_exact_zero() {
    // x - x is +0, and so is +0 + -0; only -0 + -0 is -0.
    assert_eq!(minus(0x3f80_0000, 0x3f80_0000), 0);
    assert_eq!(plus(0xbf80_0000, 0x3f80_0000), 0);
    assert_eq!(plus(0, SIGN_BIT), 0);
    assert_eq!(plus(SIGN_BIT, 0), 0);
    assert_eq!(plus(SIGN_BIT, SIGN_BIT), SIGN_BIT);
    assert_eq!(minus(SIGN_BIT, 0), SIGN_BIT);
    assert_eq!(plus(0, 0), 0);
}

#[test]
fn classes_agree_with_the_hardware() {
    let mut patterns = Patterns(0x1357_9bdf_0246_8ace);
    let mut all = edge_patterns();
    for _ in 0..100_000 {
        all.push(patterns.next());
    }
    for bits in all {
        let x = f32::from_bits(bits);
        assert_eq!(is_nan(bits), x.is_nan());
        assert_eq!(is_infinite(bits), x.is_infinite());
        assert_eq!(is_finite(bits), x.is_finite());
        assert_eq!(is_normal(bits), x.is_normal());
        assert_eq!(is_sign_negative(bits), x.is_sign_negative());
        assert_eq!(is_sign_positive(bits), x.is_sign_positive());
        assert_eq!(magnitude_of(bits), bits & 0x7fff_ffff);
        assert_eq!(negate(bits), bits ^ 0x8000_0000);
        if !x.is_nan() {
            assert_eq!(negate(bits), (-x).to_bits());
            assert_eq!(magnitude_of(bits), x.abs().to_bits());
        }
    }
}

#[test]
fn with_sign_sets_the_sign_bit() {
    assert_eq!(with_sign(false, 0x3f80_0000), 0x3f80_0000);
    assert_eq!(with_sign(true, 0x3f80_0000), 0xbf80_0000);
    assert_eq!(with_sign(true, 0), SIGN_BIT);
}

#[test]
fn split_gives_significand_and_scale() {
    assert_eq!(split(0), (0, 0));
    assert_eq!(split(1), (1, 0));
    assert_eq!(split(0x007f_ffff), (0x007f_ffff, 0));
    assert_eq!(split(HIDDEN_BIT), (0x0080_0000, 0));
    assert_eq!(split(0x0100_0000), (0x0080_0000, 1));
    // 1.0 is 2^23 last places of 2^-23 each: 2^23 * 2^126 units.
    assert_eq!(split(0x3f80_0000), (0x0080_0000, 126));
    assert_eq!(split(0x7f7f_ffff), (0x00ff_ffff, 253));
}

#[test]
fn bit_length_counts_bits() {
    assert_eq!(bit_length(0), 0);
    assert_eq!(bit_length(1), 1);
    assert_eq!(bit_length(2), 2);
    assert_eq!(bit_length(3), 2);
    assert_eq!(bit_length(0xff), 8);
    assert_eq!(bit_length(0x100), 9);
    assert_eq!(bit_length(u64::MAX), 64);
    for n in [5u64, 1 << 40, (1 << 40) - 1, 0x8000_0000_0000_0000] {
        assert_eq!(bit_length(n), (64 - n.leading_zeros()) as u64);
    }
}

#[test]
fn round_scaled_rounds_to_nearest_even() {
    // One unit is 2^149 of the fine units that the value is given in.
    assert_eq!(round_scaled(0, 0), 0);
    assert_eq!(round_scaled(1, 149), 1);
    assert_eq!(round_scaled(5, 149), 5);
    // Halves of a unit: ties go to the even neighbour.
    assert_eq!(round_scaled(1, 148), 0);
    assert_eq!(round_scaled(3, 148), 2);
    assert_eq!(round_scaled(5, 148), 2);
    assert_eq!(round_scaled(7, 148), 4);
    // Quarters of a unit.
    assert_eq!(round_scaled(1, 147), 0);
    assert_eq!(round_scaled(3, 147), 1);
    assert_eq!(round_scaled(5, 147), 1);
    // Far below half a unit.
    assert_eq!(round_scaled(0x7fff_ffff_ffff_ffff, 0), 0);
    // 1.0 is 2^149 units.
    assert_eq!(round_scaled(1, 298), 0x3f80_0000);
    // 2^25 + 1 needs 26 bits: it rounds to 2^25.
    assert_eq!(round_scaled((1 << 25) + 1, 298), 0x4c00_0000);
    // 2^25 + 2 is a tie between 2^25 and 2^25 + 4: the even one is 2^25.
    assert_eq!(round_scaled((1 << 25) + 2, 298), 0x4c00_0000);
    // 2^25 + 6 is a tie between 2^25 + 4 and 2^25 + 8: the even one is 2^25 + 8.
    assert_eq!(round_scaled((1 << 25) + 6, 298), 0x4c00_0002);
    // A carry out of the significand moves to the next binade.
    assert_eq!(round_scaled((1 << 25) - 1, 298), 0x4c00_0000);
    // The largest finite number, and the first value that rounds to infinity.
    assert_eq!(round_scaled(0xff_ffff, 253 + 149), 0x7f7f_ffff);
    assert_eq!(round_scaled(0x1ff_ffff, 252 + 149), INFINITY);
    assert_eq!(round_scaled(0x1ff_fffe, 252 + 149), 0x7f7f_ffff);
    assert_eq!(round_scaled(1, 1024), INFINITY);
}

#[test]
fn quotient_of_exact_values() {
    // 3.0 / 2.0 = 1.5
    assert_eq!(divide(0x4040_0000, 0x4000_0000), 0x3fc0_0000);
    // 1.0 / 3.0 rounds to 0x3eaaaaab
    assert_eq!(divide(ONE, 0x4040_0000), 0x3eaa_aaab);
    assert_eq!(invert(0x4040_0000), 0x3eaa_aaab);
    // 1.0 / 0.25 = 4.0
    assert_eq!(invert(0x3e80_0000), 0x4080_0000);
    // -6.0 / 3.0 = -2.0
    assert_eq!(divide(0xc0c0_0000, 0x4040_0000), 0xc000_0000);
    // The smallest subnormal divided by two is a tie that goes to zero.
    assert_eq!(divide(0x0000_0001, 0x4000_0000), 0);
    // Three of them divided by two is a tie that goes up to two.
    assert_eq!(divide(0x0000_0003, 0x4000_0000), 2);
    // The largest finite number divided by one half overflows.
    assert_eq!(divide(0x7f7f_ffff, 0x3f00_0000), INFINITY);
    // The smallest subnormal divided by the largest finite number vanishes.
    assert_eq!(divide(0x0000_0001, 0x7f7f_ffff), 0);
    assert_eq!(divide(0x8000_0001, 0x7f7f_ffff), SIGN_BIT);
    // The inverse of the smallest normal number is finite, that of the
    // smallest subnormal is not.
    assert_eq!(invert(0x0080_0000), 0x7e80_0000);
    assert_eq!(invert(0x0000_0001), INFINITY);
    assert_eq!(invert(0x7f7f_ffff), 0x0020_0000);
}

#[test]
fn quotient_of_special_values() {
    assert_eq!(divide(QUIET_NAN, ONE), QUIET_NAN);
    assert_eq!(divide(ONE, 0xffc0_0000), QUIET_NAN);
    assert_eq!(divide(INFINITY, INFINITY | SIGN_BIT), QUIET_NAN);
    assert_eq!(divide(0, SIGN_BIT), QUIET_NAN);
    assert_eq!(divide(INFINITY, 0xc000_0000), INFINITY | SIGN_BIT);
    assert_eq!(divide(INFINITY, 0), INFINITY);
    assert_eq!(divide(0xc000_0000, INFINITY), SIGN_BIT);
    assert_eq!(divide(ONE, 0), INFINITY);
    assert_eq!(divide(ONE, SIGN_BIT), INFINITY | SIGN_BIT);
    assert_eq!(divide(0, 0xc000_0000), SIGN_BIT);
    assert_eq!(invert(INFINITY), 0);
    assert_eq!(invert(0), INFINITY);
}

fn check_root(a: u32) {
    let x = f32::from_bits(a);
    assert!(
        same(square_root(a), x.sqrt()),
        "sqrt {:#010x}: {:#010x} instead of {:#010x}",
        a,
        square_root(a),
        x.sqrt().to_bits()
    );
    assert!(
        same(invert(a), x.recip()),
        "1 / {:#010x}: {:#010x} instead of {:#010x}",
        a,
        invert(a),
        x.recip().to_bits()
    );
}

#[test]
fn root_and_inverse_agree_with_the_hardware() {
    for a in edge_patterns() {
        check_root(a);
    }
    let mut patterns = Patterns(0x0ddb_a11c_0ffe_e123);
    for _ in 0..300_000 {
        check_root(patterns.next());
    }
    for _ in 0..100_000 {
        // Subnormals and the lowest binades.
        check_root(patterns.next() & 0x01ff_ffff);
    }
}

#[test]
fn root_of_exact_values() {
    // sqrt(4.0) = 2.0, sqrt(2.25) = 1.5, sqrt(1.0) = 1.0
    assert_eq!(square_root(0x4080_0000), 0x4000_0000);
    assert_eq!(square_root(0x4010_0000), 0x3fc0_0000);
    assert_eq!(square_root(ONE), ONE);
    // sqrt(2.0) rounds to 0x3fb504f3
    assert_eq!(square_root(0x4000_0000), 0x3fb5_04f3);
    // The root of the smallest subnormal, 2^-149, is 2^-74.5.
    assert_eq!(square_root(0x0000_0001), 0x1a35_04f3);
    // The root of the largest finite number.
    assert_eq!(square_root(0x7f7f_ffff), 0x5f7f_ffff);
}

#[test]
fn root_of_special_values() {
    assert_eq!(square_root(0), 0);
    assert_eq!(square_root(SIGN_BIT), SIGN_BIT);
    assert_eq!(square_root(INFINITY), INFINITY);
    assert_eq!(square_root(INFINITY | SIGN_BIT), QUIET_NAN);
    assert_eq!(square_root(0xbf80_0000), QUIET_NAN);
    assert_eq!(square_root(0x8000_0001), QUIET_NAN);
    assert_eq!(square_root(0x7f80_0001), QUIET_NAN);
}

#[test]
fn whole_root_is_the_floor_of_the_root() {
    assert_eq!(whole_root(0), 0);
    assert_eq!(whole_root(1), 1);
    assert_eq!(whole_root(3), 1);
    assert_eq!(whole_root(4), 2);
    assert_eq!(whole_root(99), 9);
    assert_eq!(whole_root(100), 10);
    assert_eq!(whole_root(0x0fff_ffff_ffff_ffff), 0x3fff_ffff);
    let mut patterns = Patterns(0x5151_6262_7373_8484);
    for _ in 0..100_000 {
        let n = ((patterns.next() as u64) << 28 | patterns.next() as u64) & 0x0fff_ffff_ffff_ffff;
        let r = whole_root(n);
        assert!(r * r <= n && n < (r + 1) * (r + 1));
    }
}
