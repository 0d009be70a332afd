use rust_examples::typing::{
    better_cmp_f64, cmp_f64, is_sign_positive, safe_cmp_f64, truncate, Positive,
    DOUBLE_TWO_TO_32,
};
use std::cmp::Ordering;

fn check_safe_float_cmp(a: f64, b: f64, expected: Ordering) {
    let a = Positive::new(a.to_bits()).expect("a should be a positive float");
    let b = Positive::new(b.to_bits()).expect("b should be a positive float");
    assert_eq!(safe_cmp_f64(a, b), expected);
}

#[test]
fn safe_float_cmp_greater() {
    check_safe_float_cmp(2., 1., Ordering::Greater);
}

#[test]
fn safe_float_cmp_less() {
    check_safe_float_cmp(1., 2., Ordering::Less);
}

#[test]
fn safe_float_cmp_equal() {
    check_safe_float_cmp(1., 1., Ordering::Equal);
}

#[test]
fn negative_numbers_are_not_positive() {
    assert!(Positive::new((-24.0f64).to_bits()).is_none());
    assert!(Positive::new((-1.0f64).to_bits()).is_none());
    assert!(Positive::new((-0.0f64).to_bits()).is_none());
    assert!(Positive::new(0.0f64.to_bits()).is_some());
    assert!(Positive::new(f64::INFINITY.to_bits()).is_some());
    assert!(Positive::new(f64::NEG_INFINITY.to_bits()).is_none());
    assert!(is_sign_positive(42.0f64.to_bits()));
    assert!(!is_sign_positive((-42.0f64).to_bits()));
}

#[test]
fn as_u32_is_the_whole_part() {
    let pos = Positive::new(42.0f64.to_bits()).expect("positive number");
    assert_eq!(pos.as_u32(), 42);
    assert_eq!(pos.inner(), 42.0f64.to_bits());
    for (number, whole) in [
        (0.0f64, 0u32),
        (0.5, 0),
        (0.999_999, 0),
        (1.0, 1),
        (1.5, 1),
        (2.999, 2),
        (1234.5678, 1234),
        (4_294_967_295.0, u32::MAX),
        (4_294_967_295.999, u32::MAX),
        (f64::MIN_POSITIVE, 0),
        (5e-324, 0),
    ] {
        assert_eq!(truncate(number.to_bits()), whole);
        assert_eq!(truncate(number.to_bits()), number as u32);
    }
    assert_eq!(4_294_967_296.0f64.to_bits(), DOUBLE_TWO_TO_32);
}

#[test]
fn truncate_agrees_with_the_cast() {
    let mut state: u64 = 0x853c_49e6_748f_ea9b;
    for _ in 0..200_000 {
        state ^= state << 13;
        state ^= state >> 7;
        state ^= state << 17;
        let bits = state % DOUBLE_TWO_TO_32;
        assert_eq!(truncate(bits), f64::from_bits(bits) as u32);
        // Numbers of moderate size.
        let near = 0x3fe0_0000_0000_0000 + state % 0x0210_0000_0000_0000;
        assert_eq!(truncate(near), f64::from_bits(near) as u32);
    }
}

#[test]
fn comparisons_go_by_the_whole_part() {
    let bits = |x: f64| x.to_bits();
    assert_eq!(cmp_f64(bits(2.), bits(1.)), Ordering::Greater);
    assert_eq!(cmp_f64(bits(1.), bits(2.)), Ordering::Less);
    assert_eq!(cmp_f64(bits(1.), bits(1.)), Ordering::Equal);
    // Numbers with the same whole part compare equal.
    assert_eq!(cmp_f64(bits(1.25), bits(1.75)), Ordering::Equal);
    assert_eq!(cmp_f64(bits(0.9), bits(0.1)), Ordering::Equal);
    assert_eq!(cmp_f64(bits(3.0), bits(2.999)), Ordering::Greater);
}

#[test]
fn better_cmp_refuses_negative_numbers() {
    let bits = |x: f64| x.to_bits();
    assert_eq!(better_cmp_f64(bits(2.), bits(1.)), Some(Ordering::Greater));
    assert_eq!(better_cmp_f64(bits(1.), bits(2.)), Some(Ordering::Less));
    assert_eq!(better_cmp_f64(bits(7.5), bits(7.25)), Some(Ordering::Equal));
    assert_eq!(better_cmp_f64(bits(2.), bits(-1.)), None);
    assert_eq!(better_cmp_f64(bits(-1.), bits(2.)), None);
    assert_eq!(better_cmp_f64(bits(-1.), bits(-2.)), None);
    assert_eq!(better_cmp_f64(bits(-0.), bits(0.)), None);
}
