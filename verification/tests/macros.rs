use rust_examples::macros::MaxValue;

#[test]
fn max_values() {
    assert_eq!(u32::max_value(), u32::MAX);
    assert_eq!(i32::max_value(), i32::MAX);
    assert_eq!(u64::max_value(), u64::MAX);
    assert_eq!(i64::max_value(), i64::MAX);
}
