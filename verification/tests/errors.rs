use rust_examples::errors::{
    checked_explained_div, divide_parsed, explained_div, maybe_div, naive_div,
};

#[test]
fn naive_div_rounds_towards_zero() {
    assert_eq!(naive_div(42, 2), 21);
    assert_eq!(naive_div(7, 2), 3);
    assert_eq!(naive_div(-7, 2), -3);
    assert_eq!(naive_div(7, -2), -3);
    assert_eq!(naive_div(-7, -2), 3);
    assert_eq!(naive_div(i32::MIN, 1), i32::MIN);
    assert_eq!(naive_div(i32::MIN, 2), -1073741824);
    assert_eq!(naive_div(i32::MAX, -1), -i32::MAX);
}

#[test]
fn maybe_div_works_some() {
    assert_eq!(maybe_div(42, 2), Some(21));
}

#[test]
fn maybe_div_works_none() {
    assert_eq!(maybe_div(42, 0), None);
}

#[test]
fn maybe_div_of_negative_numbers() {
    assert_eq!(maybe_div(-9, 4), Some(-2));
    assert_eq!(maybe_div(9, -4), Some(-2));
    assert_eq!(maybe_div(0, -4), Some(0));
    assert_eq!(maybe_div(i32::MIN, 0), None);
}

#[test]
fn explained_div_works_ok() {
    assert_eq!(explained_div(42, "2"), Ok(21));
}

#[test]
fn explained_div_works_err_zero_div() {
    assert_eq!(
        explained_div(42, "0"),
        Err(String::from("Division by zero!"))
    );
}

#[test]
fn explained_div_works_err_parse() {
    assert_eq!(
        explained_div(42, "abcdefg"),
        Err(String::from("invalid digit found in string"))
    );
}

#[test]
fn explained_div_reads_signs_and_reports_parse_errors() {
    assert_eq!(explained_div(42, "-2"), Ok(-21));
    assert_eq!(explained_div(-42, "+4"), Ok(-10));
    assert_eq!(
        explained_div(42, ""),
        Err(String::from("cannot parse integer from empty string"))
    );
    assert_eq!(
        explained_div(42, "99999999999"),
        Err(String::from("number too large to fit in target type"))
    );
}

#[test]
fn divide_parsed_passes_the_reason_on() {
    assert_eq!(divide_parsed(10, Ok(3)), Ok(3));
    assert_eq!(
        divide_parsed(10, Ok(0)),
        Err(String::from("Division by zero!"))
    );
    assert_eq!(
        divide_parsed(10, Err(String::from("no number"))),
        Err(String::from("no number"))
    );
}

#[test]
fn checked_explained_div_refuses_the_quotient_that_does_not_fit() {
    assert_eq!(checked_explained_div(i32::MIN, "-1"), None);
    assert_eq!(checked_explained_div(i32::MIN, "-01"), None);
    assert_eq!(checked_explained_div(i32::MIN, "1"), Some(Ok(i32::MIN)));
    assert_eq!(checked_explained_div(i32::MIN, "2"), Some(Ok(-1073741824)));
    assert_eq!(checked_explained_div(i32::MAX, "-1"), Some(Ok(-i32::MAX)));
    assert_eq!(checked_explained_div(42, "2"), Some(Ok(21)));
    assert_eq!(
        checked_explained_div(i32::MIN, "0"),
        Some(Err(String::from("Division by zero!")))
    );
    assert_eq!(
        checked_explained_div(i32::MIN, "x"),
        Some(Err(String::from("invalid digit found in string")))
    );
}
