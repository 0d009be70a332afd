//! Ways of reporting that a division cannot be carried out: a precondition, an
//! [`Option`] and a [`Result`].
use vstd::prelude::*;

verus! {

/// The quotient of `num` by `d` rounded towards zero. On mathematical integers
/// `/` rounds towards minus infinity for a positive divisor, so a negative
/// dividend is divided by its absolute value.
pub open spec fn truncated_quotient(num: int, d: int) -> int
    recommends
        d != 0,
{
    if num >= 0 {
        num / d
    } else {
        -((-num) / d)
    }
}

/// Whether `num / d` is defined and fits in an `i32`.
pub open spec fn divisible(num: i32, d: i32) -> bool {
    d != 0 && !(num == i32::MIN && d == -1)
}

/// Dividing a non-negative `x` by a non-zero `d` leaves `x == d * q + r` with
/// `0 <= r < |d|`, and the quotient is no larger in magnitude than `x`.
proof fn lemma_division_of_non_negative(x: int, d: int)
    requires
        x >= 0,
        d != 0,
    ensures
        x == d * (x / d) + x % d,
        0 <= x % d,
        d > 0 ==> x % d < d && 0 <= x / d <= x,
        d < 0 ==> x % d < -d && -x <= x / d <= 0,
        (d >= 2 || d <= -2) ==> -x <= 2 * (x / d) <= x,
        x == 0 ==> x % d == 0,
{
    vstd::arithmetic::div_mod::lemma_fundamental_div_mod(x, d);
    let q = x / d;
    let r = x % d;
    assert(0 <= r && (d > 0 ==> r < d) && (d < 0 ==> r < -d)) by (nonlinear_arith)
        requires
            d != 0,
            r == x % d,
    ;
    assert(d > 0 ==> 0 <= q <= x) by (nonlinear_arith)
        requires
            x == d * q + r,
            0 <= r,
            d > 0 ==> r < d,
            x >= 0,
    ;
    assert(d < 0 ==> -x <= q <= 0) by (nonlinear_arith)
        requires
            x == d * q + r,
            0 <= r,
            d < 0 ==> r < -d,
            x >= 0,
    ;
    assert(x == 0 ==> r == 0) by (nonlinear_arith)
        requires
            x == d * q + r,
            0 <= r,
            d > 0 ==> r < d,
            d < 0 ==> r < -d,
            d != 0,
    ;
    assert((d >= 2 || d <= -2) ==> -x <= 2 * q <= x) by (nonlinear_arith)
        requires
            x == d * q + r,
            0 <= r,
            d > 0 ==> r < d,
            d < 0 ==> r < -d,
            x >= 0,
    ;
}

/// What is left of `num` once `d` times the truncated quotient is taken away
/// is smaller in magnitude than `d` and never of the sign opposite to `num`:
/// the quotient is the one that rounds towards zero.
pub proof fn lemma_truncated_quotient_rounds_towards_zero(num: int, d: int)
    requires
        d != 0,
    ensures
        ({
            let rest = num - d * truncated_quotient(num, d);
            &&& num >= 0 ==> 0 <= rest
            &&& num <= 0 ==> rest <= 0
            &&& d > 0 ==> -d < rest < d
            &&& d < 0 ==> d < rest < -d
        }),
{
    if num >= 0 {
        lemma_division_of_non_negative(num, d);
    } else {
        lemma_division_of_non_negative(-num, d);
        let q = (-num) / d;
        assert(d * (-q) == -(d * q)) by (nonlinear_arith);
    }
}

/// The truncated quotient of two `i32` fits in an `i32` unless the divisor is
/// zero or the least `i32` is divided by `-1`.
pub proof fn lemma_truncated_quotient_fits(num: i32, d: i32)
    requires
        divisible(num, d),
    ensures
        i32::MIN <= truncated_quotient(num as int, d as int) <= i32::MAX,
{
    if num >= 0 {
        lemma_division_of_non_negative(num as int, d as int);
    } else {
        lemma_division_of_non_negative(-(num as int), d as int);
    }
}

/// Computes `num / d`. The caller must rule out a zero divisor and the one
/// quotient that does not fit.
pub fn naive_div(num: i32, d: i32) -> (q: i32)
    requires
        divisible(num, d),
    ensures
        q == truncated_quotient(num as int, d as int),
{
    proof {
        lemma_truncated_quotient_fits(num, d);
    }
    num / d
}

/// Computes `num / d`, or `None` for a zero divisor.
pub fn maybe_div(num: i32, d: i32) -> (q: Option<i32>)
    requires
        !(num == i32::MIN && d == -1),
    ensures
        d == 0 ==> q.is_none(),
        d != 0 ==> q == Some(truncated_quotient(num as int, d as int) as i32),
{
    if d != 0 {
        proof {
            lemma_truncated_quotient_fits(num, d);
        }
        Some(num / d)
    } else {
        None
    }
}

/// What parsing a text as a decimal `i32` gives: the number, or the message of
/// the reason why the text is none.
pub uninterp spec fn parsed_i32(text: Seq<char>) -> Result<i32, Seq<char>>;

/// Calls `str::parse::<i32>` and renders its error with `to_string`. The
/// contract only names the outcome as [`parsed_i32`] of the text: the grammar
/// of numbers is the standard library's and nothing of it is proved here.
#[verifier::external_body]
fn parse_i32(text: &str) -> (parsed: Result<i32, String>)
    ensures
        same_outcome(parsed, parsed_i32(text@)),
{
    match text.parse::<i32>() {
        Ok(value) => Ok(value),
        Err(reason) => Err(reason.to_string()),
    }
}

/// The message for a divisor that parsed as zero.
pub open spec fn division_by_zero_message() -> Seq<char> {
    "Division by zero!"@
}

/// The outcome of dividing `num` by a divisor that came out of a parser.
pub open spec fn divided(num: i32, divisor: Result<i32, Seq<char>>) -> Result<i32, Seq<char>> {
    match divisor {
        Ok(d) => if d != 0 {
            Ok(truncated_quotient(num as int, d as int) as i32)
        } else {
            Err(division_by_zero_message())
        },
        Err(reason) => Err(reason),
    }
}

/// Divides `num` by an already parsed divisor: the quotient, the message
/// "Division by zero!" for a zero divisor, or the parser's own message.
pub fn divide_parsed(num: i32, divisor: Result<i32, String>) -> (q: Result<i32, String>)
    requires
        num == i32::MIN ==> !(divisor matches Ok(d) && d == -1),
    ensures
        match (q, divisor) {
            (Ok(v), Ok(d)) => d != 0 && v == truncated_quotient(num as int, d as int),
            (Err(e), Ok(d)) => d == 0 && e@ == division_by_zero_message(),
            (Err(e), Err(reason)) => e == reason,
            (Ok(_), Err(_)) => false,
        },
{
    match divisor {
        Ok(d) => {
            if d != 0 {
                proof {
                    lemma_truncated_quotient_fits(num, d);
                }
                Ok(num / d)
            } else {
                Err("Division by zero!".to_string())
            }
        },
        Err(reason) => Err(reason),
    }
}

/// Whether dividing `num` by what the text `d` spells out would leave the
/// range of `i32`: the least `i32` divided by `-1`.
pub open spec fn quotient_overflows(num: i32, d: Seq<char>) -> bool {
    num == i32::MIN && parsed_i32(d) == Ok::<i32, Seq<char>>(-1i32)
}

/// Whether the executable outcome is the one that `expected` describes.
pub open spec fn same_outcome(got: Result<i32, String>, expected: Result<i32, Seq<char>>) -> bool {
    match (got, expected) {
        (Ok(v), Ok(w)) => v == w,
        (Err(e), Err(f)) => e@ == f,
        _ => false,
    }
}

/// Divides `num` by the number that the text `d` spells out: the quotient,
/// the message "Division by zero!" where the text spells zero, or the
/// parser's message where it spells no number. The one quotient that does
/// not fit is for the caller to rule out.
pub fn explained_div(num: i32, d: &str) -> (q: Result<i32, String>)
    requires
        !quotient_overflows(num, d@),
    ensures
        same_outcome(q, divided(num, parsed_i32(d@))),
{
    divide_parsed(num, parse_i32(d))
}

/// Divides like [`explained_div`] wherever the quotient fits, and returns
/// `None` for the one that does not.
pub fn checked_explained_div(num: i32, d: &str) -> (q: Option<Result<i32, String>>)
    ensures
        quotient_overflows(num, d@) ==> q.is_none(),
        !quotient_overflows(num, d@) ==> q.is_some() && same_outcome(
            q.unwrap(),
            divided(num, parsed_i32(d@)),
        ),
{
    if num == i32::MIN {
        match parse_i32(d) {
            Ok(v) => {
                if v == -1 {
                    return None;
                }
            },
            Err(_) => {},
        }
    }
    Some(explained_div(num, d))
}

} // verus!
