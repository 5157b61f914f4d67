//! Scalar tokens: integers, decimals and calendar dates.
use vstd::prelude::*;
use crate::classify::{is_digit_byte, lemma_run_end, run_end, take_while, CharClass};
use crate::val::Date;

verus! {

pub open spec fn digit_of(b: u8) -> int {
    b as int - 0x30
}

/// The number that the decimal digits `s[a..b]` spell.
pub open spec fn digits_value(s: Seq<u8>, a: int, b: int) -> int
    decreases b - a,
{
    if b <= a {
        0
    } else {
        10 * digits_value(s, a, b - 1) + digit_of(s[b - 1])
    }
}

pub proof fn lemma_digits_value_grows(s: Seq<u8>, a: int, b: int, c: int)
    requires
        a <= b <= c <= s.len(),
        0 <= a,
        forall|j: int| a <= j < c ==> is_digit_byte(#[trigger] s[j]),
    ensures
        0 <= digits_value(s, a, b) <= digits_value(s, a, c),
    decreases c - a,
{
    if c > b {
        lemma_digits_value_grows(s, a, b, c - 1);
    } else if b > a {
        lemma_digits_value_grows(s, a, b - 1, b - 1);
    }
}

/// Reads the digits `input[a..b]` as a number, or `None` where it exceeds `bound`.
pub fn parse_digits(input: &[u8], a: usize, b: usize, bound: u64) -> (r: Option<u64>)
    requires
        a <= b <= input@.len(),
        forall|j: int| a <= j < b ==> is_digit_byte(#[trigger] input@[j]),
    ensures
        match r {
            Some(v) => v as int == digits_value(input@, a as int, b as int) && v <= bound,
            None => digits_value(input@, a as int, b as int) > bound,
        },
{
    let mut acc: u64 = 0;
    let mut i: usize = a;
    while i < b
        invariant
            a <= i <= b <= input@.len(),
            forall|j: int| a <= j < b ==> is_digit_byte(#[trigger] input@[j]),
            acc as int == digits_value(input@, a as int, i as int),
            acc <= bound,
        decreases b - i,
    {
        let d = (input[i] - 0x30) as u64;
        proof {
            lemma_digits_value_grows(input@, a as int, (i + 1) as int, b as int);
        }
        match acc.checked_mul(10) {
            None => {
                return None;
            },
            Some(m) => match m.checked_add(d) {
                None => {
                    return None;
                },
                Some(x) => {
                    if x > bound {
                        return None;
                    }
                    acc = x;
                },
            },
        }
        i = i + 1;
    }
    Some(acc)
}

/// Where the digits after an optional minus sign at `a` start.
pub open spec fn after_sign(s: Seq<u8>, a: int) -> int {
    if 0 <= a < s.len() && s[a] == 0x2d {
        a + 1
    } else {
        a
    }
}

/// `s[a..e]` is an integer token: an optional minus sign, then one or more digits.
pub open spec fn is_integer_token(s: Seq<u8>, a: int, e: int) -> bool {
    let m = after_sign(s, a);
    m < e && run_end(s, m, CharClass::Digit) == e
}

/// The value of the integer token `s[a..e]`.
pub open spec fn integer_token_value(s: Seq<u8>, a: int, e: int) -> int {
    let v = digits_value(s, after_sign(s, a), e);
    if after_sign(s, a) == a {
        v
    } else {
        -v
    }
}

/// `s[a..e]` is an integer token whose value fits in an `i64`.
pub open spec fn is_i64_token(s: Seq<u8>, a: int, e: int) -> bool {
    is_integer_token(s, a, e) && i64::MIN <= integer_token_value(s, a, e) <= i64::MAX
}

/// `s[a..e]` is a decimal token: an optional minus sign, digits, a dot, digits.
pub open spec fn is_decimal_token(s: Seq<u8>, a: int, e: int) -> bool {
    let m = after_sign(s, a);
    let d1 = run_end(s, m, CharClass::Digit);
    m < d1 && d1 + 1 < e && s[d1] == 0x2e && run_end(s, d1 + 1, CharClass::Digit) == e
}

/// Where the two dots of the date token `s[a..e]` stand (digits, dot, digits, dot, digits).
pub open spec fn date_dots(s: Seq<u8>, a: int, e: int) -> Option<(int, int)> {
    let d1 = run_end(s, a, CharClass::Digit);
    let d2 = run_end(s, d1 + 1, CharClass::Digit);
    if a < d1 && d1 + 1 < d2 && d2 + 1 < e && s[d1] == 0x2e && s[d2] == 0x2e && run_end(
        s,
        d2 + 1,
        CharClass::Digit,
    ) == e {
        Some((d1, d2))
    } else {
        None
    }
}

pub open spec fn is_leap_year(y: int) -> bool {
    y % 4 == 0 && (y % 100 != 0 || y % 400 == 0)
}

pub open spec fn days_in_month(y: int, m: int) -> int {
    if m == 2 {
        if is_leap_year(y) {
            29
        } else {
            28
        }
    } else if m == 4 || m == 6 || m == 9 || m == 11 {
        30
    } else {
        31
    }
}

pub const MIN_YEAR: i32 = -262143;

pub const MAX_YEAR: i32 = 262142;

/// A day of the proleptic Gregorian calendar, within the years that dates support.
pub open spec fn is_calendar_date(y: int, m: int, d: int) -> bool {
    MIN_YEAR <= y <= MAX_YEAR && 1 <= m <= 12 && 1 <= d <= days_in_month(y, m)
}

/// The date that the date token `s[a..e]` names, where it is a calendar date.
pub open spec fn date_token_value(s: Seq<u8>, a: int, e: int) -> Option<Date> {
    match date_dots(s, a, e) {
        Some((d1, d2)) => {
            let y = digits_value(s, a, d1);
            let m = digits_value(s, d1 + 1, d2);
            let d = digits_value(s, d2 + 1, e);
            if is_calendar_date(y, m, d) {
                Some(Date { year: y as i32, month: m as u32, day: d as u32 })
            } else {
                None
            }
        },
        None => None,
    }
}

/// Relies on chrono's `NaiveDate::from_ymd_opt`, which is `Some` exactly for the existing
/// days of the proleptic Gregorian calendar within its year range.
#[verifier::external_body]
fn calendar_date_exists(year: i32, month: u32, day: u32) -> (r: bool)
    ensures
        r == is_calendar_date(year as int, month as int, day as int),
{
    chrono::NaiveDate::from_ymd_opt(year, month, day).is_some()
}

/// Reads `input[a..e]` as an integer token; `None` where it is none, or does not fit in an
/// `i64`.
pub fn integer_token(input: &[u8], a: usize, e: usize) -> (r: Option<i64>)
    requires
        a <= e <= input@.len(),
    ensures
        r is Some <==> is_i64_token(input@, a as int, e as int),
        r matches Some(n) ==> n as int == integer_token_value(input@, a as int, e as int),
{
    let negative = a < input.len() && input[a] == 0x2d;
    let m: usize = if negative { a + 1 } else { a };
    if !(m < e) {
        return None;
    }
    let d = take_while(input, m, CharClass::Digit);
    if d != e {
        return None;
    }
    proof {
        lemma_run_end(input@, m as int, CharClass::Digit);
    }
    let bound: u64 = if negative { 9223372036854775808u64 } else { 9223372036854775807u64 };
    match parse_digits(input, m, e, bound) {
        None => None,
        Some(v) => {
            if negative {
                if v == 9223372036854775808u64 {
                    Some(i64::MIN)
                } else {
                    Some(-(v as i64))
                }
            } else {
                Some(v as i64)
            }
        },
    }
}

/// Whether `input[a..e]` is a decimal token.
pub fn decimal_token(input: &[u8], a: usize, e: usize) -> (r: bool)
    requires
        a <= e <= input@.len(),
    ensures
        r == is_decimal_token(input@, a as int, e as int),
{
    let m: usize = if a < input.len() && input[a] == 0x2d { a + 1 } else { a };
    if m > e {
        return false;
    }
    let d1 = take_while(input, m, CharClass::Digit);
    proof {
        lemma_run_end(input@, m as int, CharClass::Digit);
    }
    if !(m < d1 && d1 < e && d1 + 1 < e && input[d1] == 0x2e) {
        return false;
    }
    take_while(input, d1 + 1, CharClass::Digit) == e
}

/// Reads `input[a..e]` as a date token: `None` where it has not the shape of one, else
/// the date it names, where that is a calendar date.
pub fn date_token(input: &[u8], a: usize, e: usize) -> (r: Option<Option<Date>>)
    requires
        a <= e <= input@.len(),
    ensures
        r is Some <==> date_dots(input@, a as int, e as int) is Some,
        r matches Some(d) ==> d == date_token_value(input@, a as int, e as int),
{
    let d1 = take_while(input, a, CharClass::Digit);
    proof {
        lemma_run_end(input@, a as int, CharClass::Digit);
    }
    if !(a < d1 && d1 < e && d1 + 1 < e) {
        return None;
    }
    let d2 = take_while(input, d1 + 1, CharClass::Digit);
    proof {
        lemma_run_end(input@, d1 + 1, CharClass::Digit);
    }
    if !(d1 + 1 < d2 && d2 < e && d2 + 1 < e && input[d1] == 0x2e && input[d2] == 0x2e) {
        return None;
    }
    let d3 = take_while(input, d2 + 1, CharClass::Digit);
    if d3 != e {
        return None;
    }
    proof {
        lemma_run_end(input@, d2 + 1, CharClass::Digit);
    }
    let y = parse_digits(input, a, d1, MAX_YEAR as u64);
    let m = parse_digits(input, d1 + 1, d2, 12);
    let d = parse_digits(input, d2 + 1, e, 31);
    match (y, m, d) {
        (Some(y), Some(m), Some(d)) => {
            if calendar_date_exists(y as i32, m as u32, d as u32) {
                Some(Some(Date { year: y as i32, month: m as u32, day: d as u32 }))
            } else {
                Some(None)
            }
        },
        _ => Some(None),
    }
}

} // verus!
