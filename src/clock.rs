//! The wall clock, through `chrono`, and the store's timestamp form
//! `YYYY-MM-DD HH:MM:SS`.
use vstd::prelude::*;

verus! {

#[verifier::external_type_specification]
#[verifier::external_body]
pub struct ExNaiveDateTime(chrono::NaiveDateTime);

/// Relies on `chrono::Utc::now`: the current time, in UTC. It depends on the
/// time of the call, so nothing is promised of it.
#[verifier::external_body]
pub(crate) fn utc_now() -> chrono::NaiveDateTime {
    chrono::Utc::now().naive_utc()
}

/// Relies on chrono's `Datelike::{year, month, day}` and
/// `Timelike::{hour, minute, second}` for `NaiveDateTime`: the fields of the
/// time, with the ranges that their documentation gives.
#[verifier::external_body]
pub(crate) fn datetime_fields(t: &chrono::NaiveDateTime) -> (r: (i32, u32, u32, u32, u32, u32))
    ensures
        1 <= r.1 <= 12,
        1 <= r.2 <= 31,
        r.3 <= 23,
        r.4 <= 59,
        r.5 <= 59,
{
    (
        chrono::Datelike::year(t),
        chrono::Datelike::month(t),
        chrono::Datelike::day(t),
        chrono::Timelike::hour(t),
        chrono::Timelike::minute(t),
        chrono::Timelike::second(t),
    )
}

/// The decimal digit character of `n`, for 0 to 9.
pub open spec fn digit_char(n: int) -> char {
    if n == 0 {
        '0'
    } else if n == 1 {
        '1'
    } else if n == 2 {
        '2'
    } else if n == 3 {
        '3'
    } else if n == 4 {
        '4'
    } else if n == 5 {
        '5'
    } else if n == 6 {
        '6'
    } else if n == 7 {
        '7'
    } else if n == 8 {
        '8'
    } else {
        '9'
    }
}

/// The two digits of `n`, for 0 to 99.
pub open spec fn two_digits(n: int) -> Seq<char> {
    seq![digit_char(n / 10), digit_char(n % 10)]
}

/// The four digits of `n`, for 0 to 9999.
pub open spec fn four_digits(n: int) -> Seq<char> {
    two_digits(n / 100) + two_digits(n % 100)
}

/// A time written as `YYYY-MM-DD HH:MM:SS`.
pub open spec fn timestamp_text(year: int, month: int, day: int, hour: int, minute: int, second: int) -> Seq<char> {
    four_digits(year) + seq!['-'] + two_digits(month) + seq!['-'] + two_digits(day) + seq![' '] + two_digits(hour)
        + seq![':'] + two_digits(minute) + seq![':'] + two_digits(second)
}

/// The text has the timestamp form: digits in `YYYY-MM-DD HH:MM:SS`, with
/// month, day, hour, minute and second in their ranges.
pub open spec fn is_timestamp(s: Seq<char>) -> bool {
    exists|year: int, month: int, day: int, hour: int, minute: int, second: int|
        0 <= year <= 9999 && 1 <= month <= 12 && 1 <= day <= 31 && 0 <= hour <= 23 && 0 <= minute <= 59
            && 0 <= second <= 59 && s == #[trigger] timestamp_text(year, month, day, hour, minute, second)
}

/// Appends the digit of `n`.
fn push_digit(s: &mut String, n: u32)
    requires
        n <= 9,
    ensures
        final(s)@ == old(s)@.push(digit_char(n as int)),
{
    let d = if n == 0 {
        "0"
    } else if n == 1 {
        "1"
    } else if n == 2 {
        "2"
    } else if n == 3 {
        "3"
    } else if n == 4 {
        "4"
    } else if n == 5 {
        "5"
    } else if n == 6 {
        "6"
    } else if n == 7 {
        "7"
    } else if n == 8 {
        "8"
    } else {
        "9"
    };
    proof {
        reveal_strlit("0");
        reveal_strlit("1");
        reveal_strlit("2");
        reveal_strlit("3");
        reveal_strlit("4");
        reveal_strlit("5");
        reveal_strlit("6");
        reveal_strlit("7");
        reveal_strlit("8");
        reveal_strlit("9");
        assert(d@ =~= seq![digit_char(n as int)]);
    }
    s.append(d);
}

/// Appends the two digits of `n`.
fn push_two(s: &mut String, n: u32)
    requires
        n <= 99,
    ensures
        final(s)@ == old(s)@ + two_digits(n as int),
{
    push_digit(s, n / 10);
    push_digit(s, n % 10);
    assert(s@ =~= old(s)@ + two_digits(n as int));
}

/// Appends one separator character: `-`, ` ` or `:`.
fn push_sep(s: &mut String, sep: char)
    requires
        sep == '-' || sep == ' ' || sep == ':',
    ensures
        final(s)@ == old(s)@.push(sep),
{
    proof {
        reveal_strlit("-");
        reveal_strlit(" ");
        reveal_strlit(":");
    }
    if sep == '-' {
        s.append("-");
    } else if sep == ' ' {
        s.append(" ");
    } else {
        s.append(":");
    }
    assert(s@ =~= old(s)@.push(sep));
}

/// Writes a time as `YYYY-MM-DD HH:MM:SS`.
pub fn format_timestamp(year: u32, month: u32, day: u32, hour: u32, minute: u32, second: u32) -> (r: String)
    requires
        year <= 9999,
        month <= 99,
        day <= 99,
        hour <= 99,
        minute <= 99,
        second <= 99,
    ensures
        r@ == timestamp_text(year as int, month as int, day as int, hour as int, minute as int, second as int),
{
    let mut s = String::new();
    push_two(&mut s, year / 100);
    push_two(&mut s, year % 100);
    push_sep(&mut s, '-');
    push_two(&mut s, month);
    push_sep(&mut s, '-');
    push_two(&mut s, day);
    push_sep(&mut s, ' ');
    push_two(&mut s, hour);
    push_sep(&mut s, ':');
    push_two(&mut s, minute);
    push_sep(&mut s, ':');
    push_two(&mut s, second);
    assert(s@ =~= timestamp_text(year as int, month as int, day as int, hour as int, minute as int, second as int));
    s
}

/// A time in the store's form. The form holds years 0000 to 9999, and a
/// year outside is brought to the nearest of them, so that timestamps keep
/// sorting in time order.
pub(crate) fn timestamp_of(t: &chrono::NaiveDateTime) -> (r: String)
    ensures
        is_timestamp(r@),
{
    let (y, mo, d, h, mi, s) = datetime_fields(t);
    let year: u32 = if y < 0 { 0 } else if y > 9999 { 9999 } else { y as u32 };
    let r = format_timestamp(year, mo, d, h, mi, s);
    assert(is_timestamp(r@)) by {
        assert(r@ == timestamp_text(year as int, mo as int, d as int, h as int, mi as int, s as int));
    }
    r
}

/// The current UTC time in the store's form.
pub(crate) fn current_timestamp() -> (r: String)
    ensures
        is_timestamp(r@),
{
    timestamp_of(&utc_now())
}

} // verus!
