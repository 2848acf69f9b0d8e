//! Human-readable dates ("2 days ago", "yesterday", "2024-01-01") turned
//! into the store's `YYYY-MM-DD HH:MM:SS` form. Calendar formats and the
//! clock come from `chrono`; the phrases are read here.
use vstd::prelude::*;
use crate::clock::{timestamp_of, utc_now};
use crate::input::{decimal_of, is_digit, parse_i64};
use crate::text::{char_is_white_space, is_white_space, compare_text, lemma_text_cmp, lower_of, lowercase_text, texts, trim_of, trim_text};

verus! {

/// The largest shift, in seconds, that a relative date may ask for
/// (`chrono`'s durations stop at `i64::MAX` milliseconds).
pub const MAX_SHIFT_SECONDS: i64 = 9223372036854775;

/// A date relative to the clock.
#[derive(Debug, Clone, Copy, PartialEq, Eq, Structural)]
pub enum ClockShift {
    /// The current time.
    Now,
    /// Midnight of today, moved by this many days.
    Days(i64),
    /// The current time, moved by this many seconds.
    Seconds(i64),
}

/// Whether `chrono::NaiveDateTime::parse_from_str` reads the text with
/// `%Y-%m-%d %H:%M:%S`.
pub uninterp spec fn datetime_text_ok(s: Seq<char>) -> bool;

/// The date that `chrono::NaiveDate::parse_from_str` reads from the text
/// with `%Y-%m-%d`, written back as `YYYY-MM-DD`.
pub uninterp spec fn date_text_of(s: Seq<char>) -> Option<Seq<char>>;

/// The runs of a text between its white-space characters, empty runs
/// included.
pub open spec fn space_split(s: Seq<char>) -> Seq<Seq<char>>
    decreases s.len(),
{
    if s.len() == 0 {
        seq![Seq::empty()]
    } else {
        let before = space_split(s.drop_last());
        if is_white_space(s.last()) {
            before.push(Seq::empty())
        } else {
            before.update(before.len() - 1, before.last().push(s.last()))
        }
    }
}

/// The runs that are not empty.
pub open spec fn non_empty(p: Seq<Seq<char>>) -> Seq<Seq<char>>
    decreases p.len(),
{
    if p.len() == 0 {
        Seq::empty()
    } else {
        let before = non_empty(p.drop_last());
        if p.last().len() == 0 {
            before
        } else {
            before.push(p.last())
        }
    }
}

/// The words of a text, as `str::split_whitespace` cuts them: the
/// non-empty runs between white space.
pub open spec fn words_of(s: Seq<char>) -> Seq<Seq<char>> {
    non_empty(space_split(s))
}

proof fn lemma_space_split_len(s: Seq<char>)
    ensures
        space_split(s).len() >= 1,
    decreases s.len(),
{
    if s.len() > 0 {
        lemma_space_split_len(s.drop_last());
    }
}

/// Relies on `chrono::NaiveDateTime::parse_from_str`: whether the text is a
/// date and time in `%Y-%m-%d %H:%M:%S`, which depends on the text alone.
#[verifier::external_body]
fn is_datetime_text(s: &str) -> (r: bool)
    ensures
        r == datetime_text_ok(s@),
{
    chrono::NaiveDateTime::parse_from_str(s, "%Y-%m-%d %H:%M:%S").is_ok()
}

/// Relies on `chrono::NaiveDate::parse_from_str` and the date's `Display`:
/// the date read with `%Y-%m-%d`, written as `YYYY-MM-DD`; it depends on the
/// text alone.
#[verifier::external_body]
fn date_text(s: &str) -> (r: Option<String>)
    ensures
        r is Some <==> date_text_of(s@) is Some,
        r matches Some(d) ==> Some(d@) == date_text_of(s@),
{
    match chrono::NaiveDate::parse_from_str(s, "%Y-%m-%d") {
        Ok(d) => Some(d.to_string()),
        Err(_) => None,
    }
}

/// The words of a text, as [`words_of`] states.
fn split_words(s: &str) -> (r: Vec<String>)
    ensures
        texts(r@) == words_of(s@),
{
    let n = s.unicode_len();
    let mut r: Vec<String> = Vec::new();
    let mut start: usize = 0;
    let mut i: usize = 0;
    let ghost mut done: Seq<Seq<char>> = Seq::empty();
    assert(s@.subrange(0, 0) =~= Seq::<char>::empty());
    assert(space_split(s@.subrange(0, 0)) =~= done.push(s@.subrange(0, 0)));
    while i < n
        invariant
            start <= i <= n,
            n == s@.len(),
            space_split(s@.subrange(0, i as int)) == done.push(s@.subrange(start as int, i as int)),
            texts(r@) == non_empty(done),
        decreases n - i,
    {
        let c = s.get_char(i);
        proof {
            let pre = s@.subrange(0, i as int);
            let post = s@.subrange(0, i + 1);
            assert(post.drop_last() =~= pre);
            assert(post.last() == c);
            lemma_space_split_len(pre);
        }
        if char_is_white_space(c) {
            let piece = String::from_str(s.substring_char(start, i));
            let ghost full = done.push(s@.subrange(start as int, i as int));
            proof {
                assert(full.drop_last() =~= done);
            }
            if piece.unicode_len() > 0 {
                let ghost pv = piece@;
                r.push(piece);
                assert(texts(r@) =~= non_empty(done).push(pv));
            }
            proof {
                done = full;
                assert(s@.subrange(i + 1, i + 1) =~= Seq::<char>::empty());
            }
            start = i + 1;
        } else {
            proof {
                assert(s@.subrange(start as int, i + 1) =~= s@.subrange(start as int, i as int).push(c));
                assert(done.push(s@.subrange(start as int, i as int)).update(done.len() as int,
                    s@.subrange(start as int, i + 1)) =~= done.push(s@.subrange(start as int, i + 1)));
            }
        }
        i = i + 1;
    }
    let piece = String::from_str(s.substring_char(start, n));
    let ghost full = done.push(s@.subrange(start as int, n as int));
    proof {
        assert(s@.subrange(0, n as int) =~= s@);
        assert(full.drop_last() =~= done);
    }
    if piece.unicode_len() > 0 {
        let ghost pv = piece@;
        r.push(piece);
        assert(texts(r@) =~= non_empty(done).push(pv));
    }
    r
}

/// Relies on `NaiveDateTime::date` and `NaiveDate::and_hms_opt`: midnight of
/// the time's day (which always exists).
#[verifier::external_body]
fn start_of_day(t: &chrono::NaiveDateTime) -> Option<chrono::NaiveDateTime> {
    t.date().and_hms_opt(0, 0, 0)
}

/// Relies on `TimeDelta::try_days` and `NaiveDateTime::checked_add_signed`:
/// the time moved by `days`; `None` out of chrono's range.
#[verifier::external_body]
fn add_days(t: &chrono::NaiveDateTime, days: i64) -> Option<chrono::NaiveDateTime> {
    t.checked_add_signed(chrono::TimeDelta::try_days(days)?)
}

/// Relies on `TimeDelta::try_seconds` and `NaiveDateTime::checked_add_signed`:
/// the time moved by `seconds`; `None` out of chrono's range.
#[verifier::external_body]
fn add_seconds(t: &chrono::NaiveDateTime, seconds: i64) -> Option<chrono::NaiveDateTime> {
    t.checked_add_signed(chrono::TimeDelta::try_seconds(seconds)?)
}

/// The text without its trailing `s` characters.
pub open spec fn strip_s(u: Seq<char>) -> Seq<char>
    decreases u.len(),
{
    if u.len() > 0 && u.last() == 's' {
        strip_s(u.drop_last())
    } else {
        u
    }
}

/// The length in seconds of a unit name (plural or not); months are 30
/// days and years 365.
pub open spec fn unit_seconds_of(u: Seq<char>) -> Option<i64> {
    let v = strip_s(u);
    if v == "second"@ || v == "sec"@ {
        Some(1)
    } else if v == "minute"@ || v == "min"@ {
        Some(60)
    } else if v == "hour"@ || v == "hr"@ || v == "h"@ {
        Some(3600)
    } else if v == "day"@ || v == "d"@ {
        Some(86400)
    } else if v == "week"@ || v == "wk"@ || v == "w"@ {
        Some(604800)
    } else if v == "month"@ || v == "mon"@ {
        Some(2592000)
    } else if v == "year"@ || v == "yr"@ || v == "y"@ {
        Some(31536000)
    } else {
        None
    }
}

/// `n` units of `unit`, in seconds, where both read and the shift is within
/// range.
pub open spec fn amount_of(n: Option<i64>, unit: Seq<char>) -> Option<i64> {
    match n {
        Some(n) => match unit_seconds_of(unit) {
            Some(k) => if -MAX_SHIFT_SECONDS <= n * k <= MAX_SHIFT_SECONDS { Some((n * k) as i64) } else { None },
            None => None,
        },
        None => None,
    }
}

/// The length of the run of ASCII digits at the start of `s`, from `i` on.
pub open spec fn digit_run_from(s: Seq<char>, i: int) -> int
    decreases s.len() - i,
{
    if 0 <= i < s.len() && is_digit(s[i]) {
        digit_run_from(s, i + 1)
    } else {
        i
    }
}

/// A duration in seconds written as words: a number and a unit
/// (`2 days`), or one word of digits and a unit (`3h`).
pub open spec fn duration_of(w: Seq<Seq<char>>) -> Option<i64> {
    if w.len() == 2 {
        amount_of(decimal_of(w[0]), w[1])
    } else if w.len() == 1 {
        let k = digit_run_from(w[0], 0);
        if 0 < k < w[0].len() {
            amount_of(decimal_of(w[0].take(k)), w[0].skip(k))
        } else {
            None
        }
    } else {
        None
    }
}

/// The clock-relative date that a trimmed, lower-case text names: `now`,
/// `today`, `yesterday`, `tomorrow`, `<duration> ago` or `in <duration>`.
pub open spec fn phrase_of(s: Seq<char>) -> Option<ClockShift> {
    if s == "now"@ {
        Some(ClockShift::Now)
    } else if s == "today"@ {
        Some(ClockShift::Days(0))
    } else if s == "yesterday"@ {
        Some(ClockShift::Days(-1i64))
    } else if s == "tomorrow"@ {
        Some(ClockShift::Days(1))
    } else {
        let ago = if s.len() >= 4 && s.skip(s.len() - 4) == " ago"@ {
            duration_of(words_of(s.take(s.len() - 4)))
        } else {
            None
        };
        match ago {
            Some(d) => Some(ClockShift::Seconds(-d as i64)),
            None => if s.len() >= 3 && s.take(3) == "in "@ {
                match duration_of(words_of(s.skip(3))) {
                    Some(d) => Some(ClockShift::Seconds(d)),
                    None => None,
                }
            } else {
                None
            },
        }
    }
}

/// Whether the text is the literal `lit`.
fn is_word(a: &str, lit: &str) -> (r: bool)
    ensures
        r == (a@ == lit@),
{
    proof {
        lemma_text_cmp(a@, lit@);
    }
    compare_text(a, lit) == 0
}

/// The length in seconds of a unit name, as [`unit_seconds_of`] states.
pub fn unit_seconds(unit: &str) -> (r: Option<i64>)
    ensures
        r == unit_seconds_of(unit@),
{
    let mut k: usize = unit.unicode_len();
    assert(unit@.take(k as int) =~= unit@);
    while k > 0 && unit.get_char(k - 1) == 's'
        invariant
            k <= unit@.len(),
            strip_s(unit@) == strip_s(unit@.take(k as int)),
        decreases k,
    {
        proof {
            assert(unit@.take(k as int).drop_last() =~= unit@.take(k - 1));
        }
        k = k - 1;
    }
    let v = unit.substring_char(0, k);
    proof {
        assert(v@ =~= unit@.take(k as int));
        assert(strip_s(v@) == v@);
    }
    if is_word(v, "second") || is_word(v, "sec") {
        Some(1)
    } else if is_word(v, "minute") || is_word(v, "min") {
        Some(60)
    } else if is_word(v, "hour") || is_word(v, "hr") || is_word(v, "h") {
        Some(3600)
    } else if is_word(v, "day") || is_word(v, "d") {
        Some(86400)
    } else if is_word(v, "week") || is_word(v, "wk") || is_word(v, "w") {
        Some(604800)
    } else if is_word(v, "month") || is_word(v, "mon") {
        Some(2592000)
    } else if is_word(v, "year") || is_word(v, "yr") || is_word(v, "y") {
        Some(31536000)
    } else {
        None
    }
}

/// `n` units of `unit` in seconds, as [`amount_of`] states.
fn amount(n: Option<i64>, unit: &str) -> (r: Option<i64>)
    ensures
        r == amount_of(n, unit@),
{
    let n = match n {
        Some(n) => n,
        None => return None,
    };
    let k = match unit_seconds(unit) {
        Some(k) => k,
        None => return None,
    };
    let bound = MAX_SHIFT_SECONDS / k;
    if n > bound || n < -bound {
        proof {
            if n > bound {
                assert(n * k > MAX_SHIFT_SECONDS) by (nonlinear_arith)
                    requires
                        n > bound,
                        bound == MAX_SHIFT_SECONDS / k,
                        k >= 1;
            } else {
                assert(n * k < -MAX_SHIFT_SECONDS) by (nonlinear_arith)
                    requires
                        n < -bound,
                        bound == MAX_SHIFT_SECONDS / k,
                        k >= 1;
            }
        }
        return None;
    }
    proof {
        assert(-MAX_SHIFT_SECONDS <= n * k <= MAX_SHIFT_SECONDS) by (nonlinear_arith)
            requires
                -bound <= n <= bound,
                bound == MAX_SHIFT_SECONDS / k,
                k >= 1;
    }
    Some(n * k)
}

/// A duration written as words, as [`duration_of`] states.
pub fn parse_duration(input: &str) -> (r: Option<i64>)
    ensures
        r == duration_of(words_of(input@)),
{
    let words = split_words(input);
    proof {
        assert(words@.len() == words_of(input@).len());
    }
    if words.len() == 2 {
        assert(texts(words@)[0] == words@[0]@ && texts(words@)[1] == words@[1]@);
        return amount(parse_i64(words[0].as_str()), words[1].as_str());
    }
    if words.len() == 1 {
        let w = words[0].as_str();
        assert(texts(words@)[0] == w@);
        let n = w.unicode_len();
        let mut k: usize = 0;
        while k < n && is_ascii_digit(w.get_char(k))
            invariant
                k <= n,
                n == w@.len(),
                digit_run_from(w@, 0) == digit_run_from(w@, k as int),
            decreases n - k,
        {
            k = k + 1;
        }
        if k > 0 && k < n {
            let head = w.substring_char(0, k);
            let tail = w.substring_char(k, n);
            proof {
                assert(head@ =~= w@.take(k as int));
                assert(tail@ =~= w@.skip(k as int));
            }
            return amount(parse_i64(head), tail);
        }
        return None;
    }
    None
}

/// Whether a character is an ASCII digit.
fn is_ascii_digit(c: char) -> (r: bool)
    ensures
        r == is_digit(c),
{
    c >= '0' && c <= '9'
}

/// The clock-relative date that a trimmed, lower-case text names, as
/// [`phrase_of`] states.
pub fn relative_date(s: &str) -> (r: Option<ClockShift>)
    ensures
        r == phrase_of(s@),
{
    if is_word(s, "now") {
        return Some(ClockShift::Now);
    }
    if is_word(s, "today") {
        return Some(ClockShift::Days(0));
    }
    if is_word(s, "yesterday") {
        return Some(ClockShift::Days(-1));
    }
    if is_word(s, "tomorrow") {
        return Some(ClockShift::Days(1));
    }
    let n = s.unicode_len();
    let ago = if n >= 4 {
        let last4 = s.substring_char(n - 4, n);
        assert(last4@ =~= s@.skip(n - 4));
        if is_word(last4, " ago") {
            let front = s.substring_char(0, n - 4);
            assert(front@ =~= s@.take(n - 4));
            parse_duration(front)
        } else {
            None
        }
    } else {
        None
    };
    match ago {
        Some(d) => Some(ClockShift::Seconds(-d)),
        None => {
            if n >= 3 {
                let first3 = s.substring_char(0, 3);
                assert(first3@ =~= s@.take(3));
                if is_word(first3, "in ") {
                    let rest = s.substring_char(3, n);
                    assert(rest@ =~= s@.skip(3));
                    match parse_duration(rest) {
                        Some(d) => Some(ClockShift::Seconds(d)),
                        None => None,
                    }
                } else {
                    None
                }
            } else {
                None
            }
        },
    }
}

/// The date a clock-relative date stands for now, or `None` out of range.
fn resolve_shift(shift: ClockShift) -> Option<String> {
    let now = utc_now();
    let moved = match shift {
        ClockShift::Now => Some(now),
        ClockShift::Days(d) => match start_of_day(&now) {
            Some(midnight) => add_days(&midnight, d),
            None => None,
        },
        ClockShift::Seconds(s) => add_seconds(&now, s),
    };
    match moved {
        Some(t) => Some(timestamp_of(&t)),
        None => None,
    }
}

/// A human-readable date in the store's form: a date and time in that form
/// already, a date alone (at midnight), or a phrase relative to the clock.
/// The text is trimmed and lower-cased first; `None` where it is none of
/// these.
pub fn parse_human_date(input: &str) -> (r: Option<String>)
    ensures
        ({
            let s = lower_of(trim_of(input@));
            if datetime_text_ok(s) {
                r matches Some(x) && x@ == s
            } else if date_text_of(s) is Some {
                r matches Some(x) && x@ == date_text_of(s)->Some_0 + " 00:00:00"@
            } else if phrase_of(s) is None {
                r is None
            } else {
                true
            }
        }),
{
    let trimmed = trim_text(input);
    let s = lowercase_text(trimmed.as_str());
    if is_datetime_text(s.as_str()) {
        return Some(s);
    }
    match date_text(s.as_str()) {
        Some(mut d) => {
            d.append(" 00:00:00");
            Some(d)
        },
        None => match relative_date(s.as_str()) {
            Some(shift) => resolve_shift(shift),
            None => None,
        },
    }
}

} // verus!
