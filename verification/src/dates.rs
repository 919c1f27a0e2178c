//! Dates and times as the adaptor reads and writes them: which texts are
//! already in the form of RFC 3339, and the calls that turn other texts and
//! numbers into that form.

use crate::text::{chars_of, count_digits, digit_run, is_digit, is_digit_char, text_of};
use chrono::TimeZone;
use vstd::prelude::*;

verus! {

/// The number that the two digits at `i` and after it stand for.
pub open spec fn two_digits(s: Seq<char>, i: int) -> int {
    (s[i] as int - '0' as int) * 10 + (s[i + 1] as int - '0' as int)
}

/// The number that the four digits at `i` and after it stand for.
pub open spec fn four_digits(s: Seq<char>, i: int) -> int {
    two_digits(s, i) * 100 + two_digits(s, i + 2)
}

/// Whether every character from `from` up to `to` is a digit.
pub open spec fn digits_between(s: Seq<char>, from: int, to: int) -> bool {
    forall|i: int| from <= i < to ==> is_digit(#[trigger] s[i])
}

/// Whether a year has a leap day.
pub open spec fn is_leap_year(y: int) -> bool {
    y % 4 == 0 && (y % 100 != 0 || y % 400 == 0)
}

/// The number of days of a month.
pub open spec fn days_in_month(y: int, m: int) -> int {
    if m == 2 {
        if is_leap_year(y) {
            29
        } else {
            28
        }
    } else if m == 4 || m == 6 || m == 9 || m == 11 {
        30
    } else {
        31
    }
}

/// Whether the calendar has such a day.
pub open spec fn is_calendar_day(y: int, m: int, d: int) -> bool {
    1 <= m <= 12 && 1 <= d <= days_in_month(y, m)
}

/// Whether a text begins with four digits, `-`, two digits, `-`, two digits.
pub open spec fn has_date_shape(s: Seq<char>) -> bool {
    &&& s.len() >= 10
    &&& digits_between(s, 0, 4)
    &&& s[4] == '-'
    &&& digits_between(s, 5, 7)
    &&& s[7] == '-'
    &&& digits_between(s, 8, 10)
}

/// Whether a text is a full date as RFC 3339 writes it: `YYYY-MM-DD`, of a
/// day that the calendar has.
pub open spec fn is_date(s: Seq<char>) -> bool {
    &&& s.len() == 10
    &&& has_date_shape(s)
    &&& is_calendar_day(four_digits(s, 0), two_digits(s, 5), two_digits(s, 8))
}

/// What looks like a date at the beginning of a text, whether or not the
/// calendar has such a day.
pub open spec fn date_prefix(s: Seq<char>) -> Option<Seq<char>> {
    if has_date_shape(s) {
        Some(s.take(10))
    } else {
        None
    }
}

/// Whether the text from `from` on is an offset from UTC as RFC 3339 writes
/// it: `Z`, or a sign, two digits of hours, `:`, two digits of minutes.
pub open spec fn is_offset(s: Seq<char>, from: int) -> bool {
    ||| (s.len() == from + 1 && (s[from] == 'Z' || s[from] == 'z'))
    ||| {
        &&& s.len() == from + 6
        &&& (s[from] == '+' || s[from] == '-')
        &&& digits_between(s, from + 1, from + 3)
        &&& s[from + 3] == ':'
        &&& digits_between(s, from + 4, from + 6)
        &&& two_digits(s, from + 1) <= 23
        &&& two_digits(s, from + 4) <= 59
    }
}

/// Where the seconds of a date-time end: after the fraction, if there is one.
pub open spec fn seconds_end(s: Seq<char>) -> int {
    if s.len() > 19 && s[19] == '.' {
        20 + digit_run(s, 20)
    } else {
        19
    }
}

/// Whether a text is a date-time as RFC 3339 writes it:
/// `YYYY-MM-DDTHH:MM:SS`, a fraction of the second if any, and the offset
/// from UTC; of a day that the calendar has and a time that the clock has,
/// where the second may be 60 for a leap second. `T` and `Z` may be written
/// small.
pub open spec fn is_date_time(s: Seq<char>) -> bool {
    &&& s.len() >= 20
    &&& has_date_shape(s)
    &&& is_calendar_day(four_digits(s, 0), two_digits(s, 5), two_digits(s, 8))
    &&& (s[10] == 'T' || s[10] == 't')
    &&& digits_between(s, 11, 13)
    &&& s[13] == ':'
    &&& digits_between(s, 14, 16)
    &&& s[16] == ':'
    &&& digits_between(s, 17, 19)
    &&& two_digits(s, 11) <= 23
    &&& two_digits(s, 14) <= 59
    &&& two_digits(s, 17) <= 60
    &&& (s[19] == '.' ==> digit_run(s, 20) >= 1)
    &&& is_offset(s, seconds_end(s))
}

/// Whether the characters from `from` up to `to` are digits.
fn all_digits_between(chars: &Vec<char>, from: usize, to: usize) -> (r: bool)
    requires
        from <= to <= chars@.len(),
    ensures
        r == digits_between(chars@, from as int, to as int),
{
    let mut i: usize = from;
    while i < to
        invariant
            from <= i <= to,
            to <= chars@.len(),
            digits_between(chars@, from as int, i as int),
        decreases to - i,
    {
        if !is_digit_char(chars[i]) {
            return false;
        }
        i = i + 1;
    }
    true
}

/// The number that the two digits at `i` and after it stand for.
fn read_two(chars: &Vec<char>, i: usize) -> (r: u32)
    requires
        i + 2 <= chars@.len(),
        digits_between(chars@, i as int, i + 2),
    ensures
        r == two_digits(chars@, i as int),
        r <= 99,
{
    assert(is_digit(chars@[i as int]));
    assert(is_digit(chars@[i + 1]));
    let n: usize = chars.len();
    (chars[i] as u32 - 48) * 10 + (chars[i + 1] as u32 - 48)
}

fn has_date_shape_at(chars: &Vec<char>) -> (r: bool)
    ensures
        r == has_date_shape(chars@),
{
    chars.len() >= 10 && all_digits_between(chars, 0, 4) && chars[4] == '-' && all_digits_between(
        chars,
        5,
        7,
    ) && chars[7] == '-' && all_digits_between(chars, 8, 10)
}

fn calendar_has(y: u32, m: u32, d: u32) -> (r: bool)
    ensures
        r == is_calendar_day(y as int, m as int, d as int),
{
    if m < 1 || m > 12 || d < 1 {
        return false;
    }
    let leap = y % 4 == 0 && (y % 100 != 0 || y % 400 == 0);
    let days: u32 = if m == 2 {
        if leap {
            29
        } else {
            28
        }
    } else if m == 4 || m == 6 || m == 9 || m == 11 {
        30
    } else {
        31
    };
    d <= days
}

fn date_part_is_calendar_day(chars: &Vec<char>) -> (r: bool)
    requires
        has_date_shape(chars@),
    ensures
        r == is_calendar_day(
            four_digits(chars@, 0),
            two_digits(chars@, 5),
            two_digits(chars@, 8),
        ),
{
    assert(digits_between(chars@, 0, 2)) by {
        assert(digits_between(chars@, 0, 4));
    }
    assert(digits_between(chars@, 2, 4)) by {
        assert(digits_between(chars@, 0, 4));
    }
    let y = read_two(chars, 0) * 100 + read_two(chars, 2);
    let m = read_two(chars, 5);
    let d = read_two(chars, 8);
    calendar_has(y, m, d)
}

/// Whether a text is a full date as RFC 3339 writes it.
pub fn is_rfc3339_date(text: &str) -> (r: bool)
    ensures
        r == is_date(text@),
{
    let chars = chars_of(text);
    chars.len() == 10 && has_date_shape_at(&chars) && date_part_is_calendar_day(&chars)
}

/// What looks like a date at the beginning of a text.
pub fn leading_date(text: &str) -> (r: Option<String>)
    ensures
        match r {
            Some(d) => date_prefix(text@) == Some(d@),
            None => date_prefix(text@) is None,
        },
{
    let chars = chars_of(text);
    if has_date_shape_at(&chars) {
        let d = text_of(&chars, 0, 10);
        assert(chars@.subrange(0, 10) =~= text@.take(10));
        Some(d)
    } else {
        None
    }
}

fn is_offset_at(chars: &Vec<char>, from: usize) -> (r: bool)
    requires
        from <= chars@.len(),
    ensures
        r == is_offset(chars@, from as int),
{
    let n = chars.len();
    if n - from == 1 {
        chars[from] == 'Z' || chars[from] == 'z'
    } else if n - from == 6 {
        (chars[from] == '+' || chars[from] == '-') && all_digits_between(chars, from + 1, from + 3)
            && chars[from + 3] == ':' && all_digits_between(chars, from + 4, from + 6) && read_two(
            chars,
            from + 1,
        ) <= 23 && read_two(chars, from + 4) <= 59
    } else {
        false
    }
}

/// Whether a text is a date-time as RFC 3339 writes it.
pub fn is_rfc3339_date_time(text: &str) -> (r: bool)
    ensures
        r == is_date_time(text@),
{
    let chars = chars_of(text);
    if chars.len() < 20 {
        return false;
    }
    if !(has_date_shape_at(&chars) && date_part_is_calendar_day(&chars)) {
        return false;
    }
    if !((chars[10] == 'T' || chars[10] == 't') && all_digits_between(&chars, 11, 13) && chars[13]
        == ':' && all_digits_between(&chars, 14, 16) && chars[16] == ':' && all_digits_between(
        &chars,
        17,
        19,
    )) {
        return false;
    }
    if !(read_two(&chars, 11) <= 23 && read_two(&chars, 14) <= 59 && read_two(&chars, 17) <= 60) {
        return false;
    }
    let end: usize = if chars[19] == '.' {
        let run = count_digits(&chars, 20);
        if run < 1 {
            return false;
        }
        20 + run
    } else {
        19
    };
    is_offset_at(&chars, end)
}

/// A moment: the whole seconds since the beginning of 1970 in UTC, and the
/// nanoseconds after them.
#[derive(Clone, Copy, Debug, PartialEq, Eq, Structural)]
pub struct Instant {
    pub secs: i64,
    pub nanos: u32,
}

/// The moment that chrono reads from a text that names its offset from UTC,
/// by a format of chrono's; none where the text does not fit the format.
pub uninterp spec fn offset_time_of(text: Seq<char>, format: Seq<char>) -> Option<Instant>;

/// The moment that chrono reads from a text that names no offset, taken as
/// UTC, by a format of chrono's; none where the text does not fit the format.
pub uninterp spec fn naive_time_of(text: Seq<char>, format: Seq<char>) -> Option<Instant>;

/// The text by which chrono writes a moment in the form of RFC 3339, in UTC
/// with `Z`, and with as many digits of the second's fraction as it needs
/// in groups of three; none where chrono has no such moment.
pub uninterp spec fn rfc3339_of(secs: i64, nanos: u32) -> Option<Seq<char>>;

/// Whether a text holds at `i` a sign and two digits that count 24 or more.
pub open spec fn wide_hours_at(s: Seq<char>, i: int) -> bool {
    &&& 0 <= i
    &&& i + 2 < s.len()
    &&& (s[i] == '+' || s[i] == '-')
    &&& digits_between(s, i + 1, i + 3)
    &&& two_digits(s, i + 1) >= 24
}

/// Whether a text ends in what the liberal reader of dates may take for an
/// offset from UTC of a day or more: a sign, two digits that count 24 or
/// more, and two or three characters after them.
pub open spec fn ends_in_wide_offset(s: Seq<char>) -> bool {
    wide_hours_at(s, s.len() - 5) || wide_hours_at(s, s.len() - 6)
}

fn has_wide_hours_at(chars: &Vec<char>, i: usize) -> (r: bool)
    requires
        i + 2 < chars@.len(),
    ensures
        r == wide_hours_at(chars@, i as int),
{
    let n: usize = chars.len();
    (chars[i] == '+' || chars[i] == '-') && all_digits_between(chars, i + 1, i + 3) && read_two(
        chars,
        i + 1,
    ) >= 24
}

/// Whether a text ends in what the liberal reader of dates may take for an
/// offset from UTC of a day or more.
pub fn has_wide_offset(text: &str) -> (r: bool)
    ensures
        r == ends_in_wide_offset(text@),
{
    let chars = chars_of(text);
    let n: usize = chars.len();
    (n >= 5 && has_wide_hours_at(&chars, n - 5)) || (n >= 6 && has_wide_hours_at(&chars, n - 6))
}

/// Calls `dateparser::parse_with_timezone` with UTC for texts that name no
/// zone. It knows many forms of dates and times; for a text that names no
/// date or no time of day it fills in the present one, so that what it
/// returns is not a matter of the text alone. Nothing is claimed of the
/// result. It takes up to six characters at the end of a text for a zone;
/// where they begin with a sign, two digits of hours and two of minutes, with
/// or without `:` between them, it makes an offset of them, which fails for
/// 24 hours or more: such a text is not handed over.
#[verifier::external_body]
pub(crate) fn liberal_time(text: &str) -> (r: Option<Instant>)
    requires
        !ends_in_wide_offset(text@),
{
    match dateparser::parse_with_timezone(text, &chrono::Utc) {
        Ok(t) => Some(Instant { secs: t.timestamp(), nanos: t.timestamp_subsec_nanos() }),
        Err(_) => None,
    }
}

/// Calls `chrono::DateTime::parse_from_str`, which reads a text with an
/// offset from UTC by a format. The claim is that the moment it reads is a
/// matter of the text and the format alone.
#[verifier::external_body]
pub(crate) fn offset_time(text: &str, format: &str) -> (r: Option<Instant>)
    ensures
        r == offset_time_of(text@, format@),
{
    match chrono::DateTime::parse_from_str(text, format) {
        Ok(t) => Some(Instant { secs: t.timestamp(), nanos: t.timestamp_subsec_nanos() }),
        Err(_) => None,
    }
}

/// Calls `chrono::NaiveDateTime::parse_from_str`, which reads a text
/// without an offset by a format; the time is taken as UTC. The claim is
/// that the moment it reads is a matter of the text and the format alone.
#[verifier::external_body]
pub(crate) fn naive_time(text: &str, format: &str) -> (r: Option<Instant>)
    ensures
        r == naive_time_of(text@, format@),
{
    match chrono::NaiveDateTime::parse_from_str(text, format) {
        Ok(t) => Some(
            Instant { secs: t.and_utc().timestamp(), nanos: t.and_utc().timestamp_subsec_nanos() },
        ),
        Err(_) => None,
    }
}

/// Calls `chrono::Utc.timestamp_opt` and, where it has one moment for the
/// seconds and nanoseconds, `DateTime::to_rfc3339_opts` with
/// `SecondsFormat::AutoSi` and `Z` for UTC. The claim is that the text is a
/// matter of the seconds and nanoseconds alone.
#[verifier::external_body]
pub(crate) fn rfc3339_text(secs: i64, nanos: u32) -> (r: Option<String>)
    ensures
        r is Some <==> rfc3339_of(secs, nanos) is Some,
        r is Some ==> r->Some_0@ == rfc3339_of(secs, nanos)->Some_0,
{
    match chrono::Utc.timestamp_opt(secs, nanos) {
        chrono::LocalResult::Single(t) => Some(
            t.to_rfc3339_opts(chrono::SecondsFormat::AutoSi, true),
        ),
        _ => None,
    }
}

} // verus!
