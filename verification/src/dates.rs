//! Calendar dates for the auto-find deadline comparison.
//!
//! A slot's `start_time` stays an opaque string everywhere else; only when a
//! deadline has to be checked is it read as a calendar date, in the portal's
//! fixed `DD/MM/YYYY HH:MM` shape.  A text that does not fit that shape, or
//! names no real calendar date or time of day, yields nothing, and such a
//! slot never qualifies.

use vstd::prelude::*;
use crate::numeral::{is_digit, digit_val};

verus! {

/// A calendar date, as plain year, month and day numbers.
#[derive(Clone, Copy, Debug, PartialEq, Eq, Structural)]
pub struct CalendarDate {
    pub year: u32,
    pub month: u32,
    pub day: u32,
}

/// Whether `y` is a leap year.
pub open spec fn spec_is_leap_year(y: int) -> bool {
    (y % 4 == 0 && y % 100 != 0) || y % 400 == 0
}

/// The number of days in the given month.
pub open spec fn spec_days_in_month(y: int, m: int) -> int {
    if m == 1 || m == 3 || m == 5 || m == 7 || m == 8 || m == 10 || m == 12 {
        31
    } else if m == 4 || m == 6 || m == 9 || m == 11 {
        30
    } else if spec_is_leap_year(y) {
        29
    } else {
        28
    }
}

/// Whether year, month and day name a real calendar date.
pub open spec fn spec_valid_date(y: int, m: int, d: int) -> bool {
    1 <= m <= 12 && 1 <= d <= spec_days_in_month(y, m)
}

/// Date order: year first, then month, then day.
pub open spec fn spec_date_le(a: CalendarDate, b: CalendarDate) -> bool {
    if a.year != b.year {
        a.year < b.year
    } else if a.month != b.month {
        a.month < b.month
    } else {
        a.day <= b.day
    }
}

/// The two-digit number at position `i`.
pub open spec fn two_digits(t: Seq<char>, i: int) -> int {
    digit_val(t[i]) as int * 10 + digit_val(t[i + 1]) as int
}

/// The four-digit number at position `i`.
pub open spec fn four_digits(t: Seq<char>, i: int) -> int {
    digit_val(t[i]) as int * 1000 + digit_val(t[i + 1]) as int * 100 + digit_val(t[i + 2]) as int
        * 10 + digit_val(t[i + 3]) as int
}

/// The date a portal timestamp of the shape `DD/MM/YYYY HH:MM` names, when
/// the text has exactly that shape, names a real date, and a real time of
/// day.
pub open spec fn spec_parse_portal_datetime(t: Seq<char>) -> Option<CalendarDate> {
    if t.len() == 16 && is_digit(t[0]) && is_digit(t[1]) && t[2] == '/' && is_digit(t[3])
        && is_digit(t[4]) && t[5] == '/' && is_digit(t[6]) && is_digit(t[7]) && is_digit(t[8])
        && is_digit(t[9]) && t[10] == ' ' && is_digit(t[11]) && is_digit(t[12]) && t[13] == ':'
        && is_digit(t[14]) && is_digit(t[15]) {
        let d = two_digits(t, 0);
        let m = two_digits(t, 3);
        let y = four_digits(t, 6);
        let hour = two_digits(t, 11);
        let minute = two_digits(t, 14);
        if spec_valid_date(y, m, d) && hour < 24 && minute < 60 {
            Some(CalendarDate { year: y as u32, month: m as u32, day: d as u32 })
        } else {
            None
        }
    } else {
        None
    }
}

/// The date an `YYYY-MM-DD` text names, when it has exactly that shape and
/// names a real date.
pub open spec fn spec_parse_iso_date(t: Seq<char>) -> Option<CalendarDate> {
    if t.len() == 10 && is_digit(t[0]) && is_digit(t[1]) && is_digit(t[2]) && is_digit(t[3])
        && t[4] == '-' && is_digit(t[5]) && is_digit(t[6]) && t[7] == '-' && is_digit(t[8])
        && is_digit(t[9]) {
        let y = four_digits(t, 0);
        let m = two_digits(t, 5);
        let d = two_digits(t, 8);
        if spec_valid_date(y, m, d) {
            Some(CalendarDate { year: y as u32, month: m as u32, day: d as u32 })
        } else {
            None
        }
    } else {
        None
    }
}

/// The value of a digit character, or nothing for any other character.
fn digit_of(c: char) -> (r: Option<u32>)
    ensures
        r is Some <==> is_digit(c),
        r is Some ==> r.unwrap() == digit_val(c),
{
    if c >= '0' && c <= '9' {
        Some(c as u32 - 48)
    } else {
        None
    }
}

/// Reads the two-digit number at position `i`; nothing unless both
/// characters are digits.
fn two_digits_at(s: &str, i: usize) -> (r: Option<u32>)
    requires
        i + 2 <= s@.len(),
        s@.len() <= usize::MAX,
    ensures
        r is Some <==> is_digit(s@[i as int]) && is_digit(s@[i as int + 1]),
        r is Some ==> r.unwrap() == two_digits(s@, i as int),
{
    let c0 = digit_of(s.get_char(i));
    let c1 = digit_of(s.get_char(i + 1));
    match (c0, c1) {
        (Some(d0), Some(d1)) => Some(d0 * 10 + d1),
        _ => None,
    }
}

/// Reads the four-digit number at position `i`; nothing unless all four
/// characters are digits.
fn four_digits_at(s: &str, i: usize) -> (r: Option<u32>)
    requires
        i + 4 <= s@.len(),
        s@.len() <= usize::MAX,
    ensures
        r is Some <==> is_digit(s@[i as int]) && is_digit(s@[i as int + 1]) && is_digit(
            s@[i as int + 2],
        ) && is_digit(s@[i as int + 3]),
        r is Some ==> r.unwrap() == four_digits(s@, i as int),
{
    let c0 = digit_of(s.get_char(i));
    let c1 = digit_of(s.get_char(i + 1));
    let c2 = digit_of(s.get_char(i + 2));
    let c3 = digit_of(s.get_char(i + 3));
    match (c0, c1, c2, c3) {
        (Some(d0), Some(d1), Some(d2), Some(d3)) => Some(d0 * 1000 + d1 * 100 + d2 * 10 + d3),
        _ => None,
    }
}

/// Whether year, month and day name a real calendar date.
fn valid_date(y: u32, m: u32, d: u32) -> (r: bool)
    ensures
        r == spec_valid_date(y as int, m as int, d as int),
{
    if m < 1 || m > 12 || d < 1 {
        return false;
    }
    let days: u32 = if m == 1 || m == 3 || m == 5 || m == 7 || m == 8 || m == 10 || m == 12 {
        31
    } else if m == 4 || m == 6 || m == 9 || m == 11 {
        30
    } else if (y % 4 == 0 && y % 100 != 0) || y % 400 == 0 {
        29
    } else {
        28
    };
    d <= days
}

/// Reads a portal timestamp of the shape `DD/MM/YYYY HH:MM` as the calendar
/// date it names.
pub fn parse_portal_datetime(s: &str) -> (r: Option<CalendarDate>)
    ensures
        r == spec_parse_portal_datetime(s@),
{
    let len = s.unicode_len();
    if len != 16 {
        return None;
    }
    if !(s.get_char(2) == '/' && s.get_char(5) == '/' && s.get_char(10) == ' ' && s.get_char(13)
        == ':') {
        return None;
    }
    let day = two_digits_at(s, 0);
    let month = two_digits_at(s, 3);
    let year = four_digits_at(s, 6);
    let hour = two_digits_at(s, 11);
    let minute = two_digits_at(s, 14);
    match (day, month, year, hour, minute) {
        (Some(d), Some(m), Some(y), Some(hh), Some(mm)) => {
            if valid_date(y, m, d) && hh < 24 && mm < 60 {
                Some(CalendarDate { year: y, month: m, day: d })
            } else {
                None
            }
        },
        _ => None,
    }
}

/// Reads an `YYYY-MM-DD` text as the calendar date it names.
pub fn parse_iso_date(s: &str) -> (r: Option<CalendarDate>)
    ensures
        r == spec_parse_iso_date(s@),
{
    let len = s.unicode_len();
    if len != 10 {
        return None;
    }
    if !(s.get_char(4) == '-' && s.get_char(7) == '-') {
        return None;
    }
    let year = four_digits_at(s, 0);
    let month = two_digits_at(s, 5);
    let day = two_digits_at(s, 8);
    match (year, month, day) {
        (Some(y), Some(m), Some(d)) => {
            if valid_date(y, m, d) {
                Some(CalendarDate { year: y, month: m, day: d })
            } else {
                None
            }
        },
        _ => None,
    }
}

impl CalendarDate {
    /// Whether this date is on or before `other`.
    pub fn on_or_before(&self, other: &CalendarDate) -> (r: bool)
        ensures
            r == spec_date_le(*self, *other),
    {
        if self.year != other.year {
            self.year < other.year
        } else if self.month != other.month {
            self.month < other.month
        } else {
            self.day <= other.day
        }
    }
}

} // verus!
