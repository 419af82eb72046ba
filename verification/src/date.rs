//! Calendar dates.
//!
//! A [`Date`] is a plain year/month/day triple.  A date token read from a
//! line has the shape `YYYY-MM-DD`; the shape alone does not make it a date,
//! so [`read_date_at`] also checks that the triple names a real day of the
//! proleptic Gregorian calendar (month in range, day within the month's
//! length, leap years honoured).

use vstd::prelude::*;
use vstd::string::{StrSliceExecFns, StringExecFns};
use chrono::Datelike;
use crate::chars::{is_digit_char, digit_val};
use crate::scan::date_shape_at;

verus! {

/// Relies on `chrono::Local::now` and `chrono::Datelike`: the current local
/// date as its year, month and day-of-month numbers, the month from 1 to 12
/// and the day from 1 to 31.
#[verifier::external_body]
pub(crate) fn today_ymd() -> (r: (i32, u32, u32))
    ensures
        1 <= r.1 <= 12,
        1 <= r.2 <= 31,
{
    let now = chrono::Local::now().date_naive();
    (now.year(), now.month(), now.day())
}

/// A leap year of the proleptic Gregorian calendar.
pub open spec fn is_leap_year(y: int) -> bool {
    y % 4 == 0 && (y % 100 != 0 || y % 400 == 0)
}

/// Number of days of month `m` in year `y`.
pub open spec fn days_in_month(y: int, m: int) -> int {
    if m == 2 {
        if is_leap_year(y) {
            29
        } else {
            28
        }
    } else if m == 4 || m == 6 || m == 9 || m == 11 {
        30
    } else {
        31
    }
}

/// The triple names a real calendar day with a four-digit year.
pub open spec fn valid_ymd(y: int, m: int, d: int) -> bool {
    0 <= y <= 9999 && 1 <= m <= 12 && 1 <= d <= days_in_month(y, m)
}

/// A calendar date, held as its year, month and day.
#[derive(Clone, Copy, Debug, PartialEq, Eq, Structural)]
pub struct Date {
    pub year: u16,
    pub month: u8,
    pub day: u8,
}

impl Date {
    /// The date names a real calendar day.
    pub open spec fn wf(self) -> bool {
        valid_ymd(self.year as int, self.month as int, self.day as int)
    }

    /// A key that orders dates chronologically.
    pub open spec fn key(self) -> int {
        self.year as int * 416 + self.month as int * 32 + self.day as int
    }

    /// Builds a date after checking that the triple names a real day.
    pub fn from_ymd_opt(year: u16, month: u8, day: u8) -> (r: Option<Date>)
        ensures
            match r {
                Some(d) => d.year == year && d.month == month && d.day == day && d.wf(),
                None => !valid_ymd(year as int, month as int, day as int),
            },
    {
        if year <= 9999 && 1 <= month && month <= 12 && 1 <= day && day as u16 <= days_in_month_x(
            year, month) {
            Some(Date { year, month, day })
        } else {
            None
        }
    }
}

/// Number of days of month `m` in year `y`.
pub fn days_in_month_x(y: u16, m: u8) -> (r: u16)
    ensures
        r == days_in_month(y as int, m as int),
{
    if m == 2 {
        if y % 4 == 0 && (y % 100 != 0 || y % 400 == 0) {
            29
        } else {
            28
        }
    } else if m == 4 || m == 6 || m == 9 || m == 11 {
        30
    } else {
        31
    }
}

/// Ordering key of an optional date: an absent date sorts before every
/// present one.
pub open spec fn opt_date_key(o: Option<Date>) -> int {
    match o {
        None => -1,
        Some(d) => d.key(),
    }
}

/// Compares two optional dates by [`opt_date_key`].
pub fn opt_date_le(a: &Option<Date>, b: &Option<Date>) -> (r: bool)
    ensures
        r == (opt_date_key(*a) <= opt_date_key(*b)),
{
    match (a, b) {
        (None, _) => true,
        (Some(_), None) => false,
        (Some(x), Some(y)) => {
            let kx: u32 = x.year as u32 * 416 + x.month as u32 * 32 + x.day as u32;
            let ky: u32 = y.year as u32 * 416 + y.month as u32 * 32 + y.day as u32;
            kx <= ky
        },
    }
}

/// The year named by the four digits starting at `i`.
pub open spec fn year_val_at(s: Seq<char>, i: int) -> int {
    digit_val(s[i]) * 1000 + digit_val(s[i + 1]) * 100 + digit_val(s[i + 2]) * 10 + digit_val(
        s[i + 3])
}

/// The number named by the two digits starting at `i`.
pub open spec fn two_val_at(s: Seq<char>, i: int) -> int {
    digit_val(s[i]) * 10 + digit_val(s[i + 1])
}

/// The date named by the date-shaped token at `i`, if its triple is a real
/// calendar day.
pub open spec fn spec_date_token(s: Seq<char>, i: int) -> Option<Date> {
    let y = year_val_at(s, i);
    let m = two_val_at(s, i + 5);
    let d = two_val_at(s, i + 8);
    if valid_ymd(y, m, d) {
        Some(Date { year: y as u16, month: m as u8, day: d as u8 })
    } else {
        None
    }
}

/// The numeric value of the digit character at `i`.
fn digit_val_x(s: &str, l: usize, i: usize) -> (r: u16)
    requires
        l == s@.len(),
        i < l,
        is_digit_char(s@[i as int]),
    ensures
        r == digit_val(s@[i as int]),
        r <= 9,
{
    (s.get_char(i) as u32 - 48) as u16
}

/// Reads the date-shaped token at `i` and checks it names a real calendar
/// day.
pub fn read_date_at(s: &str, l: usize, i: usize) -> (r: Option<Date>)
    requires
        l == s@.len(),
        date_shape_at(s@, i as int),
    ensures
        r == spec_date_token(s@, i as int),
{
    let y: u16 = digit_val_x(s, l, i) * 1000 + digit_val_x(s, l, i + 1) * 100 + digit_val_x(
        s, l, i + 2) * 10 + digit_val_x(s, l, i + 3);
    let m: u8 = (digit_val_x(s, l, i + 5) * 10 + digit_val_x(s, l, i + 6)) as u8;
    let d: u8 = (digit_val_x(s, l, i + 8) * 10 + digit_val_x(s, l, i + 9)) as u8;
    Date::from_ymd_opt(y, m, d)
}

/// The ten characters that render a date, `YYYY-MM-DD`.
pub open spec fn date_chars(d: Date) -> Seq<char> {
    seq![
        digit_to_char(d.year as int / 1000),
        digit_to_char(d.year as int / 100 % 10),
        digit_to_char(d.year as int / 10 % 10),
        digit_to_char(d.year as int % 10),
        '-',
        digit_to_char(d.month as int / 10),
        digit_to_char(d.month as int % 10),
        '-',
        digit_to_char(d.day as int / 10),
        digit_to_char(d.day as int % 10),
    ]
}

/// The character of a decimal digit.
pub open spec fn digit_to_char(n: int) -> char {
    ((48 + n) as u8) as char
}

/// A one-character string holding the given decimal digit.
pub fn digit_str(n: u8) -> (r: &'static str)
    requires
        n < 10,
    ensures
        r@ =~= seq![digit_to_char(n as int)],
{
    proof {
        reveal_strlit("0");
        reveal_strlit("1");
        reveal_strlit("2");
        reveal_strlit("3");
        reveal_strlit("4");
        reveal_strlit("5");
        reveal_strlit("6");
        reveal_strlit("7");
        reveal_strlit("8");
        reveal_strlit("9");
    }
    match n {
        0 => "0",
        1 => "1",
        2 => "2",
        3 => "3",
        4 => "4",
        5 => "5",
        6 => "6",
        7 => "7",
        8 => "8",
        _ => "9",
    }
}

/// Renders a date as `YYYY-MM-DD`, the year zero-padded to four digits and
/// month and day to two.
pub fn date_string(d: &Date) -> (r: String)
    requires
        d.wf(),
    ensures
        r@ == date_chars(*d),
{
    proof {
        reveal_strlit("-");
    }
    let mut out = String::new();
    out.append(digit_str((d.year / 1000) as u8));
    out.append(digit_str((d.year / 100 % 10) as u8));
    out.append(digit_str((d.year / 10 % 10) as u8));
    out.append(digit_str((d.year % 10) as u8));
    out.append("-");
    out.append(digit_str(d.month / 10));
    out.append(digit_str(d.month % 10));
    out.append("-");
    out.append(digit_str(d.day / 10));
    out.append(digit_str(d.day % 10));
    proof {
        assert(out@ =~= date_chars(*d));
    }
    out
}

} // verus!
