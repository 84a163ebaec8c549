use crate::text::{digit_char, digit_to_char, digit_val, is_digit};
use vstd::prelude::*;

verus! {

/// A calendar date of the proleptic Gregorian calendar, year 0000 to 9999.
#[derive(PartialEq, Eq, Structural, Clone, Copy, Debug)]
pub struct CalDate {
    pub year: u16,
    pub month: u8,
    pub day: u8,
}

pub open spec fn is_leap(y: int) -> bool {
    y % 4 == 0 && (y % 100 != 0 || y % 400 == 0)
}

pub open spec fn days_in_month(y: int, m: int) -> int {
    if m == 1 || m == 3 || m == 5 || m == 7 || m == 8 || m == 10 || m == 12 {
        31
    } else if m == 4 || m == 6 || m == 9 || m == 11 {
        30
    } else if m == 2 {
        if is_leap(y) {
            29
        } else {
            28
        }
    } else {
        0
    }
}

impl CalDate {
    /// The date names a real day: a month 1 to 12, a day within that month, a four-digit year.
    pub open spec fn wf(self) -> bool {
        &&& self.year <= 9999
        &&& 1 <= self.month <= 12
        &&& 1 <= self.day <= days_in_month(self.year as int, self.month as int)
    }

    /// Calendar order: year, then month, then day.
    pub open spec fn spec_le(self, other: CalDate) -> bool {
        ||| self.year < other.year
        ||| (self.year == other.year && self.month < other.month)
        ||| (self.year == other.year && self.month == other.month && self.day <= other.day)
    }

    pub fn le(&self, other: &CalDate) -> (r: bool)
        ensures
            r == self.spec_le(*other),
    {
        self.year < other.year || (self.year == other.year && self.month < other.month) || (
        self.year == other.year && self.month == other.month && self.day <= other.day)
    }
}

/// The date that `s` spells as `YYYY-MM-DD`, if it spells a real one.
pub open spec fn date_of(s: Seq<char>) -> Option<CalDate> {
    if s.len() == 10 && is_digit(s[0]) && is_digit(s[1]) && is_digit(s[2]) && is_digit(s[3])
        && s[4] == '-' && is_digit(s[5]) && is_digit(s[6]) && s[7] == '-' && is_digit(s[8])
        && is_digit(s[9]) {
        let y = digit_val(s[0]) * 1000 + digit_val(s[1]) * 100 + digit_val(s[2]) * 10
            + digit_val(s[3]);
        let m = digit_val(s[5]) * 10 + digit_val(s[6]);
        let d = digit_val(s[8]) * 10 + digit_val(s[9]);
        if 1 <= m <= 12 && 1 <= d <= days_in_month(y, m) {
            Some(CalDate { year: y as u16, month: m as u8, day: d as u8 })
        } else {
            None
        }
    } else {
        None
    }
}

/// `YYYY-MM-DD`, zero-padded.
pub open spec fn date_text(d: CalDate) -> Seq<char> {
    let y = d.year as int;
    let m = d.month as int;
    let dd = d.day as int;
    seq![
        digit_char((y / 1000) % 10),
        digit_char((y / 100) % 10),
        digit_char((y / 10) % 10),
        digit_char(y % 10),
        '-',
        digit_char((m / 10) % 10),
        digit_char(m % 10),
        '-',
        digit_char((dd / 10) % 10),
        digit_char(dd % 10),
    ]
}

/// Relies on `speedate::Date::parse_str_rfc3339`: it accepts exactly ten bytes
/// `YYYY-MM-DD` of ASCII digits and dashes, a month 1 to 12 and a day within the
/// month (leap years by the Gregorian rule), and returns those three numbers.
#[verifier::external_body]
pub(crate) fn parse_date(s: &str) -> (r: Option<CalDate>)
    ensures
        r == date_of(s@),
{
    match speedate::Date::parse_str_rfc3339(s) {
        Ok(d) => Some(CalDate { year: d.year, month: d.month, day: d.day }),
        Err(_) => None,
    }
}

/// The date of a year, month and day, where they name a real date with a
/// four-digit year: the clock's reading of today, for one.
pub fn date_from_parts(y: i32, m: u32, d: u32) -> (r: Option<CalDate>)
    ensures
        r is Some <==> (0 <= y <= 9999 && 1 <= m <= 12 && 1 <= d <= days_in_month(
            y as int,
            m as int,
        )),
        r matches Some(c) ==> c.wf() && c.year == y && c.month == m && c.day == d,
{
    if 0 <= y && y <= 9999 && 1 <= m && m <= 12 && 1 <= d && d <= 31 {
        let y16 = y as u16;
        let m8 = m as u8;
        let d8 = d as u8;
        if (d8 as u32) <= days_in_month_exec(y16, m8) {
            return Some(CalDate { year: y16, month: m8, day: d8 });
        }
    }
    None
}

pub fn days_in_month_exec(y: u16, m: u8) -> (r: u32)
    ensures
        r == days_in_month(y as int, m as int),
{
    if m == 1 || m == 3 || m == 5 || m == 7 || m == 8 || m == 10 || m == 12 {
        31
    } else if m == 4 || m == 6 || m == 9 || m == 11 {
        30
    } else if m == 2 {
        if y % 4 == 0 && (y % 100 != 0 || y % 400 == 0) {
            29
        } else {
            28
        }
    } else {
        0
    }
}

/// Appends `YYYY-MM-DD` to `out`.
pub fn push_date_text(d: &CalDate, out: &mut Vec<char>)
    ensures
        final(out)@ == old(out)@ + date_text(*d),
{
    let y = d.year as u64;
    let m = d.month as u64;
    let dd = d.day as u64;
    out.push(digit_to_char((y / 1000) % 10));
    out.push(digit_to_char((y / 100) % 10));
    out.push(digit_to_char((y / 10) % 10));
    out.push(digit_to_char(y % 10));
    out.push('-');
    out.push(digit_to_char((m / 10) % 10));
    out.push(digit_to_char(m % 10));
    out.push('-');
    out.push(digit_to_char((dd / 10) % 10));
    out.push(digit_to_char(dd % 10));
    proof {
        assert(final(out)@ =~= old(out)@ + date_text(*d));
    }
}

/// The text of a well-formed date reads back as that date.
pub proof fn lemma_date_text_round_trip(d: CalDate)
    requires
        d.wf(),
    ensures
        date_of(date_text(d)) == Some(d),
{
    let s = date_text(d);
    let y = d.year as int;
    let m = d.month as int;
    let dd = d.day as int;
    assert((y / 1000) % 10 == y / 1000);
    assert((m / 10) % 10 == m / 10);
    assert((dd / 10) % 10 == dd / 10);
    assert(digit_val(s[0]) == y / 1000);
    assert(digit_val(s[1]) == (y / 100) % 10);
    assert(digit_val(s[2]) == (y / 10) % 10);
    assert(digit_val(s[3]) == y % 10);
    assert((y / 1000) * 1000 + ((y / 100) % 10) * 100 + ((y / 10) % 10) * 10 + y % 10 == y)
        by (nonlinear_arith)
        requires
            0 <= y <= 9999,
    ;
    assert((m / 10) * 10 + m % 10 == m);
    assert((dd / 10) * 10 + dd % 10 == dd);
}

} // verus!
