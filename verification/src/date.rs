//! Calendar dates in the proleptic Gregorian calendar, with the
//! day-number arithmetic that ordering and "days remaining" rest on.

use vstd::prelude::*;

use crate::text::{digit_of, digit_str, digit_val, is_digit};

verus! {

/// Whether `y` is a leap year (proleptic Gregorian rule).
pub open spec fn is_leap_year(y: int) -> bool {
    y % 4 == 0 && (y % 100 != 0 || y % 400 == 0)
}

/// Number of days in month `m` of year `y`.
pub open spec fn days_in_month(y: int, m: int) -> int {
    if m == 2 {
        if is_leap_year(y) {
            29
        } else {
            28
        }
    } else if m == 4 || m == 6 || m == 9 || m == 11 {
        30
    } else {
        31
    }
}

/// A (year, month, day) triple names a real calendar day, with the year
/// within the four digits that the store's date format can carry.
pub open spec fn valid_date(y: int, m: int, d: int) -> bool {
    0 <= y <= 9999 && 1 <= m <= 12 && 1 <= d <= days_in_month(y, m)
}

/// A calendar date with no time-of-day component.
#[derive(Clone, Copy, Debug, PartialEq, Eq, Structural)]
pub struct Date {
    pub year: u16,
    pub month: u8,
    pub day: u8,
}

/// Leap years `z` with `0 <= z < y`.
pub open spec fn leap_years_before(y: int) -> int {
    (y + 3) / 4 - (y + 99) / 100 + (y + 399) / 400
}

/// Days in all years `z` with `0 <= z < y`.
pub open spec fn days_before_year(y: int) -> int {
    365 * y + leap_years_before(y)
}

/// Days in all months of year `y` strictly before month `m`.
pub open spec fn days_before_month(y: int, m: int) -> int {
    let plain: int = if m <= 1 {
        0
    } else if m == 2 {
        31
    } else if m == 3 {
        59
    } else if m == 4 {
        90
    } else if m == 5 {
        120
    } else if m == 6 {
        151
    } else if m == 7 {
        181
    } else if m == 8 {
        212
    } else if m == 9 {
        243
    } else if m == 10 {
        273
    } else if m == 11 {
        304
    } else {
        334
    };
    if m >= 3 && is_leap_year(y) {
        plain + 1
    } else {
        plain
    }
}

impl Date {
    /// The date names a real calendar day.
    pub open spec fn wf(self) -> bool {
        valid_date(self.year as int, self.month as int, self.day as int)
    }

    /// Days elapsed from 0000-01-01 to this date; orders dates
    /// chronologically and yields day differences by subtraction.
    pub open spec fn day_number(self) -> int {
        days_before_year(self.year as int) + days_before_month(
            self.year as int,
            self.month as int,
        ) + self.day as int - 1
    }

    /// Builds a date after checking that the triple names a real day.
    pub fn new(year: u16, month: u8, day: u8) -> (r: Option<Date>)
        ensures
            r is Some <==> valid_date(year as int, month as int, day as int),
            r is Some ==> r->Some_0 == (Date { year, month, day }),
    {
        if year <= 9999 && 1 <= month && month <= 12 && 1 <= day && day <= days_in_month_exec(
            year,
            month,
        ) {
            Some(Date { year, month, day })
        } else {
            None
        }
    }

    /// Computes `day_number` executably; fits easily in `u32` for
    /// four-digit years.
    pub fn day_number_exec(&self) -> (n: u32)
        requires
            self.wf(),
        ensures
            n as int == self.day_number(),
    {
        let y = self.year as u32;
        let before_year = 365 * y + (y + 3) / 4 - (y + 99) / 100 + (y + 399) / 400;
        let before_month = days_before_month_exec(self.year, self.month);
        before_year + before_month as u32 + self.day as u32 - 1
    }
}

/// The ten characters `YYYY-MM-DD` for a date.
pub open spec fn spec_render_date(d: Date) -> Seq<char> {
    let y = d.year as int;
    let m = d.month as int;
    let dd = d.day as int;
    seq![
        digit_of(y / 1000),
        digit_of(y % 1000 / 100),
        digit_of(y % 100 / 10),
        digit_of(y % 10),
        '-',
        digit_of(m / 10),
        digit_of(m % 10),
        '-',
        digit_of(dd / 10),
        digit_of(dd % 10),
    ]
}

/// The date that `s` names, when `s` has the exact shape `YYYY-MM-DD`
/// and the triple is a real calendar day; `None` otherwise.
pub open spec fn spec_parse_date(s: Seq<char>) -> Option<Date> {
    if s.len() == 10 && is_digit(s[0]) && is_digit(s[1]) && is_digit(s[2]) && is_digit(s[3])
        && s[4] == '-' && is_digit(s[5]) && is_digit(s[6]) && s[7] == '-' && is_digit(s[8])
        && is_digit(s[9]) {
        let y = ((digit_val(s[0]) * 10 + digit_val(s[1])) * 10 + digit_val(s[2])) * 10 + digit_val(
            s[3],
        );
        let m = digit_val(s[5]) * 10 + digit_val(s[6]);
        let d = digit_val(s[8]) * 10 + digit_val(s[9]);
        if valid_date(y, m, d) {
            Some(Date { year: y as u16, month: m as u8, day: d as u8 })
        } else {
            None
        }
    } else {
        None
    }
}

/// Executable twin of `days_in_month`.
pub fn days_in_month_exec(y: u16, m: u8) -> (r: u8)
    ensures
        r as int == days_in_month(y as int, m as int),
{
    if m == 2 {
        if (y % 4 == 0) && (y % 100 != 0 || y % 400 == 0) {
            29
        } else {
            28
        }
    } else if m == 4 || m == 6 || m == 9 || m == 11 {
        30
    } else {
        31
    }
}

/// Executable twin of `days_before_month`.
pub fn days_before_month_exec(y: u16, m: u8) -> (r: u16)
    ensures
        r as int == days_before_month(y as int, m as int),
{
    let plain: u16 = if m <= 1 {
        0
    } else if m == 2 {
        31
    } else if m == 3 {
        59
    } else if m == 4 {
        90
    } else if m == 5 {
        120
    } else if m == 6 {
        151
    } else if m == 7 {
        181
    } else if m == 8 {
        212
    } else if m == 9 {
        243
    } else if m == 10 {
        273
    } else if m == 11 {
        304
    } else {
        334
    };
    if m >= 3 && (y % 4 == 0) && (y % 100 != 0 || y % 400 == 0) {
        plain + 1
    } else {
        plain
    }
}

/// Renders a date as `YYYY-MM-DD`.
pub fn render_date(d: &Date) -> (r: String)
    requires
        d.wf(),
    ensures
        r@ == spec_render_date(*d),
{
    let y = d.year;
    let mut s = String::new();
    s.append(digit_str((y / 1000) as u8));
    s.append(digit_str((y % 1000 / 100) as u8));
    s.append(digit_str((y % 100 / 10) as u8));
    s.append(digit_str((y % 10) as u8));
    s.append("-");
    s.append(digit_str(d.month / 10));
    s.append(digit_str(d.month % 10));
    s.append("-");
    s.append(digit_str(d.day / 10));
    s.append(digit_str(d.day % 10));
    proof {
        reveal_strlit("-");
        assert(s@ =~= spec_render_date(*d));
    }
    s
}

/// Parses `YYYY-MM-DD` exactly; `None` on any other shape or on a
/// triple that names no real day.
pub fn parse_date(s: &str) -> (r: Option<Date>)
    ensures
        r == spec_parse_date(s@),
{
    if s.unicode_len() != 10 {
        return None;
    }
    let c0 = s.get_char(0);
    let c1 = s.get_char(1);
    let c2 = s.get_char(2);
    let c3 = s.get_char(3);
    let c5 = s.get_char(5);
    let c6 = s.get_char(6);
    let c8 = s.get_char(8);
    let c9 = s.get_char(9);
    if !(crate::text::is_digit_exec(c0) && crate::text::is_digit_exec(c1)
        && crate::text::is_digit_exec(c2) && crate::text::is_digit_exec(c3)
        && crate::text::is_digit_exec(c5) && crate::text::is_digit_exec(c6)
        && crate::text::is_digit_exec(c8) && crate::text::is_digit_exec(c9)) {
        return None;
    }
    if s.get_char(4) != '-' || s.get_char(7) != '-' {
        return None;
    }
    let zero = '0' as u32;
    let y = ((((c0 as u32 - zero) * 10 + (c1 as u32 - zero)) * 10 + (c2 as u32 - zero)) * 10 + (
    c3 as u32 - zero)) as u16;
    let m = ((c5 as u32 - zero) * 10 + (c6 as u32 - zero)) as u8;
    let d = ((c8 as u32 - zero) * 10 + (c9 as u32 - zero)) as u8;
    Date::new(y, m, d)
}

/// Law: rendering a real date and parsing the result gives the date
/// back (the store's date format loses nothing).
pub proof fn lemma_date_render_parse(d: Date)
    requires
        d.wf(),
    ensures
        spec_parse_date(spec_render_date(d)) == Some(d),
{
    let y = d.year as int;
    let m = d.month as int;
    let dd = d.day as int;
    assert(0 <= y / 1000 <= 9);
    assert(0 <= y % 1000 / 100 <= 9);
    assert(0 <= y % 100 / 10 <= 9);
    assert(0 <= y % 10 <= 9);
    assert(y == ((y / 1000 * 10 + y % 1000 / 100) * 10 + y % 100 / 10) * 10 + y % 10) by {
        assert(y == (y / 1000) * 1000 + y % 1000);
        assert(y % 1000 == (y % 1000 / 100) * 100 + y % 1000 % 100);
        assert(y % 1000 % 100 == y % 100) by {
            assert(y % 1000 % 100 == y % 100) by (nonlinear_arith)
                requires 0 <= y;
        };
        assert(y % 100 == (y % 100 / 10) * 10 + y % 100 % 10);
        assert(y % 100 % 10 == y % 10) by {
            assert(y % 100 % 10 == y % 10) by (nonlinear_arith)
                requires 0 <= y;
        };
    };
    assert(m == m / 10 * 10 + m % 10);
    assert(dd == dd / 10 * 10 + dd % 10);
}

} // verus!

