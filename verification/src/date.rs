//! The date rule: parsing `DD.MM.YY` and formatting `YYYYMMDD`.
//!
//! A date token is exactly two digits, a dot, two digits, a dot and two
//! digits, and must name a real calendar day.  Two-digit years carry no
//! century, so one is pinned explicitly: `00`–`69` mean 2000–2069 and
//! `70`–`99` mean 1970–1999.

use vstd::prelude::*;

use crate::scan::is_digit;

verus! {

/// Whether `y` is a leap year in the proleptic Gregorian calendar.
pub open spec fn is_leap_year(y: int) -> bool {
    y % 4 == 0 && (y % 100 != 0 || y % 400 == 0)
}

/// The number of days in month `m` of year `y` (0 for no month at all).
pub open spec fn days_in_month(y: int, m: int) -> int {
    if m == 1 || m == 3 || m == 5 || m == 7 || m == 8 || m == 10 || m == 12 {
        31
    } else if m == 4 || m == 6 || m == 9 || m == 11 {
        30
    } else if m == 2 {
        if is_leap_year(y) {
            29
        } else {
            28
        }
    } else {
        0
    }
}

/// Whether year, month and day name a real calendar day.
pub open spec fn valid_date(y: int, m: int, d: int) -> bool {
    1 <= m <= 12 && 1 <= d <= days_in_month(y, m)
}

/// The value of a decimal digit character.
pub open spec fn digit_val(c: char) -> int {
    (c as u32) - ('0' as u32)
}

/// The decimal digit character for a value below ten.
pub open spec fn digit_of(d: int) -> char {
    if d == 0 {
        '0'
    } else if d == 1 {
        '1'
    } else if d == 2 {
        '2'
    } else if d == 3 {
        '3'
    } else if d == 4 {
        '4'
    } else if d == 5 {
        '5'
    } else if d == 6 {
        '6'
    } else if d == 7 {
        '7'
    } else if d == 8 {
        '8'
    } else {
        '9'
    }
}

/// The century rule for two-digit years: `00`–`69` mean 2000–2069 and
/// `70`–`99` mean 1970–1999.
pub open spec fn century_of(yy: int) -> int {
    if yy <= 69 {
        2000 + yy
    } else {
        1900 + yy
    }
}

/// The date `(year, month, day)` a `DD.MM.YY` text names, or `None` when
/// the text has another shape or names no real calendar day.
pub open spec fn parse_ddmmyy(s: Seq<char>) -> Option<(int, int, int)> {
    if s.len() == 8 && is_digit(s[0]) && is_digit(s[1]) && s[2] == '.' && is_digit(s[3])
        && is_digit(s[4]) && s[5] == '.' && is_digit(s[6]) && is_digit(s[7]) {
        let d = 10 * digit_val(s[0]) + digit_val(s[1]);
        let m = 10 * digit_val(s[3]) + digit_val(s[4]);
        let y = century_of(10 * digit_val(s[6]) + digit_val(s[7]));
        if valid_date(y, m, d) {
            Some((y, m, d))
        } else {
            None
        }
    } else {
        None
    }
}

/// A date formatted as `YYYYMMDD`.
pub open spec fn fmt_yyyymmdd(y: int, m: int, d: int) -> Seq<char> {
    seq![
        digit_of(y / 1000 % 10),
        digit_of(y / 100 % 10),
        digit_of(y / 10 % 10),
        digit_of(y % 10),
        digit_of(m / 10),
        digit_of(m % 10),
        digit_of(d / 10),
        digit_of(d % 10),
    ]
}

/// Executable value of a digit character.
fn char_digit(c: char) -> (r: u32)
    requires
        is_digit(c),
    ensures
        r == digit_val(c),
        r <= 9,
{
    c as u32 - 48
}

/// Executable digit character for a value below ten.
fn digit_char_of(d: u32) -> (r: char)
    requires
        d <= 9,
    ensures
        r == digit_of(d as int),
{
    if d == 0 {
        '0'
    } else if d == 1 {
        '1'
    } else if d == 2 {
        '2'
    } else if d == 3 {
        '3'
    } else if d == 4 {
        '4'
    } else if d == 5 {
        '5'
    } else if d == 6 {
        '6'
    } else if d == 7 {
        '7'
    } else if d == 8 {
        '8'
    } else {
        '9'
    }
}

/// Executable [`days_in_month`].
pub fn month_days(y: u32, m: u32) -> (r: u32)
    requires
        1 <= m <= 12,
    ensures
        r == days_in_month(y as int, m as int),
{
    if m == 1 || m == 3 || m == 5 || m == 7 || m == 8 || m == 10 || m == 12 {
        31
    } else if m == 4 || m == 6 || m == 9 || m == 11 {
        30
    } else {
        if y % 4 == 0 && (y % 100 != 0 || y % 400 == 0) {
            29
        } else {
            28
        }
    }
}

/// Parses the characters `v[from..to]` as a `DD.MM.YY` date.
pub fn parse_date_range(v: &Vec<char>, from: usize, to: usize) -> (r: Option<(u32, u32, u32)>)
    requires
        from <= to <= v@.len(),
    ensures
        match r {
            Some((y, m, d)) => parse_ddmmyy(v@.subrange(from as int, to as int)) == Some(
                (y as int, m as int, d as int),
            ),
            None => parse_ddmmyy(v@.subrange(from as int, to as int)) is None,
        },
{
    let ghost s = v@.subrange(from as int, to as int);
    proof {
        assert(forall|k: int| 0 <= k < s.len() ==> s[k] == v@[from + k]);
    }
    if to - from != 8 {
        return None;
    }
    let c0 = v[from];
    let c1 = v[from + 1];
    let c2 = v[from + 2];
    let c3 = v[from + 3];
    let c4 = v[from + 4];
    let c5 = v[from + 5];
    let c6 = v[from + 6];
    let c7 = v[from + 7];
    if !(crate::scan::digit_char(c0) && crate::scan::digit_char(c1) && c2 == '.'
        && crate::scan::digit_char(c3) && crate::scan::digit_char(c4) && c5 == '.'
        && crate::scan::digit_char(c6) && crate::scan::digit_char(c7)) {
        return None;
    }
    let d = 10 * char_digit(c0) + char_digit(c1);
    let m = 10 * char_digit(c3) + char_digit(c4);
    let yy = 10 * char_digit(c6) + char_digit(c7);
    let y = if yy <= 69 {
        2000 + yy
    } else {
        1900 + yy
    };
    if 1 <= m && m <= 12 && 1 <= d && d <= month_days(y, m) {
        Some((y, m, d))
    } else {
        None
    }
}

/// Formats a date as `YYYYMMDD`.
pub fn format_yyyymmdd(y: u32, m: u32, d: u32) -> (r: String)
    requires
        y <= 9999,
        m <= 99,
        d <= 99,
    ensures
        r@ == fmt_yyyymmdd(y as int, m as int, d as int),
{
    let mut r = String::new();
    r.push(digit_char_of(y / 1000 % 10));
    r.push(digit_char_of(y / 100 % 10));
    r.push(digit_char_of(y / 10 % 10));
    r.push(digit_char_of(y % 10));
    r.push(digit_char_of(m / 10));
    r.push(digit_char_of(m % 10));
    r.push(digit_char_of(d / 10));
    r.push(digit_char_of(d % 10));
    proof {
        assert(r@ =~= fmt_yyyymmdd(y as int, m as int, d as int));
    }
    r
}

} // verus!
