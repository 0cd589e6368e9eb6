//! Rendering a date as an mdbook summary entry line.
//!
//! The pattern is fixed: `- [<Weekday>, <Mon> <DD>, <YYYY>](./<YYYY>/
//! <YYYY>-<MM>/<YYYY>-<MM>-<DD>.md)`, with the full weekday name, the
//! abbreviated month name, and zero-padded day, month and year numbers.

use vstd::prelude::*;
use vstd::string::StringExecFns;
use crate::date::Date;

verus! {

/// One decimal digit as characters.
pub open spec fn spec_digit(d: int) -> Seq<char> {
    if d == 0 {
        "0"@
    } else if d == 1 {
        "1"@
    } else if d == 2 {
        "2"@
    } else if d == 3 {
        "3"@
    } else if d == 4 {
        "4"@
    } else if d == 5 {
        "5"@
    } else if d == 6 {
        "6"@
    } else if d == 7 {
        "7"@
    } else if d == 8 {
        "8"@
    } else {
        "9"@
    }
}

/// A number below one hundred, zero-padded to two digits.
pub open spec fn spec_pad2(n: int) -> Seq<char> {
    spec_digit(n / 10) + spec_digit(n % 10)
}

/// A number below ten thousand, zero-padded to four digits.
pub open spec fn spec_pad4(n: int) -> Seq<char> {
    spec_digit(n / 1000) + spec_digit((n / 100) % 10) + spec_digit((n / 10) % 10) + spec_digit(
        n % 10,
    )
}

/// The full name of a day of the week, counted from 0 for Monday.
pub open spec fn spec_weekday_name(w: int) -> Seq<char> {
    if w == 0 {
        "Monday"@
    } else if w == 1 {
        "Tuesday"@
    } else if w == 2 {
        "Wednesday"@
    } else if w == 3 {
        "Thursday"@
    } else if w == 4 {
        "Friday"@
    } else if w == 5 {
        "Saturday"@
    } else {
        "Sunday"@
    }
}

/// The three-letter abbreviation of a month, counted from 1 for January.
pub open spec fn spec_month_abbrev(m: int) -> Seq<char> {
    if m == 1 {
        "Jan"@
    } else if m == 2 {
        "Feb"@
    } else if m == 3 {
        "Mar"@
    } else if m == 4 {
        "Apr"@
    } else if m == 5 {
        "May"@
    } else if m == 6 {
        "Jun"@
    } else if m == 7 {
        "Jul"@
    } else if m == 8 {
        "Aug"@
    } else if m == 9 {
        "Sep"@
    } else if m == 10 {
        "Oct"@
    } else if m == 11 {
        "Nov"@
    } else {
        "Dec"@
    }
}

/// The whole entry line for a date.
pub open spec fn spec_summary_line(d: Date) -> Seq<char> {
    "- ["@ + spec_weekday_name(d.weekday as int) + ", "@ + spec_month_abbrev(d.month as int)
        + " "@ + spec_pad2(d.day as int) + ", "@ + spec_pad4(d.year as int) + "](./"@ + spec_pad4(
        d.year as int,
    ) + "/"@ + spec_pad4(d.year as int) + "-"@ + spec_pad2(d.month as int) + "/"@ + spec_pad4(
        d.year as int,
    ) + "-"@ + spec_pad2(d.month as int) + "-"@ + spec_pad2(d.day as int) + ".md)"@
}

/// One decimal digit.
fn digit_str(d: u32) -> (r: &'static str)
    requires
        d < 10,
    ensures
        r@ == spec_digit(d as int),
{
    match d {
        0 => "0",
        1 => "1",
        2 => "2",
        3 => "3",
        4 => "4",
        5 => "5",
        6 => "6",
        7 => "7",
        8 => "8",
        _ => "9",
    }
}

/// Append a number below one hundred, zero-padded to two digits.
fn push_pad2(out: &mut String, n: u32)
    requires
        n < 100,
    ensures
        final(out)@ == old(out)@ + spec_pad2(n as int),
{
    out.append(digit_str(n / 10));
    out.append(digit_str(n % 10));
}

/// Append a number below ten thousand, zero-padded to four digits.
fn push_pad4(out: &mut String, n: u32)
    requires
        n < 10000,
    ensures
        final(out)@ == old(out)@ + spec_pad4(n as int),
{
    out.append(digit_str(n / 1000));
    out.append(digit_str((n / 100) % 10));
    out.append(digit_str((n / 10) % 10));
    out.append(digit_str(n % 10));
}

/// The full name of a day of the week, counted from 0 for Monday.
fn weekday_name(w: u32) -> (r: &'static str)
    requires
        w < 7,
    ensures
        r@ == spec_weekday_name(w as int),
{
    match w {
        0 => "Monday",
        1 => "Tuesday",
        2 => "Wednesday",
        3 => "Thursday",
        4 => "Friday",
        5 => "Saturday",
        _ => "Sunday",
    }
}

/// The three-letter abbreviation of a month, counted from 1 for January.
fn month_abbrev(m: u32) -> (r: &'static str)
    requires
        1 <= m <= 12,
    ensures
        r@ == spec_month_abbrev(m as int),
{
    match m {
        1 => "Jan",
        2 => "Feb",
        3 => "Mar",
        4 => "Apr",
        5 => "May",
        6 => "Jun",
        7 => "Jul",
        8 => "Aug",
        9 => "Sep",
        10 => "Oct",
        11 => "Nov",
        _ => "Dec",
    }
}

/// Render the entry line for a date.
pub fn summary_line_for_date(d: &Date) -> (r: String)
    requires
        d.wf(),
    ensures
        r@ == spec_summary_line(*d),
{
    let year = d.year as u32;
    proof {
        assert(year as int == d.year as int);
    }
    let mut out = String::new();
    out.append("- [");
    out.append(weekday_name(d.weekday));
    out.append(", ");
    out.append(month_abbrev(d.month));
    out.append(" ");
    push_pad2(&mut out, d.day);
    out.append(", ");
    push_pad4(&mut out, year);
    out.append("](./");
    push_pad4(&mut out, year);
    out.append("/");
    push_pad4(&mut out, year);
    out.append("-");
    push_pad2(&mut out, d.month);
    out.append("/");
    push_pad4(&mut out, year);
    out.append("-");
    push_pad2(&mut out, d.month);
    out.append("-");
    push_pad2(&mut out, d.day);
    out.append(".md)");
    proof {
        assert(out@ =~= spec_summary_line(*d));
    }
    out
}

} // verus!