//! Calendar dates as plain values, and the current local date.
//!
//! The formatter works on a date given as year, month, day and day of the
//! week, so that everything it does is plain arithmetic on integers. Only
//! reading the clock and the calendar comes from chrono, through the trusted
//! items at the bottom of this file.

use vstd::prelude::*;

verus! {

/// A calendar date with its day of the week: the year (four digits at
/// most, as in the entry-line pattern), the month and day of month counted
/// from 1, and the day of the week counted from 0 for Monday.
pub struct Date {
    pub year: i32,
    pub month: u32,
    pub day: u32,
    pub weekday: u32,
}

impl Date {
    /// The fields fit the entry-line pattern: a four-digit year, a real
    /// month number, a real day number, and a day of the week below seven.
    pub open spec fn wf(self) -> bool {
        &&& 0 <= self.year <= 9999
        &&& 1 <= self.month <= 12
        &&& 1 <= self.day <= 31
        &&& self.weekday < 7
    }

    /// Build a date, or nothing when a field is out of range.
    pub fn new(year: i32, month: u32, day: u32, weekday: u32) -> (r: Option<Date>)
        ensures
            r is Some <==> (0 <= year <= 9999 && 1 <= month <= 12 && 1 <= day <= 31 && weekday
                < 7),
            r matches Some(d) ==> d == (Date { year, month, day, weekday }) && d.wf(),
    {
        if 0 <= year && year <= 9999 && 1 <= month && month <= 12 && 1 <= day && day <= 31
            && weekday < 7 {
            Some(Date { year, month, day, weekday })
        } else {
            None
        }
    }
}

/// The current date in the local time zone. The clock's value cannot be
/// promised, so all that is stated is that the fields are in range; a year
/// outside the four digits of the entry-line pattern is clamped to them.
pub fn today() -> (d: Date)
    ensures
        d.wf(),
{
    let (y, month, day, weekday) = local_date_parts();
    let year = if y < 0 {
        0
    } else if y > 9999 {
        9999
    } else {
        y
    };
    Date { year, month, day, weekday }
}

/// Relies on chrono to read the local clock and calendar:
/// - chrono::Local::now for the current date and time in the local time
///   zone; nothing can be stated of a clock reading, so the year is only
///   handed through;
/// - chrono::Datelike::year, ::month and ::day for the calendar fields;
///   the month is documented to range from 1 to 12 and the day of the
///   month from 1 to 31;
/// - chrono::Datelike::weekday with chrono::Weekday::num_days_from_monday
///   for the day of the week, documented to range from 0 (Monday) to 6
///   (Sunday).
#[verifier::external_body]
fn local_date_parts() -> (r: (i32, u32, u32, u32))
    ensures
        1 <= r.1 <= 12,
        1 <= r.2 <= 31,
        r.3 < 7,
{
    let now = chrono::Local::now();
    let date = chrono::DateTime::date_naive(&now);
    (
        chrono::Datelike::year(&date),
        chrono::Datelike::month(&date),
        chrono::Datelike::day(&date),
        chrono::Datelike::weekday(&date).num_days_from_monday(),
    )
}

} // verus!