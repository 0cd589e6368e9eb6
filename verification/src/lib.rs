//! Keeps an mdbook `SUMMARY.md` up to date with one dated entry per day.
//!
//! The library has two halves:
//! - a line inserter: a total string transformation that places a new entry
//!   line right before the first existing entry line (lines are recognised by
//!   a marker prefix, the sigil), appends it when no entry line exists yet,
//!   never duplicates a line that is already present, and always ends the
//!   result with a newline;
//! - a line formatter: renders a calendar date as the entry line
//!   `- [<Weekday>, <Mon> <DD>, <YYYY>](./<YYYY>/<YYYY>-<MM>/<YYYY>-<MM>-<DD>.md)`.
//!
//! Reading and writing the summary file is left to the caller.

use vstd::prelude::*;

pub mod date;
pub mod format;
pub mod insert;
pub mod lines;

pub use crate::date::Date;
pub use crate::format::summary_line_for_date;
pub use crate::insert::insert_line_before_sigil;

verus! {

/// The marker prefix that tells entry lines apart from titles and other
/// preamble in a summary file.
pub const SIGIL: &'static str = "- [";

/// The sigil as a sequence of characters, for contracts.
pub open spec fn spec_sigil() -> Seq<char> {
    "- ["@
}

/// Today's entry line, from the local clock: some well-formed date,
/// rendered with the fixed pattern.
pub fn todays_line() -> (r: String)
    ensures
        exists|d: crate::date::Date| d.wf() && r@ == crate::format::spec_summary_line(d),
{
    let d = crate::date::today();
    let r = crate::format::summary_line_for_date(&d);
    proof {
        assert(d.wf() && r@ == crate::format::spec_summary_line(d));
    }
    r
}

/// The updated text of a summary file: today's entry line placed before
/// the first existing entry line, or appended when there is none, and not
/// placed at all when it is already there. The caller reads the file and
/// writes the result back.
pub fn update_summary(text: &str) -> (r: String)
    ensures
        exists|d: crate::date::Date|
            d.wf() && r@ == crate::insert::spec_insert_text(
                crate::format::spec_summary_line(d),
                spec_sigil(),
                text@,
            ),
{
    let line = todays_line();
    let r = crate::insert::insert_line_before_sigil(line.as_str(), SIGIL, text);
    proof {
        let d = choose|d: crate::date::Date|
            d.wf() && line@ == crate::format::spec_summary_line(d);
        assert(d.wf() && r@ == crate::insert::spec_insert_text(
            crate::format::spec_summary_line(d),
            spec_sigil(),
            text@,
        ));
    }
    r
}

} // verus!
