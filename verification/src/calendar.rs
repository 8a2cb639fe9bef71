//! Calendar facts about an instant, computed by chrono: the civil date in
//! the recorded UTC offset, and a human-readable rendering. Both are pure
//! functions of the instant and the offset, so their results are named and
//! the rest of the library reasons over those names.
use chrono::Datelike;
use vstd::prelude::*;

use crate::entry::{MAX_SECS, MIN_SECS};

verus! {

/// The civil date of an instant in a fixed UTC offset, as chrono computes
/// it: (calendar year, month, day of month, day of year, ISO week-based
/// year, ISO week number).
pub uninterp spec fn civil_of(secs: int, off: int) -> (int, int, int, int, int, int);

/// Relies on chrono's `DateTime::from_timestamp`, `FixedOffset::east_opt`,
/// the `Datelike` accessors and `IsoWeek`: for an instant between the
/// years 1 and 9999 and an offset of less than one day, the conversion
/// succeeds, and month, day-of-month, day-of-year and ISO week lie in their
/// documented ranges (the year and ISO year can leave 1..=9999 by at most
/// one step, through the offset or the ISO week rule).
#[verifier::external_body]
pub fn civil_date(secs: i64, off: i32) -> (r: (i64, i64, i64, i64, i64, i64))
    requires
        MIN_SECS <= secs <= MAX_SECS,
        -86399 <= off <= 86399,
    ensures
        (r.0 as int, r.1 as int, r.2 as int, r.3 as int, r.4 as int, r.5 as int) == civil_of(
            secs as int,
            off as int,
        ),
        0 <= r.0 <= 10000,
        1 <= r.1 <= 12,
        1 <= r.2 <= 31,
        1 <= r.3 <= 366,
        -1 <= r.4 <= 10001,
        1 <= r.5 <= 53,
{
    let utc = chrono::DateTime::from_timestamp(secs, 0).unwrap();
    let dt = utc.with_timezone(&chrono::FixedOffset::east_opt(off).unwrap());
    let iw = dt.iso_week();
    (
        dt.year() as i64,
        dt.month() as i64,
        dt.day() as i64,
        dt.ordinal() as i64,
        iw.year() as i64,
        iw.week() as i64,
    )
}

/// A timestamp rendered for display, in its recorded offset.
pub uninterp spec fn local_time_text(secs: int, off: int) -> Seq<char>;

/// Relies on chrono's `DateTime::from_timestamp`, `FixedOffset::east_opt`
/// and `format`: renders the instant in its recorded offset; the result
/// depends on the two arguments alone, and the format string produces a
/// single line (digits, separators and a sign only, never a newline).
#[verifier::external_body]
pub fn format_timestamp(secs: i64, off: i32) -> (r: String)
    requires
        MIN_SECS <= secs <= MAX_SECS,
        -86399 <= off <= 86399,
    ensures
        r@ == local_time_text(secs as int, off as int),
        !r@.contains('\n'),
{
    let utc = chrono::DateTime::from_timestamp(secs, 0).unwrap();
    let dt = utc.with_timezone(&chrono::FixedOffset::east_opt(off).unwrap());
    dt.format("%Y-%m-%d %H:%M:%S %:z").to_string()
}

} // verus!
