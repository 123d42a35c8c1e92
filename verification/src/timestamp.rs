//! Reading the calendar date out of an RFC 3339 timestamp.
//!
//! The timestamp grammar and calendar arithmetic are chrono's; the
//! library only needs the calendar date that a timestamp names in its
//! own fixed offset, as plain year / month / day numbers.

use vstd::prelude::*;
use crate::date::Date;
use chrono::Datelike;

verus! {

/// The calendar date (year, month, day) that the byte text names when
/// read as an RFC 3339 date-and-time, in the offset the text carries;
/// `None` when the text is not a valid RFC 3339 date-and-time. This is
/// what `chrono::DateTime::parse_from_rfc3339` followed by `date_naive`
/// computes, and it depends on the bytes alone.
pub uninterp spec fn rfc3339_date_of(s: Seq<u8>) -> Option<(int, int, int)>;

/// Relies on `chrono::DateTime::parse_from_rfc3339` and
/// `DateTime::date_naive`: parsing succeeds exactly on valid RFC 3339
/// date-and-time text, the returned calendar date is the one the text
/// spells in its own offset, and chrono only ever yields a four-digit
/// year and a month and day that `NaiveDate::from_ymd_opt` accepted.
#[verifier::external_body]
pub fn parse_timestamp_date(s: &Vec<u8>) -> (r: Option<Date>)
    ensures
        r is Some <==> rfc3339_date_of(s@) is Some,
        r matches Some(d) ==> {
            &&& rfc3339_date_of(s@) == Some((d.year as int, d.month as int, d.day as int))
            &&& d.valid()
        },
{
    let text = match core::str::from_utf8(s) {
        Ok(t) => t,
        Err(_) => return None,
    };
    let parsed = match chrono::DateTime::parse_from_rfc3339(text) {
        Ok(p) => p,
        Err(_) => return None,
    };
    let day = parsed.date_naive();
    Some(Date { year: day.year() as u16, month: day.month() as u8, day: day.day() as u8 })
}

} // verus!
