//! Calendar rendering of Unix timestamps.

use vstd::prelude::*;

verus! {

/// The UTC date and time of a Unix timestamp, written `%Y-%m-%d %H:%M:%S`.
pub uninterp spec fn utc_time_text(secs: int) -> Seq<char>;

/// Relies on chrono's `DateTime::<Utc>::from_timestamp`, which gives `None`
/// outside chrono's date range, and on formatting the date it gives as
/// `%Y-%m-%d %H:%M:%S`: the text depends on the seconds alone.
#[verifier::external_body]
fn utc_timestamp(secs: i64) -> (r: Option<String>)
    ensures
        r is Some ==> r->0@ == utc_time_text(secs as int),
{
    match chrono::DateTime::from_timestamp(secs, 0) {
        Some(d) => Some(d.format("%Y-%m-%d %H:%M:%S").to_string()),
        None => None,
    }
}

/// The UTC date and time of the Unix timestamp `i`; `None` where it does not
/// fit an `i64` or lies outside the calendar's range.
pub fn format_time(i: u64) -> (r: Option<String>)
    ensures
        i > i64::MAX ==> r is None,
        r is Some ==> r->0@ == utc_time_text(i as int),
{
    if i > i64::MAX as u64 {
        None
    } else {
        utc_timestamp(i as i64)
    }
}

} // verus!
