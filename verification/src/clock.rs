//! Points in time, and the due date of a new card.

use crate::text::text_of;
use vstd::prelude::*;

verus! {

/// A point in time: whole seconds since the start of 1970 in UTC, and the
/// nanoseconds that have passed since that second began.
#[derive(Clone, Copy, Debug, PartialEq, Eq, Structural)]
pub struct Timestamp {
    pub secs: i64,
    pub nanos: u32,
}

/// The time that a new card is given to be dealt with: five hours, in seconds.
pub const DUE_WINDOW_SECS: i64 = 18000;

/// The RFC 3339 text of the point in time `secs` seconds and `nanos`
/// nanoseconds after the start of 1970 in UTC, or `None` where the calendar
/// in use has no such point.
pub uninterp spec fn rfc3339_utc(secs: i64, nanos: u32) -> Option<Seq<char>>;

/// The due date of a card created at `now`: the text of the point in time
/// five hours later, or none where that point cannot be written.
pub open spec fn due_date_of(now: Timestamp) -> Option<Seq<char>> {
    if now.secs + DUE_WINDOW_SECS <= i64::MAX {
        rfc3339_utc((now.secs + DUE_WINDOW_SECS) as i64, now.nanos)
    } else {
        None
    }
}

/// Calls `chrono::DateTime::<Utc>::from_timestamp` and, on the date and time
/// it gives, `DateTime::to_rfc3339`. Trusted: the text is a function of the
/// two numbers alone, and there is none exactly where `from_timestamp` gives
/// none. Nothing is claimed about what the text holds.
#[verifier::external_body]
fn format_rfc3339_utc(secs: i64, nanos: u32) -> (text: Option<String>)
    ensures
        text_of(text) == rfc3339_utc(secs, nanos),
{
    match chrono::DateTime::<chrono::Utc>::from_timestamp(secs, nanos) {
        Some(at) => Some(at.to_rfc3339()),
        None => None,
    }
}

/// The due date of a card created at `now`.
pub fn due_date(now: Timestamp) -> (text: Option<String>)
    ensures
        text_of(text) == due_date_of(now),
{
    if now.secs <= i64::MAX - DUE_WINDOW_SECS {
        format_rfc3339_utc(now.secs + DUE_WINDOW_SECS, now.nanos)
    } else {
        None
    }
}

} // verus!
