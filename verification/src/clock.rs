//! The system clock.

use crate::timestamp::{ClockReading, Timestamp};
use chrono::{Datelike, Timelike};
use vstd::prelude::*;

verus! {

/// The time since 1970 that `std::time::SystemTime::now` reports, made into
/// a date and a time of day in UTC by `chrono::DateTime::from_timestamp` and
/// taken apart with the getters of `Datelike` and `Timelike`. Each of the
/// three steps reports its failure as a value: a clock set before 1970, a
/// number of seconds past the range of `i64`, a time that chrono cannot
/// hold. So there is no reading then, and no panic. Of a reading only the
/// ranges are claimed that chrono documents for the getters: month 1 to 12,
/// day 1 to 31, hour to 23, minute to 59, second to 59, and a nanosecond
/// field that passes a thousand million during a leap second only.
#[verifier::external_body]
pub(crate) fn read_clock() -> (r: Option<ClockReading>)
    ensures
        r matches Some(c) ==> c.in_range(),
{
    let since = std::time::SystemTime::now().duration_since(std::time::UNIX_EPOCH).ok()?;
    let seconds = i64::try_from(since.as_secs()).ok()?;
    let now = chrono::DateTime::from_timestamp(seconds, since.subsec_nanos())?;
    Some(
        ClockReading {
            year: now.year(),
            month: now.month(),
            day: now.day(),
            hour: now.hour(),
            minute: now.minute(),
            second: now.second(),
            nanosecond: now.nanosecond(),
        },
    )
}

/// The current time, where the clock can be read and names a date of the
/// calendar.
pub fn now() -> (r: Option<Timestamp>)
    ensures
        r matches Some(t) ==> t@.wf(),
{
    match read_clock() {
        Some(reading) => Timestamp::from_clock(reading),
        None => None,
    }
}

} // verus!
