//! The time stamp of a log file name, from the seconds since the epoch,
//! without a calendar: years of 365 days.

use vstd::prelude::*;

verus! {

/// The fields of a time stamp.
#[derive(Debug, Clone, Copy, PartialEq, Eq, Structural)]
pub struct Stamp {
    /// 1970 plus the number of full 365-day years.
    pub year: u64,
    /// Day within such a year, from 0.
    pub day: u64,
    /// Hour of the day.
    pub hour: u64,
    /// Minute of the hour.
    pub minute: u64,
    /// Second of the minute.
    pub second: u64,
}

/// The time stamp of `now` seconds since the epoch.
pub fn stamp_of(now: u64) -> (r: Stamp)
    ensures
        r.second == now % 60,
        r.minute == (now / 60) % 60,
        r.hour == (now / 3600) % 24,
        r.day == (now / 86400) % 365,
        r.year == 1970 + (now / 86400) / 365,
{
    let s: u64 = now % 60;
    let m: u64 = (now / 60) % 60;
    let h: u64 = (now / 3600) % 24;
    let days: u64 = now / 86400;
    let y: u64 = 1970 + days / 365;
    let d: u64 = days % 365;
    Stamp { year: y, day: d, hour: h, minute: m, second: s }
}

} // verus!
