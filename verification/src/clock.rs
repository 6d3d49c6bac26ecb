//! The time of day, from the system's clock.

use vstd::prelude::*;

verus! {

/// `time::get_time`: the seconds part of the current time, counted from the epoch.
/// Nothing is claimed of the number: the clock may stand anywhere.
#[verifier::external_body]
pub(crate) fn unix_seconds() -> i64 {
    time::get_time().sec
}

/// The current time in whole seconds since the epoch, held to the range of a
/// timestamp as `timestamp_of` holds it. Nothing is known of the clock, and so
/// nothing of the result: it may be any timestamp.
pub(crate) fn now() -> u32 {
    timestamp_at(unix_seconds())
}

/// The timestamp for a clock that reads `seconds` since the epoch: a reading
/// before the epoch counts as zero, one beyond the range of a timestamp as the
/// last second of the range.
pub open spec fn timestamp_of(seconds: int) -> u32 {
    if seconds < 0 {
        0
    } else if seconds > u32::MAX {
        u32::MAX
    } else {
        seconds as u32
    }
}

/// The timestamp for a clock that reads `seconds` since the epoch.
pub fn timestamp_at(seconds: i64) -> (timestamp: u32)
    ensures
        timestamp == timestamp_of(seconds as int),
{
    if seconds < 0 {
        0
    } else if seconds > 0xffff_ffff {
        0xffff_ffff
    } else {
        seconds as u32
    }
}

} // verus!
