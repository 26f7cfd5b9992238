//! Instants of UTC time, as whole seconds since the Unix epoch and nanoseconds.
use vstd::prelude::*;

verus! {

/// The largest number of seconds since the epoch that a chrono `DateTime<Utc>` can hold
/// (the last second of the year 262142).
pub const MAX_TIMESTAMP_SECS: i64 = 8210266876799;

/// An instant: seconds since the Unix epoch and the nanoseconds past that second.
#[derive(Clone, Copy, PartialEq, Eq, Structural, Debug)]
pub struct Timestamp {
    pub secs: i64,
    pub nanos: u32,
}

impl Timestamp {
    /// Whether `self` lies strictly after `other` (compared as chrono compares instants).
    pub open spec fn spec_is_after(self, other: Timestamp) -> bool {
        self.secs > other.secs || (self.secs == other.secs && self.nanos > other.nanos)
    }

    /// Whether `self` lies strictly after `other`.
    #[verifier::when_used_as_spec(spec_is_after)]
    pub fn is_after(self, other: Timestamp) -> (r: bool)
        ensures
            r == self.spec_is_after(other),
    {
        self.secs > other.secs || (self.secs == other.secs && self.nanos > other.nanos)
    }
}

/// The current instant.
///
/// Calls `chrono::Utc::now`, then `timestamp` and `timestamp_subsec_nanos` on the result.
/// The instant depends on the clock, so only its range is claimed: `Utc::now` reads the
/// system time as a duration since the Unix epoch (so no earlier instant, and less than a
/// second of nanoseconds) and builds a `DateTime` from it, which chrono bounds by its last
/// representable second. `Utc::now` panics when the system clock lies before the epoch;
/// the call takes no input by which that case could be excluded.
#[verifier::external_body]
pub fn current_time() -> (t: Timestamp)
    ensures
        0 <= t.secs <= MAX_TIMESTAMP_SECS,
        t.nanos < 1_000_000_000,
{
    let now = chrono::Utc::now();
    Timestamp { secs: now.timestamp(), nanos: now.timestamp_subsec_nanos() }
}

} // verus!
