//! Moments on the UTC time line, counted in nanoseconds since the Unix epoch.

use time::{Duration, OffsetDateTime};
use vstd::prelude::*;

verus! {

/// The earliest moment that can be represented: midnight at the start of the
/// year -9999, in nanoseconds since the Unix epoch.
pub const MIN_UNIX_NANOS: i128 = -377_705_116_800_000_000_000;

/// The latest moment that can be represented: the last nanosecond of the year
/// 9999, in nanoseconds since the Unix epoch.
pub const MAX_UNIX_NANOS: i128 = 253_402_300_799_999_999_999;

/// The number of nanoseconds in one second.
pub const NANOS_PER_SECOND: i128 = 1_000_000_000;

/// Whether `nanos` lies on the representable part of the time line.
pub open spec fn representable(nanos: int) -> bool {
    MIN_UNIX_NANOS <= nanos <= MAX_UNIX_NANOS
}

/// The moment `secs` seconds before `nanos`, held to the representable part of
/// the time line: what would fall before its start is its start, what would
/// fall after its end is its end. A negative `secs` moves forward in time.
pub open spec fn seconds_before(nanos: int, secs: int) -> int {
    let exact = nanos - secs * NANOS_PER_SECOND;
    if exact < MIN_UNIX_NANOS {
        MIN_UNIX_NANOS as int
    } else if exact > MAX_UNIX_NANOS {
        MAX_UNIX_NANOS as int
    } else {
        exact
    }
}

/// Reads the wall clock through `time::OffsetDateTime::now_utc` and hands back
/// its Unix timestamp in nanoseconds, read with
/// `OffsetDateTime::unix_timestamp_nanos`. Nothing is claimed of the moment
/// itself but that it is one that `OffsetDateTime` can hold.
#[verifier::external_body]
fn clock_unix_nanos() -> (nanos: i128)
    ensures
        representable(nanos as int),
{
    OffsetDateTime::now_utc().unix_timestamp_nanos()
}

/// Calls `time::OffsetDateTime::saturating_sub` on the UTC date-time with the
/// Unix timestamp `nanos` and a duration of `secs` whole seconds; the
/// date-time is made with `OffsetDateTime::from_unix_timestamp_nanos`, the
/// duration with `Duration::seconds`, and the outcome is read with
/// `OffsetDateTime::unix_timestamp_nanos`. The contract claims that the
/// outcome is the exact difference wherever that is representable, and
/// otherwise the nearest end of the representable range.
#[verifier::external_body]
fn saturating_sub_seconds(nanos: i128, secs: i64) -> (earlier: i128)
    requires
        representable(nanos as int),
    ensures
        earlier == seconds_before(nanos as int, secs as int),
{
    let moment = OffsetDateTime::from_unix_timestamp_nanos(nanos).unwrap();
    moment.saturating_sub(Duration::seconds(secs)).unix_timestamp_nanos()
}

/// A moment on the UTC time line with nanosecond resolution.
#[derive(Clone, Copy, Debug)]
pub struct Timestamp {
    nanos: i128,
}

impl View for Timestamp {
    type V = int;

    /// The moment in nanoseconds since the Unix epoch.
    closed spec fn view(&self) -> int {
        self.nanos as int
    }
}

impl Timestamp {
    #[verifier::type_invariant]
    spec fn in_range(self) -> bool {
        representable(self.nanos as int)
    }

    /// The moment `nanos` nanoseconds after the Unix epoch, if it is
    /// representable.
    pub fn from_unix_nanos(nanos: i128) -> (moment: Option<Timestamp>)
        ensures
            moment is Some <==> representable(nanos as int),
            moment is Some ==> moment->Some_0@ == nanos,
    {
        if MIN_UNIX_NANOS <= nanos && nanos <= MAX_UNIX_NANOS {
            Some(Timestamp { nanos })
        } else {
            None
        }
    }

    /// The moment in nanoseconds since the Unix epoch.
    pub fn unix_nanos(&self) -> (nanos: i128)
        ensures
            nanos == self@,
            representable(self@),
    {
        proof {
            use_type_invariant(self);
        }
        self.nanos
    }

    /// The current moment according to the wall clock.
    pub fn now() -> (moment: Timestamp)
        ensures
            representable(moment@),
    {
        Timestamp { nanos: clock_unix_nanos() }
    }

    /// The moment `secs` seconds earlier, or the nearest representable moment
    /// where that one is not representable.
    pub fn saturating_sub_secs(&self, secs: i64) -> (earlier: Timestamp)
        ensures
            earlier@ == seconds_before(self@, secs as int),
            representable(self@),
            representable(earlier@),
    {
        proof {
            use_type_invariant(self);
        }
        Timestamp { nanos: saturating_sub_seconds(self.nanos, secs) }
    }
}

} // verus!
