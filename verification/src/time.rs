//! Points in time, query ranges, and the window of timestamps that map to a
//! calendar date.

use vstd::prelude::*;

verus! {

/// Earliest number of seconds since the Unix epoch that maps to a calendar
/// date: the timestamp of `chrono::DateTime::<Utc>::MIN_UTC`.
pub const MIN_TIMESTAMP_SECS: i64 = -8334601228800;

/// Latest number of seconds since the Unix epoch that maps to a calendar
/// date: the timestamp of `chrono::DateTime::<Utc>::MAX_UTC`.
pub const MAX_TIMESTAMP_SECS: i64 = 8210266876799;

/// An absolute point in time, counted in whole seconds since the Unix epoch.
#[derive(Clone, Copy, PartialEq, Eq, Structural, Debug)]
pub struct Timestamp {
    pub secs: i64,
}

impl Timestamp {
    /// True when this point in time maps to a calendar date, that is, lies
    /// inside chrono's representable window.
    pub open spec fn representable(self) -> bool {
        MIN_TIMESTAMP_SECS <= self.secs <= MAX_TIMESTAMP_SECS
    }

    pub fn new(secs: i64) -> (r: Timestamp)
        ensures
            r.secs == secs,
    {
        Timestamp { secs }
    }
}

/// Relies on `chrono::DateTime::<Utc>::from_timestamp`: with zero nanoseconds
/// it returns `Some` exactly when `secs` lies between the timestamps of
/// `DateTime::<Utc>::MIN_UTC` and `DateTime::<Utc>::MAX_UTC`.
#[verifier::external_body]
pub(crate) fn chrono_representable(secs: i64) -> (r: bool)
    ensures
        r == (MIN_TIMESTAMP_SECS <= secs <= MAX_TIMESTAMP_SECS),
{
    chrono::DateTime::<chrono::Utc>::from_timestamp(secs, 0).is_some()
}

/// A query time range, inclusive at both ends.
#[derive(Clone, Copy, PartialEq, Eq, Structural, Debug)]
pub struct TimeRange {
    pub start: Timestamp,
    pub end: Timestamp,
}

impl TimeRange {
    /// The range is well formed when its start does not lie after its end.
    pub open spec fn wf(self) -> bool {
        self.start.secs <= self.end.secs
    }

    /// Inclusive containment: `start <= t <= end`.
    pub open spec fn spec_includes(self, t: Timestamp) -> bool {
        self.start.secs <= t.secs <= self.end.secs
    }

    /// Builds a range, refusing a start that lies after the end.
    pub fn new(start: Timestamp, end: Timestamp) -> (r: Option<TimeRange>)
        ensures
            r is Some <==> start.secs <= end.secs,
            r matches Some(v) ==> v == (TimeRange { start, end }),
    {
        if start.secs <= end.secs {
            Some(TimeRange { start, end })
        } else {
            None
        }
    }

    /// Inclusive containment test: `start <= t <= end`.
    pub fn includes(&self, t: &Timestamp) -> (r: bool)
        ensures
            r == self.spec_includes(*t),
    {
        self.start.secs <= t.secs && t.secs <= self.end.secs
    }
}

} // verus!
