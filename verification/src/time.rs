//! Time as the library sees it: spans are counts of nanoseconds, and clock
//! readings come from the machine's monotonic clock through a few trusted calls.

use std::time::{Duration, Instant, SystemTime, SystemTimeError};
use vstd::prelude::*;

verus! {

#[verifier::external_type_specification]
#[verifier::external_body]
pub struct ExInstant(std::time::Instant);

#[verifier::external_type_specification]
#[verifier::external_body]
pub struct ExSystemTime(std::time::SystemTime);

#[verifier::external_type_specification]
#[verifier::external_body]
pub struct ExSystemTimeError(std::time::SystemTimeError);

/// `Instant` is `Copy`: its `Clone::clone` hands back the same instant.
pub assume_specification[ <std::time::Instant as Clone>::clone ](i: &Instant) -> (r: Instant)
    ensures
        r == *i,
;

/// A span of time, counted in nanoseconds.
#[derive(Clone, Copy, Debug, PartialEq, Eq, PartialOrd, Ord, Hash)]
pub struct TimeSpan {
    nanos: u128,
}

/// Nanoseconds in one second.
pub const NANOS_PER_SEC: u128 = 1_000_000_000;

/// Nanoseconds in one millisecond.
pub const NANOS_PER_MILLI: u128 = 1_000_000;

impl TimeSpan {
    /// The number of nanoseconds the span stands for.
    pub closed spec fn spec_nanos(&self) -> nat {
        self.nanos as nat
    }

    /// A span of `secs` whole seconds.
    pub fn from_secs(secs: u64) -> (r: TimeSpan)
        ensures
            r.spec_nanos() == secs * 1_000_000_000,
    {
        TimeSpan { nanos: (secs as u128) * NANOS_PER_SEC }
    }

    /// A span of `millis` milliseconds.
    pub fn from_millis(millis: u64) -> (r: TimeSpan)
        ensures
            r.spec_nanos() == millis * 1_000_000,
    {
        TimeSpan { nanos: (millis as u128) * NANOS_PER_MILLI }
    }

    /// A span of `nanos` nanoseconds.
    pub fn from_nanos(nanos: u64) -> (r: TimeSpan)
        ensures
            r.spec_nanos() == nanos,
    {
        TimeSpan { nanos: nanos as u128 }
    }

    /// A span of `nanos` nanoseconds, for the full range of clock readings.
    pub fn from_nanos_u128(nanos: u128) -> (r: TimeSpan)
        ensures
            r.spec_nanos() == nanos,
    {
        TimeSpan { nanos }
    }

    /// The span in nanoseconds.
    pub fn as_nanos(&self) -> (r: u128)
        ensures
            r == self.spec_nanos(),
    {
        self.nanos
    }

    /// The whole seconds in the span (the remainder is dropped).
    pub fn as_secs(&self) -> (r: u128)
        ensures
            r == self.spec_nanos() / 1_000_000_000,
    {
        self.nanos / NANOS_PER_SEC
    }
}

/// Calls `std::time::Instant::now`. The reading comes from the machine's
/// monotonic clock, so no clause states what it is.
#[verifier::external_body]
pub(crate) fn instant_now() -> Instant {
    Instant::now()
}

/// Calls `std::time::Instant::elapsed`. What comes back depends on the
/// clock, so no clause states it.
#[verifier::external_body]
fn instant_elapsed(start: &Instant) -> Duration {
    start.elapsed()
}

/// Calls `std::time::Duration::as_nanos`. A `Duration` is opaque here, so no
/// clause ties the count to it; it only counts nanoseconds.
#[verifier::external_body]
fn duration_as_nanos(d: &Duration) -> u128 {
    d.as_nanos()
}

/// Calls `std::time::Duration::as_secs`. A `Duration` is opaque here, so no
/// clause ties the count to it; it only counts whole seconds.
#[verifier::external_body]
fn duration_as_secs(d: &Duration) -> u64 {
    d.as_secs()
}

/// Calls `std::time::SystemTime::now`. The reading comes from the machine's
/// wall clock, so no clause states what it is.
#[verifier::external_body]
fn system_time_now() -> SystemTime {
    SystemTime::now()
}

/// Calls `std::time::SystemTime::duration_since` with `UNIX_EPOCH`. It fails
/// when the reading lies before the epoch; no clause states which happens.
#[verifier::external_body]
fn since_unix_epoch(t: &SystemTime) -> Result<Duration, SystemTimeError> {
    t.duration_since(std::time::UNIX_EPOCH)
}

/// Nanoseconds since `start` on the monotonic clock. It depends on the clock,
/// so nothing is promised of the number.
pub(crate) fn nanos_since(start: &Instant) -> u128 {
    let d = instant_elapsed(start);
    duration_as_nanos(&d)
}

/// The span since `start` on the monotonic clock.
pub(crate) fn span_since(start: &Instant) -> TimeSpan {
    TimeSpan { nanos: nanos_since(start) }
}

/// Whole seconds since the Unix epoch on the wall clock, or 0 when the clock
/// reads a time before the epoch.
pub(crate) fn unix_time_secs() -> u64 {
    let t = system_time_now();
    match since_unix_epoch(&t) {
        Ok(d) => duration_as_secs(&d),
        Err(_) => 0,
    }
}

/// The time from reading `earlier` to reading `now` of one clock; a reading
/// that is not later counts as no time at all.
pub open spec fn elapsed_between(earlier: u128, now: u128) -> nat {
    if now >= earlier {
        (now - earlier) as nat
    } else {
        0
    }
}

/// The time from reading `earlier` to reading `now` (see [`elapsed_between`]).
pub fn elapsed_nanos(earlier: u128, now: u128) -> (r: u128)
    ensures
        r == elapsed_between(earlier, now),
{
    if now >= earlier {
        now - earlier
    } else {
        0
    }
}

/// A monotonic clock that counts nanoseconds from the moment it was started.
/// Readings of one clock can be compared with each other: the clock remembers
/// the latest reading it handed out with [`Clock::tick`], and no reading it
/// gives is earlier than that one.
#[derive(Debug)]
pub(crate) struct Clock {
    epoch: Instant,
    last: u128,
}

impl Clock {
    /// The latest reading handed out by [`Clock::tick`] (0 before any).
    pub closed spec fn spec_last(&self) -> u128 {
        self.last
    }

    /// A clock started now.
    pub fn start() -> (r: Clock)
        ensures
            r.spec_last() == 0,
    {
        Clock { epoch: instant_now(), last: 0 }
    }

    /// Nanoseconds since the clock was started; never earlier than the
    /// latest reading handed out by [`Clock::tick`].
    pub fn now(&self) -> (r: u128)
        ensures
            r >= self.spec_last(),
    {
        let raw = nanos_since(&self.epoch);
        if raw >= self.last {
            raw
        } else {
            self.last
        }
    }

    /// A reading of the clock, as [`Clock::now`], remembered as the latest
    /// one handed out.
    pub fn tick(&mut self) -> (r: u128)
        ensures
            r >= old(self).spec_last(),
            final(self).spec_last() == r,
    {
        let r = self.now();
        self.last = r;
        r
    }
}

} // verus!
