//! Periodic heartbeat signals, to detect stalled or unresponsive components.

use crate::time::{instant_now, nanos_since, TimeSpan};
use std::time::Instant;
use vstd::prelude::*;

verus! {

/// How a component looks from its heartbeats.
#[derive(Debug, Clone, Copy, PartialEq, Eq, Structural)]
pub enum HeartbeatStatus {
    Alive,
    Stale { missed: u32 },
    Dead,
}

/// How many whole intervals fit in `elapsed` (all of `u32` when the
/// interval is zero, capped at `u32::MAX`).
pub open spec fn missed_intervals(elapsed: nat, interval: nat) -> nat {
    if interval == 0 {
        u32::MAX as nat
    } else if elapsed / interval > u32::MAX {
        u32::MAX as nat
    } else {
        elapsed / interval
    }
}

/// The status given the time since the last beat (`None` when there was
/// none yet).
pub open spec fn heartbeat_status(since_beat: Option<u128>, interval: nat, max_missed: nat) -> HeartbeatStatus {
    match since_beat {
        None => HeartbeatStatus::Stale { missed: 0 },
        Some(e) => if e <= interval {
            HeartbeatStatus::Alive
        } else if missed_intervals(e as nat, interval) >= max_missed {
            HeartbeatStatus::Dead
        } else {
            HeartbeatStatus::Stale { missed: missed_intervals(e as nat, interval) as u32 }
        },
    }
}

/// The missed count that a status check leaves behind.
pub open spec fn missed_after_check(since_beat: Option<u128>, interval: nat, missed_before: nat) -> nat {
    match since_beat {
        None => missed_before,
        Some(e) => if e <= interval {
            0
        } else {
            missed_intervals(e as nat, interval)
        },
    }
}

/// A component's heartbeat record.
#[derive(Debug, Clone)]
pub struct Heartbeat {
    pub name: String,
    pub interval: TimeSpan,
    last_beat: Option<Instant>,
    missed_count: u32,
    pub max_missed: u32,
}

impl Heartbeat {
    /// Whether a beat has been recorded.
    pub closed spec fn spec_has_beat(&self) -> bool {
        self.last_beat is Some
    }

    pub closed spec fn spec_name(&self) -> Seq<char> {
        self.name@
    }

    pub closed spec fn spec_interval(&self) -> nat {
        self.interval.spec_nanos()
    }

    pub closed spec fn spec_max_missed(&self) -> nat {
        self.max_missed as nat
    }

    /// The missed count as of the last status check.
    pub closed spec fn spec_missed(&self) -> nat {
        self.missed_count as nat
    }

    /// A heartbeat that has not beaten yet.
    pub fn new(name: &str, interval: TimeSpan, max_missed: u32) -> (r: Self)
        ensures
            r.spec_name() == name@,
            r.spec_interval() == interval.spec_nanos(),
            r.spec_max_missed() == max_missed,
            !r.spec_has_beat(),
            r.spec_missed() == 0,
    {
        Heartbeat {
            name: name.to_owned(),
            interval,
            last_beat: None,
            missed_count: 0,
            max_missed,
        }
    }

    /// Records a heartbeat now.
    pub fn beat(&mut self)
        ensures
            final(self).spec_has_beat(),
            final(self).spec_missed() == 0,
            final(self).spec_name() == old(self).spec_name(),
            final(self).spec_interval() == old(self).spec_interval(),
            final(self).spec_max_missed() == old(self).spec_max_missed(),
    {
        self.last_beat = Some(instant_now());
        self.missed_count = 0;
    }

    /// The status, given the time since the last beat (`None` when there was
    /// none); the missed count is updated to match.
    pub fn status_after(&mut self, since_beat: Option<u128>) -> (r: HeartbeatStatus)
        ensures
            r == heartbeat_status(since_beat, old(self).spec_interval(), old(self).spec_max_missed()),
            final(self).spec_missed() == missed_after_check(
                since_beat,
                old(self).spec_interval(),
                old(self).spec_missed(),
            ),
            final(self).spec_has_beat() == old(self).spec_has_beat(),
            final(self).spec_name() == old(self).spec_name(),
            final(self).spec_interval() == old(self).spec_interval(),
            final(self).spec_max_missed() == old(self).spec_max_missed(),
    {
        let elapsed = match since_beat {
            None => {
                return HeartbeatStatus::Stale { missed: 0 };
            },
            Some(e) => e,
        };
        let interval = self.interval.as_nanos();
        if elapsed <= interval {
            self.missed_count = 0;
            return HeartbeatStatus::Alive;
        }
        let missed: u32 = if interval == 0 {
            u32::MAX
        } else {
            let q = elapsed / interval;
            if q > u32::MAX as u128 {
                u32::MAX
            } else {
                q as u32
            }
        };
        self.missed_count = missed;
        if missed >= self.max_missed {
            HeartbeatStatus::Dead
        } else {
            HeartbeatStatus::Stale { missed }
        }
    }

    /// The status now, from the monotonic clock.
    pub fn status(&mut self) -> (r: HeartbeatStatus)
        ensures
            exists|since: Option<u128>|
                #![trigger heartbeat_status(since, old(self).spec_interval(), old(self).spec_max_missed())]
                {
                    &&& (since is Some <==> old(self).spec_has_beat())
                    &&& r == heartbeat_status(since, old(self).spec_interval(), old(self).spec_max_missed())
                    &&& final(self).spec_missed() == missed_after_check(
                        since,
                        old(self).spec_interval(),
                        old(self).spec_missed(),
                    )
                },
            final(self).spec_has_beat() == old(self).spec_has_beat(),
            final(self).spec_name() == old(self).spec_name(),
            final(self).spec_interval() == old(self).spec_interval(),
            final(self).spec_max_missed() == old(self).spec_max_missed(),
    {
        let since = match &self.last_beat {
            Some(last) => Some(nanos_since(last)),
            None => None,
        };
        let r = self.status_after(since);
        proof {
            assert(r == heartbeat_status(since, old(self).spec_interval(), old(self).spec_max_missed()));
        }
        r
    }

    /// The missed count as of the last status check.
    pub fn missed_count(&self) -> (r: u32)
        ensures
            r == self.spec_missed(),
    {
        self.missed_count
    }

    /// When the last beat was recorded, if ever.
    pub fn last_beat(&self) -> (r: Option<Instant>)
        ensures
            r is Some == self.spec_has_beat(),
    {
        self.last_beat
    }

    /// Whether the component is alive now.
    pub fn is_alive(&mut self) -> (r: bool)
        ensures
            exists|since: Option<u128>|
                #![trigger heartbeat_status(since, old(self).spec_interval(), old(self).spec_max_missed())]
                {
                    &&& (since is Some <==> old(self).spec_has_beat())
                    &&& r == (heartbeat_status(since, old(self).spec_interval(), old(self).spec_max_missed())
                        == HeartbeatStatus::Alive)
                    &&& final(self).spec_missed() == missed_after_check(
                        since,
                        old(self).spec_interval(),
                        old(self).spec_missed(),
                    )
                },
            final(self).spec_has_beat() == old(self).spec_has_beat(),
            final(self).spec_name() == old(self).spec_name(),
            final(self).spec_interval() == old(self).spec_interval(),
            final(self).spec_max_missed() == old(self).spec_max_missed(),
    {
        let s = self.status();
        s == HeartbeatStatus::Alive
    }
}

/// A component that never beat is stale with nothing missed, never alive or
/// dead.
pub proof fn lemma_no_beat_is_stale(interval: nat, max_missed: nat)
    ensures
        heartbeat_status(None, interval, max_missed) == (HeartbeatStatus::Stale { missed: 0 }),
{
}

/// Within one interval of a beat a component is alive; past it, it is dead
/// exactly when the missed intervals reach the limit, and stale otherwise
/// with at least one interval missed.
pub proof fn lemma_status_by_elapsed(e: u128, interval: nat, max_missed: nat)
    ensures
        e <= interval ==> heartbeat_status(Some(e), interval, max_missed) == HeartbeatStatus::Alive,
        e > interval ==> (heartbeat_status(Some(e), interval, max_missed) == HeartbeatStatus::Dead
            <==> missed_intervals(e as nat, interval) >= max_missed),
        e > interval ==> missed_intervals(e as nat, interval) >= 1,
{
    if e > interval && interval > 0 {
        assert((e as nat) / interval >= 1) by (nonlinear_arith)
            requires
                e > interval,
                interval > 0,
        ;
    }
}

} // verus!
