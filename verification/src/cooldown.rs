//! Per-process cooldown periods against alert fatigue: once an alert fires
//! for a process, it may not fire again until the cooldown has passed.

use crate::keyed_map::KeyedMap;
use crate::time::{elapsed_between, elapsed_nanos, Clock, TimeSpan, NANOS_PER_SEC};
use vstd::prelude::*;

verus! {

/// Whether a process whose last alert was at `last` (if any) may alert at
/// `now`.
pub open spec fn cooldown_allows(last: Option<u128>, now: u128, cooldown: nat) -> bool {
    match last {
        Some(t) => elapsed_between(t, now) >= cooldown,
        None => true,
    }
}

/// Whole seconds of cooldown left at `now` (0 when none is left).
pub open spec fn cooldown_remaining(last: Option<u128>, now: u128, cooldown: nat) -> nat {
    match last {
        Some(t) => if elapsed_between(t, now) >= cooldown {
            0
        } else {
            ((cooldown - elapsed_between(t, now)) as nat) / 1_000_000_000
        },
        None => 0,
    }
}

/// Tracks, per process, when its last alert was sent.
#[derive(Debug)]
pub struct CooldownTracker {
    cooldown_duration: TimeSpan,
    last_alerted: KeyedMap<String, u128>,
    clock: Clock,
}

impl CooldownTracker {
    /// The tracked processes form a finite map.
    pub proof fn lemma_finite(&self)
        requires
            self.wf(),
        ensures
            self.spec_last().dom().finite(),
    {
        self.last_alerted.lemma_entries();
    }

    /// When each tracked process last alerted (readings of the tracker's clock).
    pub closed spec fn spec_last(&self) -> Map<Seq<char>, u128> {
        self.last_alerted@
    }

    /// The cooldown, in nanoseconds.
    pub closed spec fn spec_cooldown(&self) -> nat {
        self.cooldown_duration.spec_nanos()
    }

    /// The latest reading of the tracker's clock that a call took.
    pub closed spec fn spec_clock(&self) -> u128 {
        self.clock.spec_last()
    }

    pub closed spec fn wf(&self) -> bool {
        &&& self.last_alerted.wf()
        &&& self.cooldown_duration.spec_nanos() <= u64::MAX * 1_000_000_000
    }

    /// The last alert of `name`, if any.
    pub open spec fn last_of(&self, name: Seq<char>) -> Option<u128> {
        if self.spec_last().contains_key(name) {
            Some(self.spec_last()[name])
        } else {
            None
        }
    }

    /// A tracker with a cooldown of `cooldown_secs` seconds and no alerts.
    pub fn new(cooldown_secs: u64) -> (r: Self)
        ensures
            r.wf(),
            r.spec_cooldown() == cooldown_secs * 1_000_000_000,
            r.spec_last() == Map::<Seq<char>, u128>::empty(),
    {
        CooldownTracker {
            cooldown_duration: TimeSpan::from_secs(cooldown_secs),
            last_alerted: KeyedMap::new(),
            clock: Clock::start(),
        }
    }

    /// Whether `process_name` may alert at clock reading `now`.
    pub fn is_allowed_at(&self, process_name: &str, now: u128) -> (r: bool)
        requires
            self.wf(),
        ensures
            r == cooldown_allows(self.last_of(process_name@), now, self.spec_cooldown()),
    {
        match self.last_alerted.get(process_name) {
            Some(last) => elapsed_nanos(*last, now) >= self.cooldown_duration.as_nanos(),
            None => true,
        }
    }

    /// Whether `process_name` may alert now, judged by a reading of the
    /// tracker's clock no earlier than any a call took before.
    pub fn is_allowed(&self, process_name: &str) -> (r: bool)
        requires
            self.wf(),
        ensures
            exists|now: u128|
                now >= self.spec_clock() && r == #[trigger] cooldown_allows(
                    self.last_of(process_name@),
                    now,
                    self.spec_cooldown(),
                ),
    {
        let now = self.clock.now();
        self.is_allowed_at(process_name, now)
    }

    /// Records that an alert for `process_name` was sent at clock reading `now`.
    pub fn record_alert_at(&mut self, process_name: &str, now: u128)
        requires
            old(self).wf(),
        ensures
            final(self).wf(),
            final(self).spec_last() == old(self).spec_last().insert(process_name@, now),
            final(self).spec_cooldown() == old(self).spec_cooldown(),
            final(self).spec_clock() == old(self).spec_clock(),
    {
        self.last_alerted.insert(process_name.to_owned(), now);
    }

    /// Records that an alert for `process_name` was sent now: at a reading of
    /// the tracker's clock no earlier than any a call took before.
    pub fn record_alert(&mut self, process_name: &str)
        requires
            old(self).wf(),
        ensures
            final(self).wf(),
            exists|now: u128| final(self).spec_last() == old(self).spec_last().insert(process_name@, now),
            final(self).spec_cooldown() == old(self).spec_cooldown(),
            final(self).spec_clock() >= old(self).spec_clock(),
            final(self).spec_last() == old(self).spec_last().insert(process_name@, final(self).spec_clock()),
    {
        let now = self.clock.tick();
        self.record_alert_at(process_name, now);
        proof {
            assert(self.spec_last() == old(self).spec_last().insert(process_name@, now));
        }
    }

    /// Whole seconds of cooldown left for `process_name` at clock reading
    /// `now`, or 0 if it is not in cooldown.
    pub fn remaining_secs_at(&self, process_name: &str, now: u128) -> (r: u64)
        requires
            self.wf(),
        ensures
            r == cooldown_remaining(self.last_of(process_name@), now, self.spec_cooldown()),
    {
        match self.last_alerted.get(process_name) {
            Some(last) => {
                let elapsed = elapsed_nanos(*last, now);
                let cooldown = self.cooldown_duration.as_nanos();
                if elapsed >= cooldown {
                    0
                } else {
                    let secs = (cooldown - elapsed) / NANOS_PER_SEC;
                    proof {
                        assert((cooldown - elapsed) / 1_000_000_000 <= cooldown / 1_000_000_000)
                            by (nonlinear_arith)
                            requires
                                elapsed <= cooldown,
                        ;
                        assert(cooldown / 1_000_000_000 <= u64::MAX) by (nonlinear_arith)
                            requires
                                cooldown <= u64::MAX * 1_000_000_000,
                        ;
                    }
                    secs as u64
                }
            },
            None => 0,
        }
    }

    /// Whole seconds of cooldown left for `process_name` now.
    pub fn remaining_secs(&self, process_name: &str) -> (r: u64)
        requires
            self.wf(),
        ensures
            exists|now: u128|
                now >= self.spec_clock() && r == #[trigger] cooldown_remaining(
                    self.last_of(process_name@),
                    now,
                    self.spec_cooldown(),
                ),
    {
        let now = self.clock.now();
        self.remaining_secs_at(process_name, now)
    }

    /// Clears the cooldown of `process_name`.
    pub fn reset(&mut self, process_name: &str)
        requires
            old(self).wf(),
        ensures
            final(self).wf(),
            final(self).spec_last() == old(self).spec_last().remove(process_name@),
            final(self).spec_cooldown() == old(self).spec_cooldown(),
    {
        let _ = self.last_alerted.remove(process_name);
    }

    /// Clears every cooldown.
    pub fn reset_all(&mut self)
        requires
            old(self).wf(),
        ensures
            final(self).wf(),
            final(self).spec_last() == Map::<Seq<char>, u128>::empty(),
            final(self).spec_cooldown() == old(self).spec_cooldown(),
    {
        self.last_alerted.clear();
    }
}

/// Right after an alert a process is in cooldown (for a cooldown of at least
/// one nanosecond), stays so until the cooldown has passed, and is allowed
/// from then on.
pub proof fn lemma_alert_starts_cooldown(t: u128, now: u128, cooldown: nat)
    ensures
        cooldown > 0 ==> !cooldown_allows(Some(t), t, cooldown),
        now >= t ==> (cooldown_allows(Some(t), now, cooldown) <==> now - t >= cooldown),
{
}

/// A process that may alert has no cooldown left; one that may not has at
/// most the whole cooldown left.
pub proof fn lemma_remaining_agrees(last: Option<u128>, now: u128, cooldown: nat)
    ensures
        cooldown_allows(last, now, cooldown) ==> cooldown_remaining(last, now, cooldown) == 0,
        cooldown_remaining(last, now, cooldown) <= cooldown / 1_000_000_000,
        cooldown_remaining(last, now, cooldown) > 0 ==> !cooldown_allows(last, now, cooldown),
{
    match last {
        Some(t) => {
            if elapsed_between(t, now) < cooldown {
                let e = elapsed_between(t, now);
                assert(((cooldown - e) as nat) / 1_000_000_000 <= cooldown / 1_000_000_000)
                    by (nonlinear_arith)
                    requires
                        e <= cooldown,
                ;
            }
        },
        None => {},
    }
}

} // verus!
