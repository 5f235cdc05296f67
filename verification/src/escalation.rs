//! Counts how often an alert fires for a key within a time window and turns
//! the count into an escalation level.

use crate::keyed_map::KeyedMap;
use crate::time::{Clock, TimeSpan};
use vstd::prelude::*;

verus! {

/// How urgent an alert has become.
#[derive(Debug, Clone, Copy, PartialEq, Eq, Structural)]
pub enum EscalationLevel {
    Normal,
    Warning,
    Critical,
}

#[derive(Debug, Clone, Copy)]
struct EscalationEntry {
    count: u32,
    window_start: u128,
}

/// Whether the window that started at `start` is over at `now`.
pub open spec fn window_expired(start: u128, now: u128, window: nat) -> bool {
    now > start && now - start > window
}

/// The (count, window start) of a key after an alert fires at `now`: a new
/// key, or one whose window is over, starts a window at `now` with count 1;
/// otherwise the count goes up by one.
pub open spec fn after_fire(entry: Option<(u32, u128)>, now: u128, window: nat) -> (u32, u128) {
    match entry {
        Some((count, start)) => if window_expired(start, now, window) {
            (1, now)
        } else {
            ((count + 1) as u32, start)
        },
        None => (1, now),
    }
}

/// The level that a count reaches.
pub open spec fn level_for(count: nat, warn: nat, critical: nat) -> EscalationLevel {
    if count >= critical {
        EscalationLevel::Critical
    } else if count >= warn {
        EscalationLevel::Warning
    } else {
        EscalationLevel::Normal
    }
}

/// Whether firing at `now` may go ahead without the count overflowing.
pub open spec fn fire_fits(entry: Option<(u32, u128)>, now: u128, window: nat) -> bool {
    match entry {
        Some((count, start)) => window_expired(start, now, window) || count < u32::MAX,
        None => true,
    }
}

/// The entry of a key after alerts fire at each of `times`, in order.
pub open spec fn after_fires(entry: Option<(u32, u128)>, times: Seq<u128>, window: nat) -> Option<
    (u32, u128),
>
    decreases times.len(),
{
    if times.len() == 0 {
        entry
    } else {
        Some(after_fire(after_fires(entry, times.drop_last(), window), times.last(), window))
    }
}

/// Tracks, per key, how many times an alert fired in its current window.
#[derive(Debug)]
pub struct EscalationTracker {
    counts: KeyedMap<String, EscalationEntry>,
    warn_threshold: u32,
    critical_threshold: u32,
    window: TimeSpan,
    clock: Clock,
}

impl EscalationTracker {
    /// The tracked keys form a finite map.
    pub proof fn lemma_finite(&self)
        requires
            self.wf(),
        ensures
            self.spec_entries().dom().finite(),
    {
        self.counts.lemma_entries();
        assert(self.spec_entries().dom() =~= self.counts@.dom());
    }

    /// The (count, window start) of every tracked key; window starts are
    /// readings of the tracker's own clock.
    pub closed spec fn spec_entries(&self) -> Map<Seq<char>, (u32, u128)> {
        self.counts@.map_values(|e: EscalationEntry| (e.count, e.window_start))
    }

    pub closed spec fn spec_warn(&self) -> nat {
        self.warn_threshold as nat
    }

    pub closed spec fn spec_critical(&self) -> nat {
        self.critical_threshold as nat
    }

    pub closed spec fn spec_window(&self) -> nat {
        self.window.spec_nanos()
    }

    pub closed spec fn wf(&self) -> bool {
        self.counts.wf()
    }

    /// The latest reading of the tracker's clock that a call took.
    pub closed spec fn spec_clock(&self) -> u128 {
        self.clock.spec_last()
    }

    /// The entry of `key`, if tracked.
    pub open spec fn entry_of(&self, key: Seq<char>) -> Option<(u32, u128)> {
        if self.spec_entries().contains_key(key) {
            Some(self.spec_entries()[key])
        } else {
            None
        }
    }

    /// A tracker with nothing recorded.
    pub fn new(warn_threshold: u32, critical_threshold: u32, window: TimeSpan) -> (r: Self)
        ensures
            r.wf(),
            r.spec_entries() == Map::<Seq<char>, (u32, u128)>::empty(),
            r.spec_warn() == warn_threshold,
            r.spec_critical() == critical_threshold,
            r.spec_window() == window.spec_nanos(),
    {
        let r = EscalationTracker {
            counts: KeyedMap::new(),
            warn_threshold,
            critical_threshold,
            window,
            clock: Clock::start(),
        };
        proof {
            assert(r.spec_entries() =~= Map::<Seq<char>, (u32, u128)>::empty());
        }
        r
    }

    /// Records that the alert for `key` fired at clock reading `now` and
    /// returns the level its count has reached.
    pub fn record_at(&mut self, key: &str, now: u128) -> (r: EscalationLevel)
        requires
            old(self).wf(),
            fire_fits(old(self).entry_of(key@), now, old(self).spec_window()),
        ensures
            final(self).wf(),
            final(self).spec_entries() == old(self).spec_entries().insert(
                key@,
                after_fire(old(self).entry_of(key@), now, old(self).spec_window()),
            ),
            r == level_for(
                after_fire(old(self).entry_of(key@), now, old(self).spec_window()).0 as nat,
                old(self).spec_warn(),
                old(self).spec_critical(),
            ),
            final(self).spec_warn() == old(self).spec_warn(),
            final(self).spec_critical() == old(self).spec_critical(),
            final(self).spec_window() == old(self).spec_window(),
            final(self).spec_clock() == old(self).spec_clock(),
    {
        let k = key.to_owned();
        let window = self.window.as_nanos();
        let entry = match self.counts.get(key) {
            Some(e) => {
                if now > e.window_start && now - e.window_start > window {
                    EscalationEntry { count: 1, window_start: now }
                } else {
                    EscalationEntry { count: e.count + 1, window_start: e.window_start }
                }
            },
            None => EscalationEntry { count: 1, window_start: now },
        };
        let count = entry.count;
        self.counts.insert(k, entry);
        proof {
            assert(self.spec_entries() =~= old(self).spec_entries().insert(
                key@,
                after_fire(old(self).entry_of(key@), now, old(self).spec_window()),
            ));
        }
        if count >= self.critical_threshold {
            EscalationLevel::Critical
        } else if count >= self.warn_threshold {
            EscalationLevel::Warning
        } else {
            EscalationLevel::Normal
        }
    }

    /// Records that the alert for `key` fired now, at a reading of the
    /// tracker's clock no earlier than any a call took before, and returns the
    /// level its count has reached.
    pub fn record(&mut self, key: &str) -> (r: EscalationLevel)
        requires
            old(self).wf(),
            old(self).spec_entries().contains_key(key@) ==> old(self).spec_entries()[key@].0
                < u32::MAX,
        ensures
            final(self).wf(),
            exists|now: u128|
                {
                    &&& final(self).spec_entries() == old(self).spec_entries().insert(
                        key@,
                        after_fire(old(self).entry_of(key@), now, old(self).spec_window()),
                    )
                    &&& r == level_for(
                        after_fire(old(self).entry_of(key@), now, old(self).spec_window()).0 as nat,
                        old(self).spec_warn(),
                        old(self).spec_critical(),
                    )
                },
            final(self).spec_warn() == old(self).spec_warn(),
            final(self).spec_critical() == old(self).spec_critical(),
            final(self).spec_window() == old(self).spec_window(),
            final(self).spec_clock() >= old(self).spec_clock(),
            final(self).spec_entries() == old(self).spec_entries().insert(
                key@,
                after_fire(old(self).entry_of(key@), final(self).spec_clock(), old(self).spec_window()),
            ),
            r == level_for(
                after_fire(old(self).entry_of(key@), final(self).spec_clock(), old(self).spec_window()).0 as nat,
                old(self).spec_warn(),
                old(self).spec_critical(),
            ),
    {
        let now = self.clock.tick();
        self.record_at(key, now)
    }

    /// Forgets `key` (for instance when its alert resolves).
    pub fn reset(&mut self, key: &str)
        requires
            old(self).wf(),
        ensures
            final(self).wf(),
            final(self).spec_entries() == old(self).spec_entries().remove(key@),
            final(self).spec_warn() == old(self).spec_warn(),
            final(self).spec_critical() == old(self).spec_critical(),
            final(self).spec_window() == old(self).spec_window(),
    {
        let _ = self.counts.remove(key);
        proof {
            assert(self.spec_entries() =~= old(self).spec_entries().remove(key@));
        }
    }

    /// How many times the alert for `key` fired in its current window (0 if
    /// the key is not tracked).
    pub fn count(&self, key: &str) -> (r: u32)
        requires
            self.wf(),
        ensures
            r == match self.entry_of(key@) {
                Some(e) => e.0,
                None => 0,
            },
    {
        match self.counts.get(key) {
            Some(e) => e.count,
            None => 0,
        }
    }
}

/// Alerts that keep firing within one window, counted from a fresh key, are
/// counted one by one: after `n` fires the count is `n`.
pub proof fn lemma_fires_within_window_count(times: Seq<u128>, window: nat)
    requires
        times.len() >= 1,
        times.len() < u32::MAX,
        forall|i: int| 0 <= i < times.len() ==> !window_expired(times[0], #[trigger] times[i], window),
    ensures
        after_fires(None, times, window) == Some(((times.len()) as u32, times[0])),
    decreases times.len(),
{
    if times.len() > 1 {
        let prefix = times.drop_last();
        assert forall|i: int| 0 <= i < prefix.len() implies !window_expired(
            prefix[0],
            #[trigger] prefix[i],
            window,
        ) by {
            assert(prefix[i] == times[i]);
        }
        lemma_fires_within_window_count(prefix, window);
        assert(!window_expired(times[0], times[times.len() - 1], window));
        assert(prefix[0] == times[0]);
        assert(after_fires(None, times, window) == Some(
            after_fire(after_fires(None, prefix, window), times.last(), window),
        ));
    } else {
        assert(times.drop_last().len() == 0);
        assert(after_fires(None, times.drop_last(), window) == None::<(u32, u128)>);
        assert(after_fires(None, times, window) == Some(
            after_fire(None, times.last(), window),
        ));
    }
}

/// Levels never fall as the count rises.
pub proof fn lemma_level_monotone(c1: nat, c2: nat, warn: nat, critical: nat)
    requires
        c1 <= c2,
    ensures
        level_for(c1, warn, critical) == EscalationLevel::Critical ==> level_for(c2, warn, critical)
            == EscalationLevel::Critical,
        level_for(c1, warn, critical) == EscalationLevel::Warning ==> level_for(c2, warn, critical)
            != EscalationLevel::Normal,
{
}

} // verus!
