//! Suppresses repeated events within a quiet period: an event is forwarded
//! only if the same key has not been forwarded within the debounce window.

use crate::keyed_map::KeyedMap;
use crate::time::{elapsed_between, elapsed_nanos, Clock, TimeSpan};
use vstd::prelude::*;

verus! {

/// Whether an event last forwarded at `last` (if ever) is forwarded again at
/// `now`.
pub open spec fn debounce_fires(last: Option<u128>, now: u128, window: nat) -> bool {
    match last {
        Some(t) => elapsed_between(t, now) >= window,
        None => true,
    }
}

/// The entries of `m` that are still within the window at `now`.
pub open spec fn fresh_entries<K>(m: Map<K, u128>, now: u128, window: nat) -> Map<K, u128> {
    Map::new(|k: K| m.contains_key(k) && elapsed_between(m[k], now) < window, |k: K| m[k])
}

/// Tracks when each key was last forwarded.
#[derive(Debug)]
pub struct Debouncer {
    window: TimeSpan,
    last_seen: KeyedMap<String, u128>,
    clock: Clock,
}

impl Debouncer {
    /// The forwarded keys form a finite map.
    pub proof fn lemma_finite(&self)
        requires
            self.wf(),
        ensures
            self.spec_last().dom().finite(),
    {
        self.last_seen.lemma_entries();
    }

    /// When each tracked key was last forwarded (readings of the debouncer's clock).
    pub closed spec fn spec_last(&self) -> Map<Seq<char>, u128> {
        self.last_seen@
    }

    /// The window, in nanoseconds.
    pub closed spec fn spec_window(&self) -> nat {
        self.window.spec_nanos()
    }

    pub closed spec fn wf(&self) -> bool {
        self.last_seen.wf()
    }

    /// The latest reading of the debouncer's clock that a call took.
    pub closed spec fn spec_clock(&self) -> u128 {
        self.clock.spec_last()
    }

    /// When `key` was last forwarded, if it was.
    pub open spec fn last_of(&self, key: Seq<char>) -> Option<u128> {
        if self.spec_last().contains_key(key) {
            Some(self.spec_last()[key])
        } else {
            None
        }
    }

    /// A debouncer with the given window and no keys tracked.
    pub fn new(window: TimeSpan) -> (r: Self)
        ensures
            r.wf(),
            r.spec_window() == window.spec_nanos(),
            r.spec_last() == Map::<Seq<char>, u128>::empty(),
    {
        Debouncer { window, last_seen: KeyedMap::new(), clock: Clock::start() }
    }

    /// Decides whether the event `key` at clock reading `now` is forwarded; a
    /// forwarded event becomes the key's last one.
    pub fn should_fire_at(&mut self, key: &str, now: u128) -> (r: bool)
        requires
            old(self).wf(),
        ensures
            final(self).wf(),
            r == debounce_fires(old(self).last_of(key@), now, old(self).spec_window()),
            r ==> final(self).spec_last() == old(self).spec_last().insert(key@, now),
            !r ==> final(self).spec_last() == old(self).spec_last(),
            final(self).spec_window() == old(self).spec_window(),
            final(self).spec_clock() == old(self).spec_clock(),
    {
        let k = key.to_owned();
        match self.last_seen.get(key) {
            Some(last) => {
                if elapsed_nanos(*last, now) < self.window.as_nanos() {
                    return false;
                }
            },
            None => {},
        }
        self.last_seen.insert(k, now);
        true
    }

    /// Decides whether the event `key` is forwarded now, by one reading of
    /// the debouncer's clock taken at the call, no earlier than any taken
    /// before.
    pub fn should_fire(&mut self, key: &str) -> (r: bool)
        requires
            old(self).wf(),
        ensures
            final(self).wf(),
            exists|now: u128|
                #![trigger debounce_fires(old(self).last_of(key@), now, old(self).spec_window())]
                {
                    &&& r == debounce_fires(old(self).last_of(key@), now, old(self).spec_window())
                    &&& r ==> final(self).spec_last() == old(self).spec_last().insert(key@, now)
                },
            !r ==> final(self).spec_last() == old(self).spec_last(),
            final(self).spec_window() == old(self).spec_window(),
            final(self).spec_clock() >= old(self).spec_clock(),
            r == debounce_fires(old(self).last_of(key@), final(self).spec_clock(), old(self).spec_window()),
            r ==> final(self).spec_last() == old(self).spec_last().insert(key@, final(self).spec_clock()),
            old(self).last_of(key@) is None ==> r,
            old(self).last_of(key@) matches Some(t) && final(self).spec_clock() >= t + old(self).spec_window() ==> r,
            old(self).last_of(key@) matches Some(t) && t <= final(self).spec_clock() && final(self).spec_clock()
                < t + old(self).spec_window() ==> !r,
    {
        let now = self.clock.tick();
        let r = self.should_fire_at(key, now);
        proof {
            assert(r == debounce_fires(old(self).last_of(key@), now, old(self).spec_window()));
        }
        r
    }

    /// Forgets `key`, so that its next event is forwarded.
    pub fn reset(&mut self, key: &str)
        requires
            old(self).wf(),
        ensures
            final(self).wf(),
            final(self).spec_last() == old(self).spec_last().remove(key@),
            final(self).spec_window() == old(self).spec_window(),
    {
        let _ = self.last_seen.remove(key);
    }

    /// Forgets every key whose last event is outside the window at clock
    /// reading `now`.
    pub fn evict_expired_at(&mut self, now: u128)
        requires
            old(self).wf(),
        ensures
            final(self).wf(),
            final(self).spec_last() == fresh_entries(old(self).spec_last(), now, old(self).spec_window()),
            final(self).spec_window() == old(self).spec_window(),
            final(self).spec_clock() == old(self).spec_clock(),
    {
        let window = self.window.as_nanos();
        let ghost orig = self.last_seen@;
        let mut i: usize = 0;
        proof {
            self.last_seen.lemma_entries();
        }
        while i < self.last_seen.len()
            invariant
                self.last_seen.wf(),
                window == self.window.spec_nanos(),
                self.window == old(self).window,
                self.clock == old(self).clock,
                i <= self.last_seen.keys().len(),
                forall|k: Seq<char>| #[trigger]
                    self.last_seen@.contains_key(k) ==> orig.contains_key(k) && self.last_seen@[k]
                        == orig[k],
                forall|j: int|
                    0 <= j < i ==> elapsed_between(#[trigger] self.last_seen.vals()[j], now) < window,
                forall|k: Seq<char>|
                    orig.contains_key(k) && elapsed_between(orig[k], now) < window
                        ==> #[trigger] self.last_seen@.contains_key(k),
            decreases self.last_seen.keys().len() - i,
        {
            proof {
                self.last_seen.lemma_entries();
            }
            let t = *self.last_seen.value_at(i);
            if elapsed_nanos(t, now) < window {
                i = i + 1;
            } else {
                let ghost before = self.last_seen@;
                let ghost kv = self.last_seen.keys()[i as int];
                let _ = self.last_seen.remove_at(i);
                proof {
                    assert(before[kv] == t);
                    self.last_seen.lemma_entries();
                }
            }
        }
        proof {
            self.last_seen.lemma_entries();
            let target = fresh_entries(orig, now, window as nat);
            assert forall|k: Seq<char>| #[trigger] self.last_seen@.contains_key(k) implies target.contains_key(k) by {
                let j = self.last_seen.keys().index_of(k);
                assert(self.last_seen.keys().contains(k));
                assert(self.last_seen.keys()[j] == k);
                assert(elapsed_between(self.last_seen.vals()[j], now) < window);
            }
            assert(self.last_seen@ =~= target);
        }
    }

    /// Forgets every key whose last event is outside the window now.
    pub fn evict_expired(&mut self)
        requires
            old(self).wf(),
        ensures
            final(self).wf(),
            exists|now: u128| final(self).spec_last() == fresh_entries(old(self).spec_last(), now, old(self).spec_window()),
            final(self).spec_window() == old(self).spec_window(),
            final(self).spec_clock() >= old(self).spec_clock(),
            final(self).spec_last() == fresh_entries(old(self).spec_last(), final(self).spec_clock(), old(self).spec_window()),
    {
        let now = self.clock.tick();
        self.evict_expired_at(now);
        proof {
            assert(self.spec_last() == fresh_entries(old(self).spec_last(), now, old(self).spec_window()));
        }
    }

    /// The number of keys tracked.
    pub fn len(&self) -> (r: usize)
        requires
            self.wf(),
        ensures
            r == self.spec_last().len(),
    {
        self.last_seen.len()
    }

    /// Whether no key is tracked.
    pub fn is_empty(&self) -> (r: bool)
        requires
            self.wf(),
        ensures
            r == (self.spec_last().len() == 0),
    {
        self.last_seen.is_empty()
    }
}

/// A key that was just forwarded is suppressed until the window has passed
/// (for a window of at least one nanosecond), and forwarded again after that.
pub proof fn lemma_forwarded_then_quiet(t: u128, now: u128, window: nat)
    requires
        now >= t,
    ensures
        debounce_fires(Some(t), now, window) <==> now - t >= window,
        window > 0 ==> !debounce_fires(Some(t), t, window),
{
}

/// A key that was never seen, or was reset, is always forwarded.
pub proof fn lemma_unknown_key_fires(now: u128, window: nat)
    ensures
        debounce_fires(None, now, window),
{
}

/// After eviction every remaining key is within the window, so eviction
/// right after eviction changes nothing.
pub proof fn lemma_evict_idempotent(m: Map<Seq<char>, u128>, now: u128, window: nat)
    ensures
        fresh_entries(fresh_entries(m, now, window), now, window) == fresh_entries(m, now, window),
{
    assert(fresh_entries(fresh_entries(m, now, window), now, window) =~= fresh_entries(m, now, window));
}

} // verus!
