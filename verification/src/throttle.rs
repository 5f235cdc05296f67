//! Per-key rate limiting: a key gets through at most once per window.

use crate::keyed_map::KeyedMap;
use crate::time::{elapsed_between, elapsed_nanos, Clock, TimeSpan};
use vstd::prelude::*;

verus! {

/// Whether a key last let through at `last` (if ever) may pass at `now`.
pub open spec fn throttle_allows(last: Option<u128>, now: u128, window: nat) -> bool {
    match last {
        Some(t) => elapsed_between(t, now) >= window,
        None => true,
    }
}

/// Lets each key through at most once per window.
#[derive(Debug)]
pub struct Throttle {
    window: TimeSpan,
    last_allowed: KeyedMap<String, u128>,
    clock: Clock,
}

impl Throttle {
    /// The keys let through form a finite map.
    pub proof fn lemma_finite(&self)
        requires
            self.wf(),
        ensures
            self.spec_last().dom().finite(),
    {
        self.last_allowed.lemma_entries();
    }

    /// When each key was last let through (readings of the throttle's clock).
    pub closed spec fn spec_last(&self) -> Map<Seq<char>, u128> {
        self.last_allowed@
    }

    /// The window, in nanoseconds.
    pub closed spec fn spec_window(&self) -> nat {
        self.window.spec_nanos()
    }

    pub closed spec fn wf(&self) -> bool {
        self.last_allowed.wf()
    }

    /// The latest reading of the throttle's clock that a call took.
    pub closed spec fn spec_clock(&self) -> u128 {
        self.clock.spec_last()
    }

    /// When `key` was last let through, if ever.
    pub open spec fn last_of(&self, key: Seq<char>) -> Option<u128> {
        if self.spec_last().contains_key(key) {
            Some(self.spec_last()[key])
        } else {
            None
        }
    }

    /// A throttle with the given window that has let nothing through yet.
    pub fn new(window: TimeSpan) -> (r: Self)
        ensures
            r.wf(),
            r.spec_window() == window.spec_nanos(),
            r.spec_last() == Map::<Seq<char>, u128>::empty(),
    {
        Throttle { window, last_allowed: KeyedMap::new(), clock: Clock::start() }
    }

    /// Whether `key` may pass at clock reading `now`; when it may, `now` is
    /// recorded as the moment it passed.
    pub fn allow_at(&mut self, key: &str, now: u128) -> (r: bool)
        requires
            old(self).wf(),
        ensures
            final(self).wf(),
            r == throttle_allows(old(self).last_of(key@), now, old(self).spec_window()),
            final(self).spec_last() == (if r {
                old(self).spec_last().insert(key@, now)
            } else {
                old(self).spec_last()
            }),
            final(self).spec_window() == old(self).spec_window(),
            final(self).spec_clock() == old(self).spec_clock(),
    {
        let pass = match self.last_allowed.get(key) {
            Some(last) => elapsed_nanos(*last, now) >= self.window.as_nanos(),
            None => true,
        };
        if pass {
            self.last_allowed.insert(key.to_owned(), now);
        }
        pass
    }

    /// Whether `key` may pass now; when it may, the moment is recorded. The
    /// throttle reads its clock once, at the call; the reading is no earlier
    /// than any it took before, and the key is judged by it.
    pub fn allow(&mut self, key: &str) -> (r: bool)
        requires
            old(self).wf(),
        ensures
            final(self).wf(),
            allow_outcome(*old(self), *final(self), key@, r),
            exists|now: u128|
                #![trigger throttle_allows(old(self).last_of(key@), now, old(self).spec_window())]
                r == throttle_allows(old(self).last_of(key@), now, old(self).spec_window())
                    && final(self).spec_last() == (if r {
                    old(self).spec_last().insert(key@, now)
                } else {
                    old(self).spec_last()
                }),
            final(self).spec_window() == old(self).spec_window(),
            final(self).spec_clock() >= old(self).spec_clock(),
            old(self).last_of(key@) is None ==> r,
            old(self).last_of(key@) matches Some(t) && final(self).spec_clock() >= t + old(self).spec_window() ==> r,
            old(self).last_of(key@) matches Some(t) && t <= final(self).spec_clock() && final(self).spec_clock()
                < t + old(self).spec_window() ==> !r,
            r ==> final(self).last_of(key@) == Some(final(self).spec_clock()),
    {
        let now = self.clock.tick();
        let r = self.allow_at(key, now);
        proof {
            assert(r == throttle_allows(old(self).last_of(key@), now, old(self).spec_window()));
        }
        r
    }

    /// A reading of the throttle's clock, in nanoseconds since it started; it
    /// is no earlier than the latest reading a call took.
    pub fn now(&self) -> (r: u128)
        ensures
            r >= self.spec_clock(),
    {
        self.clock.now()
    }
}

/// What [`Throttle::allow`] does, from `before` to `after`, answering `r`
/// for `key`: it takes a reading of the clock no earlier than the ones before,
/// judges the key by it, and records it when the key passes.
pub open spec fn allow_outcome(before: Throttle, after: Throttle, key: Seq<char>, r: bool) -> bool {
    let now = after.spec_clock();
    &&& now >= before.spec_clock()
    &&& after.spec_window() == before.spec_window()
    &&& r == throttle_allows(before.last_of(key), now, before.spec_window())
    &&& after.spec_last() == (if r {
        before.spec_last().insert(key, now)
    } else {
        before.spec_last()
    })
}

/// A key never let through passes; a key that last passed at `t` passes again
/// once the reading the call takes is a whole window or more after `t`, and is
/// refused while that reading lies less than a window after `t`; a key that
/// passes is remembered at that reading, and a refused key leaves the
/// throttle's record as it was.
pub proof fn lemma_allow_once_per_window(before: Throttle, after: Throttle, key: Seq<char>, r: bool)
    requires
        allow_outcome(before, after, key, r),
    ensures
        before.last_of(key) is None ==> r,
        before.last_of(key) matches Some(t) && after.spec_clock() >= t + before.spec_window() ==> r,
        before.last_of(key) matches Some(t) && t <= after.spec_clock() && after.spec_clock() < t
            + before.spec_window() ==> !r,
        r ==> after.last_of(key) == Some(after.spec_clock()),
        !r ==> after.spec_last() == before.spec_last(),
        after.spec_clock() >= before.spec_clock(),
{
}

/// A key that just passed at `t` is refused at every later reading of the same
/// clock that lies less than a window after `t`, and passes again once a whole
/// window has gone by.
pub proof fn lemma_once_per_window(t: u128, now: u128, window: nat)
    requires
        t <= now,
    ensures
        now - t < window ==> !throttle_allows(Some(t), now, window),
        now - t >= window ==> throttle_allows(Some(t), now, window),
{
}

} // verus!
