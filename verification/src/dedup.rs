//! Alert deduplication: suppresses repeated alerts for the same
//! process/metric within a configurable time window.

use crate::debounce::fresh_entries;
use crate::keyed_map::{KeyedMap, MapKey};
use crate::time::{elapsed_between, elapsed_nanos, Clock, TimeSpan};
use vstd::prelude::*;

verus! {

/// Identifies an alert: the process and the metric it is about.
#[derive(Debug, Clone, PartialEq, Eq, Hash)]
pub struct DedupKey {
    pub pid: u32,
    pub metric: String,
}

impl DedupKey {
    /// The key for metric `metric` of process `pid`.
    pub fn new(pid: u32, metric: &str) -> (r: Self)
        ensures
            r.pid == pid,
            r.metric@ == metric@,
    {
        DedupKey { pid, metric: metric.to_owned() }
    }

    fn copy_key(&self) -> (r: Self)
        ensures
            r.key_view() == self.key_view(),
    {
        DedupKey { pid: self.pid, metric: self.metric.clone() }
    }
}

impl MapKey for DedupKey {
    type KeyView = (u32, Seq<char>);

    open spec fn key_view(&self) -> (u32, Seq<char>) {
        (self.pid, self.metric@)
    }

    fn same_key(&self, other: &Self) -> (r: bool) {
        self.pid == other.pid && self.metric == other.metric
    }
}

/// Whether an alert last let through at `last` (if ever) is a duplicate at
/// `now`.
pub open spec fn is_repeat(last: Option<u128>, now: u128, window: nat) -> bool {
    match last {
        Some(t) => elapsed_between(t, now) < window,
        None => false,
    }
}

/// Remembers when each alert was last let through.
#[derive(Debug)]
pub struct DedupCache {
    window: TimeSpan,
    seen: KeyedMap<DedupKey, u128>,
    clock: Clock,
}

impl DedupCache {
    /// The remembered alerts form a finite map.
    pub proof fn lemma_finite(&self)
        requires
            self.wf(),
        ensures
            self.spec_seen().dom().finite(),
    {
        self.seen.lemma_entries();
    }

    /// When each alert was last let through (readings of the cache's clock).
    pub closed spec fn spec_seen(&self) -> Map<(u32, Seq<char>), u128> {
        self.seen@
    }

    /// The window, in nanoseconds.
    pub closed spec fn spec_window(&self) -> nat {
        self.window.spec_nanos()
    }

    pub closed spec fn wf(&self) -> bool {
        self.seen.wf()
    }

    /// The latest reading of the cache's clock that a call took.
    pub closed spec fn spec_clock(&self) -> u128 {
        self.clock.spec_last()
    }

    /// When the alert `key` was last let through, if it was.
    pub open spec fn last_of(&self, key: (u32, Seq<char>)) -> Option<u128> {
        if self.spec_seen().contains_key(key) {
            Some(self.spec_seen()[key])
        } else {
            None
        }
    }

    /// A cache with the given window and nothing seen.
    pub fn new(window: TimeSpan) -> (r: Self)
        ensures
            r.wf(),
            r.spec_window() == window.spec_nanos(),
            r.spec_seen() == Map::<(u32, Seq<char>), u128>::empty(),
    {
        DedupCache { window, seen: KeyedMap::new(), clock: Clock::start() }
    }

    /// Whether the alert `key` at clock reading `now` repeats one let through
    /// within the window; an alert that does not is remembered as let through
    /// at `now`.
    pub fn is_duplicate_at(&mut self, key: &DedupKey, now: u128) -> (r: bool)
        requires
            old(self).wf(),
        ensures
            final(self).wf(),
            r == is_repeat(old(self).last_of(key.key_view()), now, old(self).spec_window()),
            !r ==> final(self).spec_seen() == old(self).spec_seen().insert(key.key_view(), now),
            r ==> final(self).spec_seen() == old(self).spec_seen(),
            final(self).spec_window() == old(self).spec_window(),
            final(self).spec_clock() == old(self).spec_clock(),
    {
        match self.seen.lookup(key) {
            Some(last) => {
                if elapsed_nanos(*last, now) < self.window.as_nanos() {
                    return true;
                }
            },
            None => {},
        }
        self.seen.insert(key.copy_key(), now);
        false
    }

    /// Whether the alert `key` repeats one let through within the window, as
    /// of now. The cache reads its clock once, at the call; the reading is no
    /// earlier than any it took before, and the alert is judged by it.
    pub fn is_duplicate(&mut self, key: &DedupKey) -> (r: bool)
        requires
            old(self).wf(),
        ensures
            final(self).wf(),
            duplicate_outcome(*old(self), *final(self), key.key_view(), r),
            exists|now: u128|
                #![trigger is_repeat(old(self).last_of(key.key_view()), now, old(self).spec_window())]
                {
                    &&& r == is_repeat(old(self).last_of(key.key_view()), now, old(self).spec_window())
                    &&& !r ==> final(self).spec_seen() == old(self).spec_seen().insert(
                        key.key_view(),
                        now,
                    )
                },
            r ==> final(self).spec_seen() == old(self).spec_seen(),
            final(self).spec_window() == old(self).spec_window(),
            final(self).spec_clock() >= old(self).spec_clock(),
            old(self).last_of(key.key_view()) is None ==> !r,
            old(self).last_of(key.key_view()) matches Some(t) && final(self).spec_clock() >= t
                + old(self).spec_window() ==> !r,
            old(self).last_of(key.key_view()) matches Some(t) && t <= final(self).spec_clock()
                && final(self).spec_clock() < t + old(self).spec_window() ==> r,
            !r ==> final(self).last_of(key.key_view()) == Some(final(self).spec_clock()),
    {
        let now = self.clock.tick();
        let r = self.is_duplicate_at(key, now);
        proof {
            assert(r == is_repeat(old(self).last_of(key.key_view()), now, old(self).spec_window()));
        }
        r
    }

    /// Forgets every alert last let through outside the window at clock
    /// reading `now`.
    pub fn evict_expired_at(&mut self, now: u128)
        requires
            old(self).wf(),
        ensures
            final(self).wf(),
            final(self).spec_seen() == fresh_entries(old(self).spec_seen(), now, old(self).spec_window()),
            final(self).spec_window() == old(self).spec_window(),
            final(self).spec_clock() == old(self).spec_clock(),
    {
        let window = self.window.as_nanos();
        let ghost orig = self.seen@;
        let mut i: usize = 0;
        proof {
            self.seen.lemma_entries();
        }
        while i < self.seen.len()
            invariant
                self.seen.wf(),
                window == self.window.spec_nanos(),
                self.window == old(self).window,
                self.clock == old(self).clock,
                i <= self.seen.keys().len(),
                forall|k: (u32, Seq<char>)| #[trigger]
                    self.seen@.contains_key(k) ==> orig.contains_key(k) && self.seen@[k] == orig[k],
                forall|j: int|
                    0 <= j < i ==> elapsed_between(#[trigger] self.seen.vals()[j], now) < window,
                forall|k: (u32, Seq<char>)|
                    orig.contains_key(k) && elapsed_between(orig[k], now) < window
                        ==> #[trigger] self.seen@.contains_key(k),
            decreases self.seen.keys().len() - i,
        {
            proof {
                self.seen.lemma_entries();
            }
            let t = *self.seen.value_at(i);
            if elapsed_nanos(t, now) < window {
                i = i + 1;
            } else {
                let ghost before = self.seen@;
                let ghost kv = self.seen.keys()[i as int];
                let _ = self.seen.remove_at(i);
                proof {
                    assert(before[kv] == t);
                    self.seen.lemma_entries();
                }
            }
        }
        proof {
            self.seen.lemma_entries();
            let target = fresh_entries(orig, now, window as nat);
            assert forall|k: (u32, Seq<char>)| #[trigger] self.seen@.contains_key(k) implies target.contains_key(k) by {
                let j = self.seen.keys().index_of(k);
                assert(self.seen.keys().contains(k));
                assert(self.seen.keys()[j] == k);
                assert(elapsed_between(self.seen.vals()[j], now) < window);
            }
            assert(self.seen@ =~= target);
        }
    }

    /// Forgets every alert last let through outside the window now.
    pub fn evict_expired(&mut self)
        requires
            old(self).wf(),
        ensures
            final(self).wf(),
            exists|now: u128| final(self).spec_seen() == fresh_entries(old(self).spec_seen(), now, old(self).spec_window()),
            final(self).spec_window() == old(self).spec_window(),
            final(self).spec_clock() >= old(self).spec_clock(),
            final(self).spec_seen() == fresh_entries(old(self).spec_seen(), final(self).spec_clock(), old(self).spec_window()),
    {
        let now = self.clock.tick();
        self.evict_expired_at(now);
        proof {
            assert(self.spec_seen() == fresh_entries(old(self).spec_seen(), now, old(self).spec_window()));
        }
    }

    /// The number of alerts remembered.
    pub fn len(&self) -> (r: usize)
        requires
            self.wf(),
        ensures
            r == self.spec_seen().len(),
    {
        self.seen.len()
    }

    /// Whether no alert is remembered.
    pub fn is_empty(&self) -> (r: bool)
        requires
            self.wf(),
        ensures
            r == (self.spec_seen().len() == 0),
    {
        self.seen.is_empty()
    }
}

/// What [`DedupCache::is_duplicate`] does, from `before` to `after`,
/// answering `r` for the alert `key`: it takes a reading of the clock no
/// earlier than the ones before, judges the alert by it, and remembers it
/// when the alert is let through.
pub open spec fn duplicate_outcome(before: DedupCache, after: DedupCache, key: (u32, Seq<char>), r: bool) -> bool {
    let now = after.spec_clock();
    &&& now >= before.spec_clock()
    &&& after.spec_window() == before.spec_window()
    &&& r == is_repeat(before.last_of(key), now, before.spec_window())
    &&& after.spec_seen() == (if r {
        before.spec_seen()
    } else {
        before.spec_seen().insert(key, now)
    })
}

/// An alert never let through is no duplicate; one last let through at `t`
/// is a duplicate while the reading the call takes lies less than a window
/// after `t`, and is let through again once that reading is a whole window or
/// more after `t`; an alert let through is remembered at that reading, and a
/// duplicate leaves the cache's record as it was.
pub proof fn lemma_duplicate_within_window(before: DedupCache, after: DedupCache, key: (u32, Seq<char>), r: bool)
    requires
        duplicate_outcome(before, after, key, r),
    ensures
        before.last_of(key) is None ==> !r,
        before.last_of(key) matches Some(t) && after.spec_clock() >= t + before.spec_window() ==> !r,
        before.last_of(key) matches Some(t) && t <= after.spec_clock() && after.spec_clock() < t
            + before.spec_window() ==> r,
        !r ==> after.last_of(key) == Some(after.spec_clock()),
        r ==> after.spec_seen() == before.spec_seen(),
        after.spec_clock() >= before.spec_clock(),
{
}

/// The first alert for a key is never a duplicate; repeating it within the
/// window is (for a window of at least one nanosecond); repeating it once the
/// window has passed is not.
pub proof fn lemma_repeat_within_window(t: u128, now: u128, window: nat)
    requires
        now >= t,
    ensures
        !is_repeat(None, now, window),
        is_repeat(Some(t), now, window) <==> now - t < window,
        window > 0 ==> is_repeat(Some(t), t, window),
{
}

} // verus!
