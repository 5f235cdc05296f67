//! Records checkpoints per process and judges them against a time-to-live.

use crate::checkpoint::{aged_out, Checkpoint, CheckpointStore};
use crate::keyed_map::KeyedMap;
use crate::time::{elapsed_between, elapsed_nanos, Clock, TimeSpan};
use vstd::prelude::*;

verus! {

/// Default time-to-live of a checkpoint, in seconds.
pub const DEFAULT_TTL_SECS: u64 = 300;

/// A checkpoint store with a time-to-live.
#[derive(Debug)]
pub struct CheckpointManager {
    store: CheckpointStore,
    ttl: TimeSpan,
    recorded: KeyedMap<(u32, String), u128>,
    clock: Clock,
}

impl CheckpointManager {
    /// The stored checkpoints form a finite map.
    pub proof fn lemma_finite(&self)
        requires
            self.wf(),
        ensures
            self.spec_entries().dom().finite(),
    {
        self.store.lemma_finite();
    }

    /// The checkpoints, by (process id, name).
    pub closed spec fn spec_entries(&self) -> Map<(u32, Seq<char>), Checkpoint> {
        self.store.spec_entries()
    }

    /// The time-to-live, in nanoseconds.
    pub closed spec fn spec_ttl(&self) -> nat {
        self.ttl.spec_nanos()
    }

    /// When each checkpoint was recorded: readings of the manager's clock.
    pub closed spec fn spec_recorded(&self) -> Map<(u32, Seq<char>), u128> {
        self.recorded@
    }

    /// The latest reading of the manager's clock that a call took.
    pub closed spec fn spec_clock(&self) -> u128 {
        self.clock.spec_last()
    }

    /// Every stored checkpoint has the reading it was recorded at, no later
    /// than the latest reading of the clock.
    pub closed spec fn wf(&self) -> bool {
        &&& self.store.wf()
        &&& self.recorded.wf()
        &&& forall|k: (u32, Seq<char>)| #[trigger]
            self.store.spec_entries().contains_key(k) ==> self.recorded@.contains_key(k) && self.recorded@[k]
                <= self.clock.spec_last()
    }

    /// An empty manager whose checkpoints live `DEFAULT_TTL_SECS` seconds.
    pub fn new() -> (r: Self)
        ensures
            r.wf(),
            r.spec_entries() == Map::<(u32, Seq<char>), Checkpoint>::empty(),
            r.spec_ttl() == DEFAULT_TTL_SECS * 1_000_000_000,
    {
        CheckpointManager {
            store: CheckpointStore::new(),
            ttl: TimeSpan::from_secs(DEFAULT_TTL_SECS),
            recorded: KeyedMap::new(),
            clock: Clock::start(),
        }
    }

    /// The same manager with time-to-live `ttl`.
    pub fn with_ttl(self, ttl: TimeSpan) -> (r: Self)
        ensures
            r.spec_entries() == self.spec_entries(),
            r.wf() == self.wf(),
            r.spec_ttl() == ttl.spec_nanos(),
            r.spec_recorded() == self.spec_recorded(),
            r.spec_clock() == self.spec_clock(),
    {
        CheckpointManager { ttl, ..self }
    }

    /// Records checkpoint `name` for process `pid` now, replacing an earlier
    /// one of the same name.
    pub fn record(&mut self, pid: u32, name: &str)
        requires
            old(self).wf(),
        ensures
            final(self).wf(),
            final(self).spec_ttl() == old(self).spec_ttl(),
            final(self).spec_entries().dom() == old(self).spec_entries().dom().insert((pid, name@)),
            final(self).spec_entries()[(pid, name@)].metadata@ == Map::<Seq<char>, String>::empty(),
            forall|k: (u32, Seq<char>)|
                k != (pid, name@) && #[trigger] old(self).spec_entries().contains_key(k)
                    ==> final(self).spec_entries()[k] == old(self).spec_entries()[k],
            final(self).spec_clock() >= old(self).spec_clock(),
            final(self).spec_recorded() == old(self).spec_recorded().insert((pid, name@), final(self).spec_clock()),
    {
        let cp = Checkpoint::new(name, pid);
        self.store.record(cp);
        self.stamp(pid, name);
    }

    /// Remembers the current reading of the clock as the moment checkpoint
    /// `name` of process `pid`, already stored, was recorded.
    fn stamp(&mut self, pid: u32, name: &str)
        requires
            old(self).store.wf(),
            old(self).recorded.wf(),
            old(self).store.spec_entries().contains_key((pid, name@)),
            forall|k: (u32, Seq<char>)| #[trigger]
                old(self).store.spec_entries().contains_key(k) && k != (pid, name@) ==> old(
                    self,
                ).recorded@.contains_key(k) && old(self).recorded@[k] <= old(self).clock.spec_last(),
        ensures
            final(self).wf(),
            final(self).store == old(self).store,
            final(self).ttl == old(self).ttl,
            final(self).spec_clock() >= old(self).spec_clock(),
            final(self).spec_recorded() == old(self).spec_recorded().insert((pid, name@), final(self).spec_clock()),
    {
        let now = self.clock.tick();
        self.recorded.insert((pid, name.to_owned()), now);
    }

    /// Records checkpoint `name` for process `pid` now, with `key` set to
    /// `value` in its metadata.
    pub fn record_with_meta(&mut self, pid: u32, name: &str, key: &str, value: &str)
        requires
            old(self).wf(),
        ensures
            final(self).wf(),
            final(self).spec_ttl() == old(self).spec_ttl(),
            final(self).spec_entries().dom() == old(self).spec_entries().dom().insert((pid, name@)),
            final(self).spec_entries()[(pid, name@)].metadata@.dom() == Set::<Seq<char>>::empty().insert(key@),
            final(self).spec_entries()[(pid, name@)].metadata@[key@]@ == value@,
            forall|k: (u32, Seq<char>)|
                k != (pid, name@) && #[trigger] old(self).spec_entries().contains_key(k)
                    ==> final(self).spec_entries()[k] == old(self).spec_entries()[k],
            final(self).spec_clock() >= old(self).spec_clock(),
            final(self).spec_recorded() == old(self).spec_recorded().insert((pid, name@), final(self).spec_clock()),
    {
        let cp = Checkpoint::new(name, pid).with_meta(key, value);
        proof {
            assert(cp.metadata@.dom() =~= Set::<Seq<char>>::empty().insert(key@));
        }
        self.store.record(cp);
        self.stamp(pid, name);
    }

    /// Whether checkpoint `name` of process `pid` is stored and its age `age`
    /// is within the time-to-live.
    pub fn has_valid_after(&self, pid: u32, name: &str, age: TimeSpan) -> (r: bool)
        requires
            self.wf(),
        ensures
            r == (self.spec_entries().contains_key((pid, name@)) && age.spec_nanos() <= self.spec_ttl()),
    {
        match self.store.get(pid, name) {
            Some(_) => age.as_nanos() <= self.ttl.as_nanos(),
            None => false,
        }
    }

    /// Whether checkpoint `name` of process `pid` is stored and not older
    /// than the time-to-live: what [`CheckpointManager::has_valid_after`]
    /// answers for its age, the time from the reading of the manager's clock
    /// at which it was recorded to a reading taken now, which is no earlier
    /// than any reading a call took before.
    pub fn has_valid(&self, pid: u32, name: &str) -> (r: bool)
        requires
            self.wf(),
        ensures
            valid_outcome(*self, (pid, name@), r),
            exists|age: TimeSpan|
                r == (self.spec_entries().contains_key((pid, name@)) && #[trigger] age.spec_nanos()
                    <= self.spec_ttl()),
            !self.spec_entries().contains_key((pid, name@)) ==> !r,
            self.spec_entries().contains_key((pid, name@)) && self.spec_clock() > self.spec_recorded()[(
                pid,
                name@,
            )] + self.spec_ttl() ==> !r,
    {
        match self.store.get(pid, name) {
            Some(_) => {
                let key = (pid, name.to_owned());
                let recorded: u128 = match self.recorded.lookup(&key) {
                    Some(q) => *q,
                    None => {
                        proof {
                            assert(false);
                        }
                        0
                    },
                };
                let now = self.clock.now();
                let age = TimeSpan::from_nanos_u128(elapsed_nanos(recorded, now));
                let r = self.has_valid_after(pid, name, age);
                proof {
                    assert(now >= self.spec_clock());
                    assert(r == (self.spec_entries().contains_key((pid, name@)) && elapsed_between(
                        self.spec_recorded()[(pid, name@)],
                        now,
                    ) <= self.spec_ttl()));
                    assert(valid_at(*self, (pid, name@), now, r));
                }
                r
            },
            None => {
                let r = self.has_valid_after(pid, name, TimeSpan::from_nanos(0));
                proof {
                    let now = self.spec_clock();
                    assert(!self.spec_entries().contains_key((pid, name@)));
                    assert(now >= self.spec_clock() && r == (self.spec_entries().contains_key((pid, name@)) && elapsed_between(
                        self.spec_recorded()[(pid, name@)],
                        now,
                    ) <= self.spec_ttl()));
                    assert(valid_at(*self, (pid, name@), now, r));
                }
                r
            },
        }
    }

    /// Removes checkpoint `name` of process `pid`.
    pub fn clear(&mut self, pid: u32, name: &str)
        requires
            old(self).wf(),
        ensures
            final(self).wf(),
            final(self).spec_ttl() == old(self).spec_ttl(),
            final(self).spec_entries() == old(self).spec_entries().remove((pid, name@)),
    {
        let _ = self.store.remove(pid, name);
    }

    /// The keys of the stored checkpoints, in the order they were first
    /// recorded.
    pub closed spec fn spec_keys(&self) -> Seq<(u32, Seq<char>)> {
        self.store.spec_keys()
    }

    /// The keys list each stored checkpoint exactly once.
    pub proof fn lemma_key_order(&self)
        requires
            self.wf(),
        ensures
            self.spec_keys().no_duplicates(),
            self.spec_keys().to_set() == self.spec_entries().dom(),
            self.spec_entries().dom().finite(),
            self.spec_keys().len() == self.spec_entries().len(),
            forall|k: (u32, Seq<char>)| #[trigger] self.spec_entries().contains_key(k) <==> self.spec_keys().contains(k),
    {
        self.store.lemma_key_order();
    }

    /// The age of each stored checkpoint, by the monotonic clock, in the
    /// order of [`CheckpointManager::spec_keys`].
    pub fn ages(&self) -> (r: Vec<TimeSpan>)
        requires
            self.wf(),
        ensures
            r@.len() == self.spec_keys().len(),
    {
        self.store.ages()
    }

    /// Removes every checkpoint whose age, given in `ages` in the order of
    /// [`CheckpointManager::spec_keys`], exceeds the time-to-live, and
    /// returns how many were removed.
    pub fn evict_aged(&mut self, ages: &[TimeSpan]) -> (r: usize)
        requires
            old(self).wf(),
            ages@.len() == old(self).spec_keys().len(),
        ensures
            final(self).wf(),
            final(self).spec_ttl() == old(self).spec_ttl(),
            final(self).spec_entries().submap_of(old(self).spec_entries()),
            aged_out(old(self).spec_keys(), ages@, old(self).spec_ttl(), final(self).spec_entries()),
            r == old(self).spec_entries().len() - final(self).spec_entries().len(),
    {
        let r = self.store.evict_aged(self.ttl, ages);
        proof {
            assert forall|k: (u32, Seq<char>)| #[trigger]
                self.store.spec_entries().contains_key(k) implies self.recorded@.contains_key(k)
                && self.recorded@[k] <= self.clock.spec_last() by {
                assert(old(self).store.spec_entries().contains_key(k));
            }
        }
        r
    }

    /// Removes every checkpoint older than the time-to-live, its age read
    /// from the monotonic clock, and returns how many were removed: what
    /// [`CheckpointManager::evict_aged`] does with the ages read.
    pub fn evict_expired(&mut self) -> (r: usize)
        requires
            old(self).wf(),
        ensures
            final(self).wf(),
            final(self).spec_ttl() == old(self).spec_ttl(),
            final(self).spec_entries().submap_of(old(self).spec_entries()),
            exists|ages: Seq<TimeSpan>|
                #![trigger aged_out(old(self).spec_keys(), ages, old(self).spec_ttl(), final(self).spec_entries())]
                ages.len() == old(self).spec_keys().len() && aged_out(
                    old(self).spec_keys(),
                    ages,
                    old(self).spec_ttl(),
                    final(self).spec_entries(),
                ),
            r == old(self).spec_entries().len() - final(self).spec_entries().len(),
    {
        let ages = self.store.ages();
        let r = self.store.evict_aged(self.ttl, &ages);
        proof {
            assert(aged_out(old(self).spec_keys(), ages@, old(self).spec_ttl(), self.spec_entries()));
            assert forall|k: (u32, Seq<char>)| #[trigger]
                self.store.spec_entries().contains_key(k) implies self.recorded@.contains_key(k)
                && self.recorded@[k] <= self.clock.spec_last() by {
                assert(old(self).store.spec_entries().contains_key(k));
            }
        }
        r
    }

    /// The number of checkpoints stored.
    pub fn count(&self) -> (r: usize)
        requires
            self.wf(),
        ensures
            r == self.spec_entries().len(),
    {
        self.store.len()
    }
}

/// What [`CheckpointManager::has_valid`] answers on `m` for the checkpoint
/// `key`: whether it is stored and, at some reading of the clock no earlier
/// than the latest one a call took, the time since the reading it was recorded
/// at is within the time-to-live.
pub open spec fn valid_outcome(m: CheckpointManager, key: (u32, Seq<char>), r: bool) -> bool {
    exists|now: u128| now >= m.spec_clock() && #[trigger] valid_at(m, key, now, r)
}

/// Whether `r` says that the checkpoint `key` of `m` is stored and, at clock
/// reading `now`, the time since the reading it was recorded at is within the
/// time-to-live.
pub open spec fn valid_at(m: CheckpointManager, key: (u32, Seq<char>), now: u128, r: bool) -> bool {
    r == (m.spec_entries().contains_key(key) && elapsed_between(m.spec_recorded()[key], now) <= m.spec_ttl())
}

/// A checkpoint that is not stored is never valid, and neither is one
/// recorded more than the time-to-live before the latest reading of the
/// manager's clock: its age can only have grown since.
pub proof fn lemma_has_valid_bounded_by_age(m: CheckpointManager, key: (u32, Seq<char>), r: bool)
    requires
        m.wf(),
        valid_outcome(m, key, r),
    ensures
        !m.spec_entries().contains_key(key) ==> !r,
        m.spec_entries().contains_key(key) && m.spec_clock() > m.spec_recorded()[key] + m.spec_ttl() ==> !r,
        r ==> m.spec_entries().contains_key(key) && m.spec_recorded()[key] <= m.spec_clock(),
{
    let now = choose|now: u128| now >= m.spec_clock() && #[trigger] valid_at(m, key, now, r);
    if m.spec_entries().contains_key(key) {
        assert(m.spec_recorded()[key] <= m.spec_clock());
    }
}

impl Default for CheckpointManager {
    fn default() -> (r: Self)
        ensures
            r.wf(),
            r.spec_entries() == Map::<(u32, Seq<char>), Checkpoint>::empty(),
            r.spec_ttl() == DEFAULT_TTL_SECS * 1_000_000_000,
    {
        Self::new()
    }
}

} // verus!
