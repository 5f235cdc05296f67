//! Named checkpoints that record when a process metric was last seen within
//! acceptable bounds, and a store of them keyed by process and name.

use crate::keyed_map::KeyedMap;
use crate::time::{instant_now, span_since, TimeSpan};
use std::time::Instant;
use vstd::prelude::*;

verus! {

/// A named checkpoint for a process.
#[derive(Debug, Clone)]
pub struct Checkpoint {
    pub name: String,
    pub pid: u32,
    pub recorded_at: Instant,
    pub metadata: KeyedMap<String, String>,
}

impl Checkpoint {
    /// A checkpoint recorded now, with no metadata.
    pub fn new(name: &str, pid: u32) -> (r: Self)
        ensures
            r.name@ == name@,
            r.pid == pid,
            r.metadata.wf(),
            r.metadata@ == Map::<Seq<char>, String>::empty(),
    {
        Checkpoint {
            name: name.to_owned(),
            pid,
            recorded_at: instant_now(),
            metadata: KeyedMap::new(),
        }
    }

    /// The checkpoint with `key` set to `value` in its metadata.
    pub fn with_meta(self, key: &str, value: &str) -> (r: Self)
        requires
            self.metadata.wf(),
        ensures
            r.name == self.name,
            r.pid == self.pid,
            r.recorded_at == self.recorded_at,
            r.metadata.wf(),
            r.metadata@.dom() == self.metadata@.dom().insert(key@),
            r.metadata@[key@]@ == value@,
            forall|k: Seq<char>| k != key@ && #[trigger] self.metadata@.contains_key(k) ==> r.metadata@[k]
                == self.metadata@[k],
    {
        let mut cp = self;
        cp.metadata.insert(key.to_owned(), value.to_owned());
        cp
    }

    /// The time since the checkpoint was recorded, from the monotonic clock.
    pub fn age(&self) -> TimeSpan {
        span_since(&self.recorded_at)
    }

    /// Whether a checkpoint of age `age` is older than `ttl`.
    pub fn is_expired_after(&self, age: TimeSpan, ttl: TimeSpan) -> (r: bool)
        ensures
            r == outlived(age.spec_nanos(), ttl.spec_nanos()),
    {
        age.as_nanos() > ttl.as_nanos()
    }

    /// Whether the checkpoint is older than `ttl`, by the monotonic clock (so
    /// the answer depends on when it is asked): `is_expired_after` applied to
    /// the age read from the clock.
    pub fn is_expired(&self, ttl: TimeSpan) -> (r: bool)
        ensures
            exists|age: nat| #[trigger] outlived(age, ttl.spec_nanos()) == r,
    {
        let age = self.age();
        let r = self.is_expired_after(age, ttl);
        proof {
            assert(outlived(age.spec_nanos(), ttl.spec_nanos()) == r);
        }
        r
    }
}

/// Whether a checkpoint of age `age` (nanoseconds) has outlived a
/// time-to-live of `ttl` nanoseconds.
pub open spec fn outlived(age: nat, ttl: nat) -> bool {
    age > ttl
}

/// Whether `entries` holds, of the checkpoints keyed by `keys`, exactly those
/// whose age in `ages` (by position) has not outlived `ttl`.
pub open spec fn aged_out(
    keys: Seq<(u32, Seq<char>)>,
    ages: Seq<TimeSpan>,
    ttl: nat,
    entries: Map<(u32, Seq<char>), Checkpoint>,
) -> bool {
    forall|i: int|
        0 <= i < keys.len() ==> (entries.contains_key(#[trigger] keys[i]) <==> ages[i].spec_nanos() <= ttl)
}

/// The key of a checkpoint in a store.
pub open spec fn checkpoint_key(c: Checkpoint) -> (u32, Seq<char>) {
    (c.pid, c.name@)
}

/// Checkpoints keyed by (process id, name); recording a checkpoint replaces
/// the one with the same key.
#[derive(Debug)]
pub struct CheckpointStore {
    entries: KeyedMap<(u32, String), Checkpoint>,
}

impl CheckpointStore {
    /// The stored checkpoints form a finite map.
    pub proof fn lemma_finite(&self)
        requires
            self.wf(),
        ensures
            self.spec_entries().dom().finite(),
    {
        self.entries.lemma_entries();
    }

    /// The checkpoints, by key.
    pub closed spec fn spec_entries(&self) -> Map<(u32, Seq<char>), Checkpoint> {
        self.entries@
    }

    /// Every checkpoint is stored under its own key.
    pub closed spec fn wf(&self) -> bool {
        &&& self.entries.wf()
        &&& forall|k: (u32, Seq<char>)| #[trigger]
            self.entries@.contains_key(k) ==> checkpoint_key(self.entries@[k]) == k
    }

    /// An empty store.
    pub fn new() -> (r: Self)
        ensures
            r.wf(),
            r.spec_entries() == Map::<(u32, Seq<char>), Checkpoint>::empty(),
    {
        CheckpointStore { entries: KeyedMap::new() }
    }

    /// Stores `checkpoint`, replacing any with the same process and name.
    pub fn record(&mut self, checkpoint: Checkpoint)
        requires
            old(self).wf(),
        ensures
            final(self).wf(),
            final(self).spec_entries() == old(self).spec_entries().insert(
                checkpoint_key(checkpoint),
                checkpoint,
            ),
    {
        let key = (checkpoint.pid, checkpoint.name.clone());
        self.entries.insert(key, checkpoint);
    }

    /// The checkpoint `name` of process `pid`, if stored.
    pub fn get(&self, pid: u32, name: &str) -> (r: Option<&Checkpoint>)
        requires
            self.wf(),
        ensures
            match r {
                Some(c) => self.spec_entries().contains_key((pid, name@)) && *c == self.spec_entries()[(
                    pid,
                    name@,
                )],
                None => !self.spec_entries().contains_key((pid, name@)),
            },
    {
        let key = (pid, name.to_owned());
        self.entries.lookup(&key)
    }

    /// Removes the checkpoint `name` of process `pid` and hands it back.
    pub fn remove(&mut self, pid: u32, name: &str) -> (r: Option<Checkpoint>)
        requires
            old(self).wf(),
        ensures
            final(self).wf(),
            final(self).spec_entries() == old(self).spec_entries().remove((pid, name@)),
            match r {
                Some(c) => old(self).spec_entries().contains_key((pid, name@)) && c == old(
                    self,
                ).spec_entries()[(pid, name@)],
                None => !old(self).spec_entries().contains_key((pid, name@)),
            },
    {
        let key = (pid, name.to_owned());
        self.entries.remove_key(&key)
    }

    /// The keys of the stored checkpoints, in the order they were first
    /// recorded.
    pub closed spec fn spec_keys(&self) -> Seq<(u32, Seq<char>)> {
        self.entries.keys()
    }

    /// The keys list each stored checkpoint exactly once.
    pub proof fn lemma_key_order(&self)
        requires
            self.wf(),
        ensures
            self.spec_keys().no_duplicates(),
            self.spec_keys().to_set() == self.spec_entries().dom(),
            self.spec_entries().dom().finite(),
            self.spec_keys().len() == self.spec_entries().len(),
            forall|k: (u32, Seq<char>)| #[trigger] self.spec_entries().contains_key(k) <==> self.spec_keys().contains(k),
    {
        self.entries.lemma_entries();
    }

    /// The age of each stored checkpoint, by the monotonic clock, in the
    /// order of [`CheckpointStore::spec_keys`].
    pub fn ages(&self) -> (r: Vec<TimeSpan>)
        requires
            self.wf(),
        ensures
            r@.len() == self.spec_keys().len(),
    {
        let n = self.entries.len();
        let mut out: Vec<TimeSpan> = Vec::new();
        let mut i: usize = 0;
        while i < n
            invariant
                self.wf(),
                n == self.entries.keys().len(),
                i <= n,
                out@.len() == i,
            decreases n - i,
        {
            out.push(self.entries.value_at(i).age());
            i = i + 1;
        }
        out
    }

    /// Removes every checkpoint whose age, given in `ages` in the order of
    /// [`CheckpointStore::spec_keys`], exceeds `ttl`, and returns how many
    /// were removed. The others stay, unchanged.
    pub fn evict_aged(&mut self, ttl: TimeSpan, ages: &[TimeSpan]) -> (r: usize)
        requires
            old(self).wf(),
            ages@.len() == old(self).spec_keys().len(),
        ensures
            final(self).wf(),
            final(self).spec_entries().submap_of(old(self).spec_entries()),
            aged_out(old(self).spec_keys(), ages@, ttl.spec_nanos(), final(self).spec_entries()),
            r == old(self).spec_entries().len() - final(self).spec_entries().len(),
    {
        proof {
            self.entries.lemma_entries();
        }
        let before = self.entries.len();
        let ghost orig = self.entries;
        let limit = ttl.as_nanos();
        let mut rest: KeyedMap<(u32, String), Checkpoint> = KeyedMap::new();
        std::mem::swap(&mut rest, &mut self.entries);
        let mut j: usize = 0;
        while rest.len() > 0
            invariant
                orig.wf(),
                forall|k: (u32, Seq<char>)| #[trigger]
                    orig@.contains_key(k) ==> checkpoint_key(orig@[k]) == k,
                ages@.len() == orig.keys().len(),
                limit == ttl.spec_nanos(),
                rest.wf(),
                j <= orig.keys().len(),
                rest.keys() == orig.keys().skip(j as int),
                rest.vals() == orig.vals().skip(j as int),
                self.entries.wf(),
                forall|k: (u32, Seq<char>)| #[trigger]
                    self.entries@.contains_key(k) ==> orig@.contains_key(k) && self.entries@[k] == orig@[k]
                        && exists|t: int| 0 <= t < j && orig.keys()[t] == k,
                forall|t: int|
                    0 <= t < j ==> (self.entries@.contains_key(#[trigger] orig.keys()[t])
                        <==> ages@[t].spec_nanos() <= ttl.spec_nanos()),
            decreases rest.keys().len(),
        {
            proof {
                rest.lemma_entries();
                assert(rest.keys().len() > 0);
                assert(rest.keys()[0] == orig.keys()[j as int]);
                assert(rest.vals()[0] == orig.vals()[j as int]);
            }
            let (k, v) = rest.remove_at(0);
            proof {
                assert(rest.keys() =~= orig.keys().skip(j + 1));
                assert(rest.vals() =~= orig.vals().skip(j + 1));
                assert(orig@[orig.keys()[j as int]] == orig.vals()[j as int]);
            }
            let age = ages[j].as_nanos();
            let ghost prev = self.entries@;
            if age <= limit {
                self.entries.insert(k, v);
            }
            proof {
                let kj = orig.keys()[j as int];
                assert forall|t: int| 0 <= t < j + 1 implies (self.entries@.contains_key(
                    #[trigger] orig.keys()[t],
                ) <==> ages@[t].spec_nanos() <= ttl.spec_nanos()) by {
                    if t < j {
                        assert(orig.keys()[t] != kj);
                    }
                }
                assert forall|k2: (u32, Seq<char>)| #[trigger] self.entries@.contains_key(k2) implies orig@.contains_key(
                    k2,
                ) && self.entries@[k2] == orig@[k2] && exists|t: int| 0 <= t < j + 1 && orig.keys()[t] == k2 by {
                    if k2 == kj {
                        assert(orig.keys().contains(kj));
                    } else {
                        assert(prev.contains_key(k2));
                        let t = choose|t: int| 0 <= t < j && orig.keys()[t] == k2;
                        assert(0 <= t < j + 1 && orig.keys()[t] == k2);
                    }
                }
            }
            j = j + 1;
        }
        proof {
            self.entries.lemma_entries();
            assert(j == orig.keys().len());
            assert(self.entries@.submap_of(orig@));
            vstd::set_lib::lemma_len_subset(self.entries@.dom(), orig@.dom());
        }
        before - self.entries.len()
    }

    /// Removes every checkpoint older than `ttl`, its age read from the
    /// monotonic clock, and returns how many were removed: what
    /// [`CheckpointStore::evict_aged`] does with the ages read.
    pub fn evict_expired(&mut self, ttl: TimeSpan) -> (r: usize)
        requires
            old(self).wf(),
        ensures
            final(self).wf(),
            final(self).spec_entries().submap_of(old(self).spec_entries()),
            exists|ages: Seq<TimeSpan>|
                #![trigger aged_out(old(self).spec_keys(), ages, ttl.spec_nanos(), final(self).spec_entries())]
                ages.len() == old(self).spec_keys().len() && aged_out(
                    old(self).spec_keys(),
                    ages,
                    ttl.spec_nanos(),
                    final(self).spec_entries(),
                ),
            r == old(self).spec_entries().len() - final(self).spec_entries().len(),
    {
        let ages = self.ages();
        let r = self.evict_aged(ttl, &ages);
        proof {
            assert(aged_out(old(self).spec_keys(), ages@, ttl.spec_nanos(), self.spec_entries()));
        }
        r
    }

    /// The number of checkpoints stored.
    pub fn len(&self) -> (r: usize)
        requires
            self.wf(),
        ensures
            r == self.spec_entries().len(),
    {
        self.entries.len()
    }

    /// Whether the store is empty.
    pub fn is_empty(&self) -> (r: bool)
        requires
            self.wf(),
        ensures
            r == (self.spec_entries().len() == 0),
    {
        self.entries.is_empty()
    }
}

/// After a checkpoint is recorded, looking up its process and name finds it,
/// and every other checkpoint is as it was.
pub proof fn lemma_record_then_get(store: Map<(u32, Seq<char>), Checkpoint>, c: Checkpoint, k: (u32, Seq<char>))
    ensures
        store.insert(checkpoint_key(c), c)[checkpoint_key(c)] == c,
        k != checkpoint_key(c) ==> (store.insert(checkpoint_key(c), c).contains_key(k) == store.contains_key(k)),
        k != checkpoint_key(c) && store.contains_key(k) ==> store.insert(checkpoint_key(c), c)[k] == store[k],
{
}

} // verus!
