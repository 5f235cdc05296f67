//! One event buffer per key, created on first use with default settings.

use crate::buffer::{fresh_flags, kept, BufferedEvent, EventBuffer};
use crate::keyed_map::KeyedMap;
use crate::time::TimeSpan;
use vstd::prelude::*;

verus! {

/// The payloads of some events.
pub open spec fn payloads(events: Seq<BufferedEvent>) -> Seq<Seq<char>> {
    events.map_values(|e: BufferedEvent| e.payload@)
}

/// The sum of the pending counts of some buffers.
pub open spec fn pending_sum(bufs: Seq<EventBuffer>) -> nat
    decreases bufs.len(),
{
    if bufs.len() == 0 {
        0
    } else {
        pending_sum(bufs.drop_last()) + bufs.last().spec_events().len()
    }
}

/// Whether `after` is what a push of `payload` makes of the events `before`:
/// one more event with that payload at the end when it was queued (`queued`),
/// the same events when it was not.
pub open spec fn pushed(before: Seq<BufferedEvent>, after: Seq<BufferedEvent>, payload: Seq<char>, queued: bool) -> bool {
    if queued {
        &&& after.len() == before.len() + 1
        &&& after.drop_last() == before
        &&& after.last().payload@ == payload
    } else {
        after == before
    }
}

/// The pairs of a key of `keys` and its entry of `drained`, in order, for the
/// entries that are not empty.
pub open spec fn nonempty_pairs(keys: Seq<Seq<char>>, drained: Seq<Seq<Seq<char>>>) -> Seq<
    (Seq<char>, Seq<Seq<char>>),
>
    decreases keys.len(),
{
    if keys.len() == 0 {
        Seq::empty()
    } else {
        let rest = nonempty_pairs(keys.drop_last(), drained.take(keys.len() - 1));
        if drained[keys.len() - 1].len() > 0 {
            rest.push((keys.last(), drained[keys.len() - 1]))
        } else {
            rest
        }
    }
}

/// The views of what [`BufferManager::drain_all`] hands over.
pub open spec fn drained_view(r: Seq<(String, Vec<String>)>) -> Seq<(Seq<char>, Seq<Seq<char>>)> {
    r.map_values(|p: (String, Vec<String>)| (p.0@, p.1@.map_values(|s: String| s@)))
}

/// The payloads that draining `b` hands over, oldest first, when its events
/// have the ages `ages`: those of the events within the maximum age.
pub open spec fn ready_payloads(b: EventBuffer, ages: Seq<TimeSpan>) -> Seq<Seq<char>> {
    payloads(kept(b.spec_events(), fresh_flags(ages, b.spec_max_age())))
}

/// For each buffer of `bufs`, what draining it hands over when its events
/// have the ages `ages[i]`.
pub open spec fn all_ready(bufs: Seq<EventBuffer>, ages: Seq<Seq<TimeSpan>>) -> Seq<Seq<Seq<char>>> {
    Seq::new(bufs.len(), |i: int| ready_payloads(bufs[i], ages[i]))
}

/// Whether `ages` holds one age for each event of each buffer of `bufs`.
pub open spec fn ages_fit(bufs: Seq<EventBuffer>, ages: Seq<Seq<TimeSpan>>) -> bool {
    &&& ages.len() == bufs.len()
    &&& forall|i: int| 0 <= i < bufs.len() ==> #[trigger] ages[i].len() == bufs[i].spec_events().len()
}

/// Whether `b2` is `b` without the events whose age in `ages` exceeds the
/// maximum age, with the same settings.
pub open spec fn evicted_by(b: EventBuffer, b2: EventBuffer, ages: Seq<TimeSpan>) -> bool {
    &&& b2.spec_events() == kept(b.spec_events(), fresh_flags(ages, b.spec_max_age()))
    &&& b2.spec_capacity() == b.spec_capacity()
    &&& b2.spec_max_age() == b.spec_max_age()
}

/// The views of a list of age lists.
pub open spec fn age_lists(ages: Seq<Vec<TimeSpan>>) -> Seq<Seq<TimeSpan>> {
    ages.map_values(|v: Vec<TimeSpan>| v@)
}

/// Replacing one buffer changes the pending sum by the difference of the
/// two buffers' lengths.
pub proof fn lemma_pending_update(s: Seq<EventBuffer>, i: int, b: EventBuffer)
    requires
        0 <= i < s.len(),
    ensures
        pending_sum(s.update(i, b)) + s[i].spec_events().len() == pending_sum(s) + b.spec_events().len(),
    decreases s.len(),
{
    if i < s.len() - 1 {
        assert(s.update(i, b).drop_last() =~= s.drop_last().update(i, b));
        lemma_pending_update(s.drop_last(), i, b);
    } else {
        assert(s.update(i, b).drop_last() =~= s.drop_last());
    }
}

/// Removing one buffer takes its length off the pending sum.
pub proof fn lemma_pending_remove(s: Seq<EventBuffer>, i: int)
    requires
        0 <= i < s.len(),
    ensures
        pending_sum(s.remove(i)) + s[i].spec_events().len() == pending_sum(s),
    decreases s.len(),
{
    if i < s.len() - 1 {
        assert(s.remove(i).drop_last() =~= s.drop_last().remove(i));
        lemma_pending_remove(s.drop_last(), i);
    } else {
        assert(s.remove(i) =~= s.drop_last());
    }
}

/// Buffers that are all empty have nothing pending.
pub proof fn lemma_pending_empty(s: Seq<EventBuffer>)
    requires
        forall|i: int| 0 <= i < s.len() ==> (#[trigger] s[i]).spec_events().len() == 0,
    ensures
        pending_sum(s) == 0,
    decreases s.len(),
{
    if s.len() > 0 {
        lemma_pending_empty(s.drop_last());
    }
}

/// Event buffers by key.
#[derive(Debug)]
pub struct BufferManager {
    buffers: KeyedMap<String, EventBuffer>,
    default_capacity: usize,
    default_max_age: TimeSpan,
}

impl BufferManager {
    /// The keys list each key of the map exactly once: they hold no
    /// duplicate, and as a set they are the map's keys, of which there are
    /// finitely many.
    pub proof fn lemma_key_order(&self)
        requires
            self.wf(),
        ensures
            self.spec_keys().no_duplicates(),
            self.spec_keys().to_set() == self.spec_buffers().dom(),
            self.spec_buffers().dom().finite(),
            self.spec_keys().len() == self.spec_buffers().len(),
            forall|k: Seq<char>| #[trigger] self.spec_buffers().contains_key(k) <==> self.spec_keys().contains(k),
            self.spec_vals().len() == self.spec_keys().len(),
            forall|i: int|
                0 <= i < self.spec_keys().len() ==> self.spec_buffers()[#[trigger] self.spec_keys()[i]]
                    == self.spec_vals()[i],
    {
        self.buffers.lemma_entries();
        assert(self.spec_buffers().dom() =~= self.buffers@.dom());
    }

    /// The buffers, by key.
    pub closed spec fn spec_buffers(&self) -> Map<Seq<char>, EventBuffer> {
        self.buffers@
    }

    /// The keys, in the order their buffers were created.
    pub closed spec fn spec_keys(&self) -> Seq<Seq<char>> {
        self.buffers.keys()
    }

    /// The buffers, in the order of their keys.
    pub closed spec fn spec_vals(&self) -> Seq<EventBuffer> {
        self.buffers.vals()
    }

    pub closed spec fn spec_default_capacity(&self) -> nat {
        self.default_capacity as nat
    }

    pub closed spec fn spec_default_max_age(&self) -> nat {
        self.default_max_age.spec_nanos()
    }

    /// The map is well formed and every buffer is within its capacity.
    pub closed spec fn wf(&self) -> bool {
        &&& self.buffers.wf()
        &&& forall|i: int| 0 <= i < self.buffers.vals().len() ==> (#[trigger] self.buffers.vals()[i]).wf()
    }

    /// A manager with no buffers, whose new buffers get the given settings.
    pub fn new(default_capacity: usize, default_max_age: TimeSpan) -> (r: Self)
        ensures
            r.wf(),
            r.spec_buffers() == Map::<Seq<char>, EventBuffer>::empty(),
            r.spec_keys() == Seq::<Seq<char>>::empty(),
            r.spec_vals() == Seq::<EventBuffer>::empty(),
            r.spec_default_capacity() == default_capacity,
            r.spec_default_max_age() == default_max_age.spec_nanos(),
    {
        BufferManager { buffers: KeyedMap::new(), default_capacity, default_max_age }
    }

    /// The index of the buffer for `key`, creating an empty one with the
    /// default settings when there is none.
    fn slot_for(&mut self, key: &str) -> (i: usize)
        requires
            old(self).wf(),
        ensures
            final(self).wf(),
            i < final(self).buffers.keys().len(),
            final(self).buffers.keys()[i as int] == key@,
            final(self).buffers@ == old(self).buffers@.insert(key@, final(self).buffers.vals()[i as int]),
            old(self).buffers@.contains_key(key@) ==> final(self).buffers@ == old(self).buffers@
                && final(self).buffers.keys() == old(self).buffers.keys() && final(self).buffers.vals()
                == old(self).buffers.vals(),
            !old(self).buffers@.contains_key(key@) ==> {
                let b = final(self).buffers.vals()[i as int];
                &&& final(self).buffers.keys() == old(self).buffers.keys().push(key@)
                &&& final(self).buffers.vals().drop_last() == old(self).buffers.vals()
                &&& b.spec_events() == Seq::<BufferedEvent>::empty()
                &&& b.spec_capacity() == old(self).default_capacity
                &&& b.spec_max_age() == old(self).default_max_age.spec_nanos()
            },
            final(self).default_capacity == old(self).default_capacity,
            final(self).default_max_age == old(self).default_max_age,
    {
        let k = key.to_owned();
        proof {
            self.buffers.lemma_entries();
        }
        match self.buffers.position(&k) {
            Some(i) => {
                proof {
                    assert(self.buffers@ =~= old(self).buffers@.insert(key@, self.buffers.vals()[i as int]));
                }
                i
            },
            None => {
                let ghost n = self.buffers.keys().len();
                self.buffers.insert(k, EventBuffer::new(self.default_capacity, self.default_max_age));
                proof {
                    assert(self.buffers.vals().drop_last() =~= old(self).buffers.vals());
                    assert forall|j: int| 0 <= j < self.buffers.vals().len() implies (
                    #[trigger] self.buffers.vals()[j]).wf() by {
                        if j < n {
                            assert(self.buffers.vals()[j] == old(self).buffers.vals()[j]);
                        }
                    }
                }
                self.buffers.len() - 1
            },
        }
    }

    /// The buffer for `key`, created empty with the default settings when
    /// there is none.
    pub fn get_or_create(&mut self, key: &str) -> (r: &mut EventBuffer)
        requires
            old(self).wf(),
        ensures
            old(self).spec_buffers().contains_key(key@) ==> *r == old(self).spec_buffers()[key@],
            !old(self).spec_buffers().contains_key(key@) ==> r.spec_events() == Seq::<BufferedEvent>::empty()
                && r.spec_capacity() == old(self).spec_default_capacity() && r.spec_max_age()
                == old(self).spec_default_max_age(),
            final(self).spec_buffers() == old(self).spec_buffers().insert(key@, *final(r)),
            final(self).spec_default_capacity() == old(self).spec_default_capacity(),
            final(self).spec_default_max_age() == old(self).spec_default_max_age(),
    {
        proof {
            old(self).buffers.lemma_entries();
        }
        let i = self.slot_for(key);
        proof {
            self.buffers.lemma_entries();
        }
        let ghost mid = self.buffers;
        let r = self.buffers.value_at_mut(i);
        proof {
            // The map after the borrow ends differs from `mid` only at `key`.
            lemma_update_is_insert_all(mid, i as int, *final(r));
        }
        r
    }

    /// Queues `payload` in the buffer for `key` (creating it if needed);
    /// answers whether it was queued.
    pub fn push(&mut self, key: &str, payload: String) -> (r: bool)
        requires
            old(self).wf(),
        ensures
            final(self).wf(),
            old(self).spec_buffers().contains_key(key@) ==> r == (old(self).spec_buffers()[key@].spec_events().len()
                < old(self).spec_buffers()[key@].spec_capacity()),
            !old(self).spec_buffers().contains_key(key@) ==> r == (0 < old(self).spec_default_capacity()),
            old(self).spec_buffers().contains_key(key@) ==> {
                let (b, b2) = (old(self).spec_buffers()[key@], final(self).spec_buffers()[key@]);
                &&& pushed(b.spec_events(), b2.spec_events(), payload@, r)
                &&& b2.spec_capacity() == b.spec_capacity()
                &&& b2.spec_max_age() == b.spec_max_age()
            },
            !old(self).spec_buffers().contains_key(key@) ==> {
                let b2 = final(self).spec_buffers()[key@];
                &&& pushed(Seq::<BufferedEvent>::empty(), b2.spec_events(), payload@, r)
                &&& b2.spec_capacity() == old(self).spec_default_capacity()
                &&& b2.spec_max_age() == old(self).spec_default_max_age()
            },
            final(self).spec_buffers().dom() == old(self).spec_buffers().dom().insert(key@),
            pending_sum(final(self).spec_vals()) == pending_sum(old(self).spec_vals()) + if r {
                1nat
            } else {
                0nat
            },
            forall|k: Seq<char>|
                k != key@ && #[trigger] old(self).spec_buffers().contains_key(k)
                    ==> final(self).spec_buffers()[k] == old(self).spec_buffers()[k],
            final(self).spec_default_capacity() == old(self).spec_default_capacity(),
            final(self).spec_default_max_age() == old(self).spec_default_max_age(),
    {
        proof {
            old(self).buffers.lemma_entries();
        }
        let i = self.slot_for(key);
        proof {
            self.buffers.lemma_entries();
        }
        let ghost mid = self.buffers;
        proof {
            mid.lemma_entries();
            assert(mid@[key@] == mid.vals()[i as int]);
        }
        let ghost p = payload;
        let b = self.buffers.value_at_mut(i);
        let r = b.push(payload);
        proof {
            assert(r ==> self.buffers.vals()[i as int].spec_events().last().payload@ == p@);
            assert(self.buffers.keys() == mid.keys());
            assert(self.buffers.vals() == mid.vals().update(i as int, self.buffers.vals()[i as int]));
            lemma_update_is_insert(mid, self.buffers, i as int, self.buffers.vals()[i as int]);
            lemma_update_keeps_wf(mid, i as int, self.buffers.vals()[i as int]);
            lemma_pending_update(mid.vals(), i as int, self.buffers.vals()[i as int]);
            if !old(self).buffers@.contains_key(key@) {
                assert(mid.vals() =~= old(self).buffers.vals().push(mid.vals()[i as int]));
            }
        }
        r
    }

    /// The ages of the events of each buffer, by the monotonic clock, in the
    /// order of [`BufferManager::spec_vals`].
    pub fn ages(&self) -> (r: Vec<Vec<TimeSpan>>)
        requires
            self.wf(),
        ensures
            ages_fit(self.spec_vals(), age_lists(r@)),
    {
        let n = self.buffers.len();
        let mut out: Vec<Vec<TimeSpan>> = Vec::new();
        let mut i: usize = 0;
        while i < n
            invariant
                self.wf(),
                n == self.buffers.keys().len(),
                i <= n,
                out@.len() == i,
                forall|j: int| 0 <= j < i ==> (#[trigger] out@[j])@.len() == self.buffers.vals()[j].spec_events().len(),
            decreases n - i,
        {
            out.push(self.buffers.value_at(i).ages());
            i = i + 1;
        }
        proof {
            assert forall|j: int| 0 <= j < self.spec_vals().len() implies #[trigger] age_lists(out@)[j].len()
                == self.spec_vals()[j].spec_events().len() by {
                assert(age_lists(out@)[j] == out@[j]@);
            }
        }
        out
    }

    /// Drains the buffer for `key`, whose events have the ages `ages`
    /// (oldest first): hands over the payloads of those within the maximum
    /// age, oldest first, and leaves the buffer empty. Nothing happens when
    /// there is no buffer for `key`.
    pub fn drain_aged(&mut self, key: &str, ages: &[TimeSpan]) -> (r: Vec<String>)
        requires
            old(self).wf(),
            old(self).spec_buffers().contains_key(key@) ==> ages@.len() == old(
                self,
            ).spec_buffers()[key@].spec_events().len(),
        ensures
            final(self).wf(),
            final(self).spec_keys() == old(self).spec_keys(),
            !old(self).spec_buffers().contains_key(key@) ==> r@.len() == 0 && final(self).spec_buffers()
                == old(self).spec_buffers(),
            old(self).spec_buffers().contains_key(key@) ==> {
                &&& final(self).spec_buffers().dom() == old(self).spec_buffers().dom()
                &&& final(self).spec_buffers()[key@].spec_events().len() == 0
                &&& final(self).spec_buffers()[key@].spec_capacity() == old(self).spec_buffers()[key@].spec_capacity()
                &&& final(self).spec_buffers()[key@].spec_max_age() == old(self).spec_buffers()[key@].spec_max_age()
                &&& r@.map_values(|s: String| s@) == ready_payloads(old(self).spec_buffers()[key@], ages@)
                &&& pending_sum(final(self).spec_vals()) + old(self).spec_buffers()[key@].spec_events().len()
                    == pending_sum(old(self).spec_vals())
            },
            forall|k: Seq<char>|
                k != key@ && #[trigger] old(self).spec_buffers().contains_key(k)
                    ==> final(self).spec_buffers()[k] == old(self).spec_buffers()[k],
            final(self).spec_default_capacity() == old(self).spec_default_capacity(),
            final(self).spec_default_max_age() == old(self).spec_default_max_age(),
    {
        proof {
            self.buffers.lemma_entries();
        }
        let k = key.to_owned();
        match self.buffers.position(&k) {
            Some(i) => {
                let ghost mid = self.buffers;
                proof {
                    assert(mid.vals()[i as int] == old(self).spec_buffers()[key@]);
                }
                let b = self.buffers.value_at_mut(i);
                let events = b.drain_ready_aged(ages);
                proof {
                    lemma_update_is_insert(mid, self.buffers, i as int, self.buffers.vals()[i as int]);
                    lemma_update_keeps_wf(mid, i as int, self.buffers.vals()[i as int]);
                    lemma_pending_update(mid.vals(), i as int, self.buffers.vals()[i as int]);
                }
                payloads_of(events)
            },
            None => Vec::new(),
        }
    }

    /// Drains the buffer for `key`, handing over the payloads of its
    /// unexpired events, oldest first (nothing when there is no buffer), the
    /// ages read from the monotonic clock: what [`BufferManager::drain_aged`]
    /// does with the ages read.
    pub fn drain(&mut self, key: &str) -> (r: Vec<String>)
        requires
            old(self).wf(),
        ensures
            final(self).wf(),
            final(self).spec_keys() == old(self).spec_keys(),
            !old(self).spec_buffers().contains_key(key@) ==> r@.len() == 0 && final(self).spec_buffers()
                == old(self).spec_buffers(),
            old(self).spec_buffers().contains_key(key@) ==> {
                &&& final(self).spec_buffers().dom() == old(self).spec_buffers().dom()
                &&& final(self).spec_buffers()[key@].spec_events().len() == 0
                &&& exists|ages: Seq<TimeSpan>|
                    ages.len() == old(self).spec_buffers()[key@].spec_events().len() && r@.map_values(
                        |s: String| s@,
                    ) == #[trigger] ready_payloads(old(self).spec_buffers()[key@], ages)
                &&& pending_sum(final(self).spec_vals()) + old(self).spec_buffers()[key@].spec_events().len()
                    == pending_sum(old(self).spec_vals())
            },
            forall|k: Seq<char>|
                k != key@ && #[trigger] old(self).spec_buffers().contains_key(k)
                    ==> final(self).spec_buffers()[k] == old(self).spec_buffers()[k],
            final(self).spec_default_capacity() == old(self).spec_default_capacity(),
            final(self).spec_default_max_age() == old(self).spec_default_max_age(),
    {
        proof {
            self.buffers.lemma_entries();
        }
        let k = key.to_owned();
        let ages: Vec<TimeSpan> = match self.buffers.position(&k) {
            Some(i) => self.buffers.value_at(i).ages(),
            None => Vec::new(),
        };
        let r = self.drain_aged(key, &ages);
        proof {
            if old(self).spec_buffers().contains_key(key@) {
                assert(ready_payloads(old(self).spec_buffers()[key@], ages@) == r@.map_values(|s: String| s@));
            }
        }
        r
    }

    /// Drains every buffer, the events of buffer `i` having the ages
    /// `ages[i]` (oldest first); hands over, in buffer order, the key and the
    /// payloads within the maximum age of each buffer that had any, and
    /// leaves every buffer empty.
    pub fn drain_all_aged(&mut self, ages: &[Vec<TimeSpan>]) -> (r: Vec<(String, Vec<String>)>)
        requires
            old(self).wf(),
            ages_fit(old(self).spec_vals(), age_lists(ages@)),
        ensures
            final(self).wf(),
            final(self).spec_keys() == old(self).spec_keys(),
            forall|k: Seq<char>| #[trigger]
                final(self).spec_buffers().contains_key(k) ==> final(self).spec_buffers()[k].spec_events().len()
                    == 0,
            drained_view(r@) == nonempty_pairs(
                old(self).spec_keys(),
                all_ready(old(self).spec_vals(), age_lists(ages@)),
            ),
            pending_sum(final(self).spec_vals()) == 0,
            final(self).spec_default_capacity() == old(self).spec_default_capacity(),
            final(self).spec_default_max_age() == old(self).spec_default_max_age(),
    {
        let mut out: Vec<(String, Vec<String>)> = Vec::new();
        let n = self.buffers.len();
        let mut i: usize = 0;
        let ghost d = all_ready(old(self).spec_vals(), age_lists(ages@));
        proof {
            assert(old(self).buffers.keys().take(0) =~= Seq::<Seq<char>>::empty());
            assert(drained_view(out@) =~= Seq::<(Seq<char>, Seq<Seq<char>>)>::empty());
        }
        while i < n
            invariant
                self.wf(),
                old(self).buffers.wf(),
                old(self).buffers.vals().len() == n,
                ages_fit(old(self).buffers.vals(), age_lists(ages@)),
                d == all_ready(old(self).buffers.vals(), age_lists(ages@)),
                n == self.buffers.keys().len(),
                i <= n,
                self.buffers.keys() == old(self).buffers.keys(),
                forall|j: int| i <= j < n ==> self.buffers.vals()[j] == old(self).buffers.vals()[j],
                forall|j: int| 0 <= j < i ==> (#[trigger] self.buffers.vals()[j]).spec_events().len() == 0,
                drained_view(out@) == nonempty_pairs(old(self).buffers.keys().take(i as int), d.take(i as int)),
                self.default_capacity == old(self).default_capacity,
                self.default_max_age == old(self).default_max_age,
            decreases n - i,
        {
            let key = self.buffers.key_at(i).clone();
            let ghost mid = self.buffers;
            proof {
                assert(age_lists(ages@)[i as int] == ages@[i as int]@);
                assert(ages@[i as int]@.len() == mid.vals()[i as int].spec_events().len());
            }
            let b = self.buffers.value_at_mut(i);
            let events = b.drain_ready_aged(ages[i].as_slice());
            proof {
                lemma_update_keeps_wf(mid, i as int, self.buffers.vals()[i as int]);
            }
            let texts = payloads_of(events);
            let ghost pv = texts@.map_values(|s: String| s@);
            proof {
                assert(pv == d[i as int]);
                assert(old(self).buffers.keys().take(i + 1).drop_last() =~= old(self).buffers.keys().take(i as int));
                assert(d.take(i + 1).take(i as int) =~= d.take(i as int));
                assert(d.take(i + 1)[i as int] == pv);
            }
            if texts.len() > 0 {
                proof {
                    assert(old(self).buffers.keys()[i as int] == key@);
                }
                let ghost before = out@;
                out.push((key, texts));
                proof {
                    assert(drained_view(out@) =~= drained_view(before).push((key@, pv)));
                }
            }
            i = i + 1;
        }
        proof {
            assert(old(self).buffers.keys().take(n as int) =~= old(self).buffers.keys());
            assert(d.take(n as int) =~= d);
            self.buffers.lemma_entries();
            old(self).buffers.lemma_entries();
            assert forall|k: Seq<char>| #[trigger] self.spec_buffers().contains_key(k) implies self.spec_buffers()[k].spec_events().len() == 0 by {
                let j = self.buffers.keys().index_of(k);
                assert(self.buffers.keys().contains(k));
                assert(self.buffers.keys()[j] == k);
            }
            lemma_pending_empty(self.buffers.vals());
        }
        out
    }

    /// Drains every buffer, the ages read from the monotonic clock: what
    /// [`BufferManager::drain_all_aged`] does with the ages read.
    pub fn drain_all(&mut self) -> (r: Vec<(String, Vec<String>)>)
        requires
            old(self).wf(),
        ensures
            final(self).wf(),
            final(self).spec_keys() == old(self).spec_keys(),
            forall|k: Seq<char>| #[trigger]
                final(self).spec_buffers().contains_key(k) ==> final(self).spec_buffers()[k].spec_events().len()
                    == 0,
            pending_sum(final(self).spec_vals()) == 0,
            exists|ages: Seq<Seq<TimeSpan>>|
                ages_fit(old(self).spec_vals(), ages) && drained_view(r@) == nonempty_pairs(
                    old(self).spec_keys(),
                    #[trigger] all_ready(old(self).spec_vals(), ages),
                ),
            final(self).spec_default_capacity() == old(self).spec_default_capacity(),
            final(self).spec_default_max_age() == old(self).spec_default_max_age(),
    {
        let ages = self.ages();
        let r = self.drain_all_aged(&ages);
        proof {
            assert(ages_fit(old(self).spec_vals(), age_lists(ages@)));
        }
        r
    }

    /// Drops, from buffer `i`, the events whose age in `ages[i]` (oldest
    /// first) exceeds its maximum age.
    pub fn evict_all_aged(&mut self, ages: &[Vec<TimeSpan>])
        requires
            old(self).wf(),
            ages_fit(old(self).spec_vals(), age_lists(ages@)),
        ensures
            final(self).wf(),
            final(self).spec_keys() == old(self).spec_keys(),
            final(self).spec_buffers().dom() == old(self).spec_buffers().dom(),
            final(self).spec_vals().len() == old(self).spec_vals().len(),
            forall|i: int|
                0 <= i < old(self).spec_vals().len() ==> #[trigger] evicted_by(
                    old(self).spec_vals()[i],
                    final(self).spec_vals()[i],
                    age_lists(ages@)[i],
                ),
            final(self).spec_default_capacity() == old(self).spec_default_capacity(),
            final(self).spec_default_max_age() == old(self).spec_default_max_age(),
    {
        let n = self.buffers.len();
        let mut i: usize = 0;
        while i < n
            invariant
                self.wf(),
                old(self).buffers.wf(),
                ages_fit(old(self).buffers.vals(), age_lists(ages@)),
                n == self.buffers.keys().len(),
                n == old(self).buffers.vals().len(),
                i <= n,
                self.buffers.keys() == old(self).buffers.keys(),
                forall|j: int| i <= j < n ==> self.buffers.vals()[j] == old(self).buffers.vals()[j],
                forall|j: int|
                    0 <= j < i ==> #[trigger] evicted_by(
                        old(self).buffers.vals()[j],
                        self.buffers.vals()[j],
                        age_lists(ages@)[j],
                    ),
                self.default_capacity == old(self).default_capacity,
                self.default_max_age == old(self).default_max_age,
            decreases n - i,
        {
            let ghost mid = self.buffers;
            proof {
                assert(age_lists(ages@)[i as int] == ages@[i as int]@);
                assert(ages@[i as int]@.len() == mid.vals()[i as int].spec_events().len());
            }
            let b = self.buffers.value_at_mut(i);
            b.evict_aged(ages[i].as_slice());
            proof {
                lemma_update_keeps_wf(mid, i as int, self.buffers.vals()[i as int]);
                assert(evicted_by(
                    old(self).buffers.vals()[i as int],
                    self.buffers.vals()[i as int],
                    age_lists(ages@)[i as int],
                ));
            }
            i = i + 1;
        }
        proof {
            self.buffers.lemma_entries();
            old(self).buffers.lemma_entries();
        }
    }

    /// Drops the expired events of every buffer, the ages read from the
    /// monotonic clock: what [`BufferManager::evict_all_aged`] does with the
    /// ages read.
    pub fn evict_all_expired(&mut self)
        requires
            old(self).wf(),
        ensures
            final(self).wf(),
            final(self).spec_keys() == old(self).spec_keys(),
            final(self).spec_buffers().dom() == old(self).spec_buffers().dom(),
            final(self).spec_vals().len() == old(self).spec_vals().len(),
            exists|ages: Seq<Seq<TimeSpan>>|
                #![trigger ages_fit(old(self).spec_vals(), ages)]
                ages_fit(old(self).spec_vals(), ages) && forall|i: int|
                    0 <= i < old(self).spec_vals().len() ==> #[trigger] evicted_by(
                        old(self).spec_vals()[i],
                        final(self).spec_vals()[i],
                        ages[i],
                    ),
            final(self).spec_default_capacity() == old(self).spec_default_capacity(),
            final(self).spec_default_max_age() == old(self).spec_default_max_age(),
    {
        let ages = self.ages();
        self.evict_all_aged(&ages);
        proof {
            assert(ages_fit(old(self).spec_vals(), age_lists(ages@)));
        }
    }

    /// The number of pending events over all buffers (`usize::MAX` if that
    /// does not fit).
    pub fn total_pending(&self) -> (r: usize)
        requires
            self.wf(),
        ensures
            r == if pending_sum(self.spec_vals()) <= usize::MAX {
                pending_sum(self.spec_vals())
            } else {
                usize::MAX as nat
            },
    {
        let n = self.buffers.len();
        let mut total: usize = 0;
        let mut i: usize = 0;
        while i < n
            invariant
                self.wf(),
                n == self.buffers.keys().len(),
                i <= n,
                total == if pending_sum(self.buffers.vals().take(i as int)) <= usize::MAX {
                    pending_sum(self.buffers.vals().take(i as int))
                } else {
                    usize::MAX as nat
                },
            decreases n - i,
        {
            let len = self.buffers.value_at(i).len();
            proof {
                assert(self.buffers.vals().take(i + 1).drop_last() =~= self.buffers.vals().take(i as int));
            }
            total = total.saturating_add(len);
            i = i + 1;
        }
        proof {
            assert(self.buffers.vals().take(n as int) =~= self.buffers.vals());
        }
        total
    }

    /// Removes the buffer for `key` with whatever it held.
    pub fn remove(&mut self, key: &str)
        requires
            old(self).wf(),
        ensures
            final(self).wf(),
            final(self).spec_buffers() == old(self).spec_buffers().remove(key@),
            pending_sum(final(self).spec_vals()) + (if old(self).spec_buffers().contains_key(key@) {
                old(self).spec_buffers()[key@].spec_events().len()
            } else {
                0nat
            }) == pending_sum(old(self).spec_vals()),
            final(self).spec_default_capacity() == old(self).spec_default_capacity(),
            final(self).spec_default_max_age() == old(self).spec_default_max_age(),
    {
        let ghost n = self.buffers.keys().len();
        proof {
            old(self).buffers.lemma_entries();
        }
        let r = self.buffers.remove(key);
        proof {
            if old(self).buffers.keys().contains(key@) {
                let idx = old(self).buffers.keys().index_of(key@);
                lemma_pending_remove(old(self).buffers.vals(), idx);
                assert(old(self).buffers@[old(self).buffers.keys()[idx]] == old(self).buffers.vals()[idx]);
                assert forall|j: int| 0 <= j < self.buffers.vals().len() implies (
                #[trigger] self.buffers.vals()[j]).wf() by {
                    if j < idx {
                        assert(self.buffers.vals()[j] == old(self).buffers.vals()[j]);
                    } else {
                        assert(self.buffers.vals()[j] == old(self).buffers.vals()[j + 1]);
                    }
                }
            }
        }
    }
}

/// The payloads of some events, in order.
fn payloads_of(events: Vec<BufferedEvent>) -> (r: Vec<String>)
    ensures
        r@.map_values(|s: String| s@) == payloads(events@),
{
    let mut out: Vec<String> = Vec::new();
    let mut i: usize = 0;
    while i < events.len()
        invariant
            i <= events@.len(),
            out@.map_values(|s: String| s@) == payloads(events@.take(i as int)),
        decreases events@.len() - i,
    {
        let ghost before = out@;
        out.push(events[i].payload.clone());
        proof {
            assert(events@.take(i + 1) =~= events@.take(i as int).push(events@[i as int]));
            assert(out@.map_values(|s: String| s@) =~= before.map_values(|s: String| s@).push(
                events@[i as int].payload@,
            ));
            assert(payloads(events@.take(i + 1)) =~= payloads(events@.take(i as int)).push(
                events@[i as int].payload@,
            ));
        }
        i = i + 1;
    }
    proof {
        assert(events@.take(events@.len() as int) =~= events@);
    }
    out
}

proof fn lemma_update_is_insert(
    m: KeyedMap<String, EventBuffer>,
    m2: KeyedMap<String, EventBuffer>,
    i: int,
    b: EventBuffer,
)
    requires
        m.wf(),
        0 <= i < m.keys().len(),
        m2.keys() == m.keys(),
        m2.vals() == m.vals().update(i, b),
    ensures
        m2.wf(),
        m2@ == m@.insert(m.keys()[i], b),
{
    m.lemma_entries();
    m2.lemma_entries();
    let kv = m.keys()[i];
    assert forall|x: Seq<char>| m2@.dom().contains(x) implies #[trigger] m2@[x] == m@.insert(kv, b)[x] by {
        let j = m2.keys().index_of(x);
        assert(m2.keys().contains(x));
        assert(m2.keys()[j] == x);
    }
    assert(m2@.dom() =~= m@.insert(kv, b).dom());
    assert(m2@ =~= m@.insert(kv, b));
}

proof fn lemma_update_is_insert_all(m: KeyedMap<String, EventBuffer>, i: int, b: EventBuffer)
    requires
        m.wf(),
        0 <= i < m.keys().len(),
    ensures
        forall|m2: KeyedMap<String, EventBuffer>|
            #![trigger m2@]
            m2.keys() == m.keys() && m2.vals() == m.vals().update(i, b) ==> m2.wf() && m2@ == m@.insert(
                m.keys()[i],
                b,
            ),
{
    assert forall|m2: KeyedMap<String, EventBuffer>|
        #![trigger m2@]
        m2.keys() == m.keys() && m2.vals() == m.vals().update(i, b) implies m2.wf() && m2@ == m@.insert(
            m.keys()[i],
            b,
        ) by {
        lemma_update_is_insert(m, m2, i, b);
    }
}

proof fn lemma_update_keeps_wf(m: KeyedMap<String, EventBuffer>, i: int, b: EventBuffer)
    requires
        m.wf(),
        0 <= i < m.keys().len(),
        forall|j: int| 0 <= j < m.vals().len() ==> (#[trigger] m.vals()[j]).wf(),
        b.wf(),
    ensures
        forall|j: int| 0 <= j < m.vals().update(i, b).len() ==> (#[trigger] m.vals().update(i, b)[j]).wf(),
{
}

} // verus!
