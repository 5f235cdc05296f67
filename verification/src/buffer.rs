//! A bounded buffer of pending event payloads whose entries expire after a
//! maximum age.

use crate::time::{elapsed_between, elapsed_nanos, instant_now, span_since, Clock, TimeSpan};
use std::collections::VecDeque;
use std::time::Instant;
use vstd::prelude::*;

verus! {

/// A payload waiting in a buffer, with the instant it was queued and the
/// reading of the buffer's clock at which it was queued (0 for an event made
/// outside a buffer).
#[derive(Debug, Clone)]
pub struct BufferedEvent {
    pub payload: String,
    pub queued_at: Instant,
    pub queued_reading: u128,
}

impl BufferedEvent {
    /// The reading of the buffer's clock at which the event was queued.
    pub open spec fn spec_reading(&self) -> u128 {
        self.queued_reading
    }

    /// The payload, queued now.
    pub fn new(payload: String) -> (r: Self)
        ensures
            r.payload == payload,
            r.spec_reading() == 0,
    {
        BufferedEvent { payload, queued_at: instant_now(), queued_reading: 0 }
    }

    /// The time since the event was queued, from the monotonic clock.
    pub fn age(&self) -> TimeSpan {
        span_since(&self.queued_at)
    }
}

/// The entries of `s` whose flag in `keep` is set, in order.
pub open spec fn kept<A>(s: Seq<A>, keep: Seq<bool>) -> Seq<A>
    decreases s.len(),
{
    if s.len() == 0 {
        Seq::<A>::empty()
    } else if keep.last() {
        kept(s.drop_last(), keep.drop_last()).push(s.last())
    } else {
        kept(s.drop_last(), keep.drop_last())
    }
}

/// Which of `events` were queued no more than `max_age` before clock
/// reading `now`.
pub open spec fn ready_flags(events: Seq<BufferedEvent>, now: u128, max_age: nat) -> Seq<bool> {
    events.map_values(|e: BufferedEvent| elapsed_between(e.spec_reading(), now) <= max_age)
}

/// Whether `x` is an entry of `s` whose flag in `keep` is set.
pub open spec fn flagged_in<A>(s: Seq<A>, keep: Seq<bool>, x: A) -> bool {
    exists|i: int| 0 <= i < s.len() && keep[i] && #[trigger] s[i] == x
}

/// Every entry that `kept` keeps is an entry of `s` whose flag is set.
pub proof fn lemma_kept_only_flagged<A>(s: Seq<A>, keep: Seq<bool>)
    requires
        keep.len() == s.len(),
    ensures
        forall|j: int| 0 <= j < kept(s, keep).len() ==> flagged_in(s, keep, #[trigger] kept(s, keep)[j]),
    decreases s.len(),
{
    if s.len() > 0 {
        let s1 = s.drop_last();
        let k1 = keep.drop_last();
        lemma_kept_only_flagged(s1, k1);
        assert forall|j: int| 0 <= j < kept(s, keep).len() implies flagged_in(s, keep, #[trigger] kept(s, keep)[j]) by {
            if j < kept(s1, k1).len() {
                assert(flagged_in(s1, k1, kept(s1, k1)[j]));
                let i = choose|i: int| 0 <= i < s1.len() && k1[i] && #[trigger] s1[i] == kept(s1, k1)[j];
                assert(kept(s, keep)[j] == kept(s1, k1)[j]);
                assert(s[i] == s1[i] && keep[i] == k1[i]);
            } else {
                assert(keep.last());
                assert(kept(s, keep)[j] == s.last());
                assert(keep[s.len() - 1]);
                assert(s[s.len() - 1] == kept(s, keep)[j]);
            }
        }
    }
}

/// Which of the events with ages `ages` (in nanoseconds) are within
/// `max_age`.
pub open spec fn fresh_flags(ages: Seq<TimeSpan>, max_age: nat) -> Seq<bool> {
    ages.map_values(|a: TimeSpan| a.spec_nanos() <= max_age)
}

/// Whether `ages` are the ages of `events` at clock reading `now`, one per
/// event, in order.
pub open spec fn ages_at(events: Seq<BufferedEvent>, now: u128, ages: Seq<TimeSpan>) -> bool {
    &&& ages.len() == events.len()
    &&& forall|j: int|
        0 <= j < ages.len() ==> (#[trigger] ages[j]).spec_nanos() == elapsed_between(events[j].spec_reading(), now)
}

/// Ages that are those of `events` at reading `now` flag the same events as
/// fresh as the readings the events were queued at.
proof fn lemma_ages_flags(events: Seq<BufferedEvent>, now: u128, ages: Seq<TimeSpan>, max_age: nat)
    requires
        ages_at(events, now, ages),
    ensures
        fresh_flags(ages, max_age) == ready_flags(events, now, max_age),
{
    assert(fresh_flags(ages, max_age) =~= ready_flags(events, now, max_age));
}

/// What [`EventBuffer::drain_ready`] does, from `before` to `after`, handing
/// over `r`: it takes a reading of the clock no earlier than the ones before,
/// hands over, oldest first, exactly the events queued no more than the
/// maximum age before that reading, and leaves the buffer empty.
pub open spec fn drain_outcome(before: EventBuffer, after: EventBuffer, r: Seq<BufferedEvent>) -> bool {
    let now = after.spec_clock();
    &&& now >= before.spec_clock()
    &&& after.spec_events() == Seq::<BufferedEvent>::empty()
    &&& after.spec_max_age() == before.spec_max_age()
    &&& after.spec_capacity() == before.spec_capacity()
    &&& r == kept(before.spec_events(), ready_flags(before.spec_events(), now, before.spec_max_age()))
}

/// Every event a drain hands over is one that was pending and was queued no
/// more than the maximum age before the reading the drain took; so an event
/// queued longer ago than that is never handed over, and nothing is handed
/// over that was not pending.
pub proof fn lemma_drain_ready_fresh(before: EventBuffer, after: EventBuffer, r: Seq<BufferedEvent>)
    requires
        drain_outcome(before, after, r),
    ensures
        r.len() <= before.spec_events().len(),
        forall|j: int|
            0 <= j < r.len() ==> elapsed_between(#[trigger] r[j].spec_reading(), after.spec_clock())
                <= before.spec_max_age(),
        forall|j: int| 0 <= j < r.len() ==> before.spec_events().contains(#[trigger] r[j]),
        forall|i: int|
            #![trigger before.spec_events()[i]]
            0 <= i < before.spec_events().len() && after.spec_clock() > before.spec_events()[i].spec_reading()
                + before.spec_max_age() ==> !r.contains(before.spec_events()[i]) || exists|k: int|
                0 <= k < before.spec_events().len() && k != i && before.spec_events()[k] == before.spec_events()[i]
                && elapsed_between(before.spec_events()[k].spec_reading(), after.spec_clock())
                <= before.spec_max_age(),
{
    let events = before.spec_events();
    let flags = ready_flags(events, after.spec_clock(), before.spec_max_age());
    lemma_kept_only_flagged(events, flags);
    lemma_kept_len(events, flags);
    assert forall|j: int| 0 <= j < r.len() implies elapsed_between(#[trigger] r[j].spec_reading(), after.spec_clock())
        <= before.spec_max_age() && events.contains(r[j]) by {
        assert(flagged_in(events, flags, r[j]));
        let i = choose|i: int| 0 <= i < events.len() && flags[i] && #[trigger] events[i] == r[j];
    }
}

/// Keeping entries never adds any: the result is no longer than the input.
pub proof fn lemma_kept_len<A>(s: Seq<A>, keep: Seq<bool>)
    ensures
        kept(s, keep).len() <= s.len(),
    decreases s.len(),
{
    if s.len() > 0 {
        lemma_kept_len(s.drop_last(), keep.drop_last());
    }
}

proof fn lemma_kept_step<A>(s: Seq<A>, keep: Seq<bool>, m: int, b: bool)
    requires
        0 <= m < s.len(),
        keep.len() == m,
    ensures
        kept(s.take(m + 1), keep.push(b)) == if b {
            kept(s.take(m), keep).push(s[m])
        } else {
            kept(s.take(m), keep)
        },
{
    assert(s.take(m + 1).drop_last() =~= s.take(m));
    assert(keep.push(b).drop_last() =~= keep);
}

/// A bounded queue of pending events, oldest first.
#[derive(Debug)]
pub struct EventBuffer {
    queue: VecDeque<BufferedEvent>,
    capacity: usize,
    max_age: TimeSpan,
    clock: Clock,
}

impl EventBuffer {
    /// The pending events, oldest first.
    pub closed spec fn spec_events(&self) -> Seq<BufferedEvent> {
        self.queue@
    }

    pub closed spec fn spec_capacity(&self) -> nat {
        self.capacity as nat
    }

    pub closed spec fn spec_max_age(&self) -> nat {
        self.max_age.spec_nanos()
    }

    /// The latest reading of the buffer's clock that a call took.
    pub closed spec fn spec_clock(&self) -> u128 {
        self.clock.spec_last()
    }

    /// The buffer never holds more than its capacity.
    pub open spec fn wf(&self) -> bool {
        self.spec_events().len() <= self.spec_capacity()
    }

    /// An empty buffer.
    pub fn new(capacity: usize, max_age: TimeSpan) -> (r: Self)
        ensures
            r.wf(),
            r.spec_events() == Seq::<BufferedEvent>::empty(),
            r.spec_capacity() == capacity,
            r.spec_max_age() == max_age.spec_nanos(),
    {
        EventBuffer { queue: VecDeque::with_capacity(capacity), capacity, max_age, clock: Clock::start() }
    }

    /// Queues `payload` unless the buffer is full; answers whether it was
    /// queued.
    pub fn push(&mut self, payload: String) -> (r: bool)
        requires
            old(self).wf(),
        ensures
            final(self).wf(),
            r == (old(self).spec_events().len() < old(self).spec_capacity()),
            r ==> final(self).spec_events().len() == old(self).spec_events().len() + 1
                && final(self).spec_events().drop_last() == old(self).spec_events()
                && final(self).spec_events().last().payload == payload,
            !r ==> final(self).spec_events() == old(self).spec_events(),
            final(self).spec_capacity() == old(self).spec_capacity(),
            final(self).spec_max_age() == old(self).spec_max_age(),
            final(self).spec_clock() >= old(self).spec_clock(),
            r ==> final(self).spec_events().last().spec_reading() == final(self).spec_clock(),
    {
        if self.queue.len() >= self.capacity {
            return false;
        }
        let mut e = BufferedEvent::new(payload);
        e.queued_reading = self.clock.tick();
        self.queue.push_back(e);
        proof {
            assert(self.spec_events().drop_last() =~= old(self).spec_events());
        }
        true
    }

    /// The age of each pending event, oldest first: the time from the reading
    /// of the buffer's clock at which it was queued to a reading taken now,
    /// which is no earlier than any reading a call took before.
    pub fn ages(&self) -> (r: Vec<TimeSpan>)
        ensures
            r@.len() == self.spec_events().len(),
            exists|now: u128|
                now >= self.spec_clock() && #[trigger] ages_at(self.spec_events(), now, r@),
    {
        let now = self.clock.now();
        let r = self.ages_at(now);
        r
    }

    /// The age of each pending event at clock reading `now`, oldest first.
    fn ages_at(&self, now: u128) -> (r: Vec<TimeSpan>)
        ensures
            r@.len() == self.spec_events().len(),
            ages_at(self.spec_events(), now, r@),
    {
        let n = self.queue.len();
        let mut out: Vec<TimeSpan> = Vec::new();
        let mut i: usize = 0;
        while i < n
            invariant
                n == self.queue@.len(),
                i <= n,
                out@.len() == i,
                forall|j: int|
                    0 <= j < i ==> (#[trigger] out@[j]).spec_nanos() == elapsed_between(
                        self.queue@[j].spec_reading(),
                        now,
                    ),
            decreases n - i,
        {
            let age = TimeSpan::from_nanos_u128(elapsed_nanos(self.queue[i].queued_reading, now));
            out.push(age);
            i = i + 1;
        }
        out
    }

    /// Drops the events whose age, given in `ages` oldest first, exceeds the
    /// maximum age; the others stay, in order.
    pub fn evict_aged(&mut self, ages: &[TimeSpan])
        requires
            old(self).wf(),
            ages@.len() == old(self).spec_events().len(),
        ensures
            final(self).wf(),
            final(self).spec_events() == kept(
                old(self).spec_events(),
                fresh_flags(ages@, old(self).spec_max_age()),
            ),
            final(self).spec_capacity() == old(self).spec_capacity(),
            final(self).spec_max_age() == old(self).spec_max_age(),
            final(self).spec_clock() == old(self).spec_clock(),
    {
        let ghost orig = self.queue@;
        let ghost mut keep: Seq<bool> = Seq::empty();
        let mut fresh: VecDeque<BufferedEvent> = VecDeque::new();
        let max_age = self.max_age.as_nanos();
        let mut i: usize = 0;
        proof {
            assert(fresh_flags(ages@.take(0), max_age as nat) =~= keep);
        }
        while self.queue.len() > 0
            invariant
                i == keep.len(),
                ages@.len() == orig.len(),
                keep.len() <= orig.len(),
                keep == fresh_flags(ages@.take(i as int), max_age as nat),
                max_age == old(self).max_age.spec_nanos(),
                self.queue@ == orig.skip(keep.len() as int),
                fresh@ == kept(orig.take(keep.len() as int), keep),
                orig.len() <= self.capacity,
                self.capacity == old(self).capacity,
                self.max_age == old(self).max_age,
                self.clock.spec_last() == old(self).clock.spec_last(),
            decreases self.queue@.len(),
        {
            let e = self.queue.pop_front().unwrap();
            let b = ages[i].as_nanos() <= max_age;
            proof {
                assert(e == orig[keep.len() as int]);
                lemma_kept_step(orig, keep, keep.len() as int, b);
                assert(fresh_flags(ages@.take(i + 1), max_age as nat) =~= keep.push(b));
                keep = keep.push(b);
                assert(self.queue@ =~= orig.skip(keep.len() as int));
            }
            if b {
                fresh.push_back(e);
            }
            i = i + 1;
        }
        proof {
            assert(orig.take(keep.len() as int) =~= orig);
            assert(ages@.take(i as int) =~= ages@);
            lemma_kept_len(orig, keep);
        }
        self.queue = fresh;
    }

    /// Drops the events older than the maximum age, measured from the reading
    /// of the buffer's clock at which each was queued to one reading taken
    /// now, no earlier than any a call took before: what
    /// [`EventBuffer::evict_aged`] does with those ages.
    pub fn evict_expired(&mut self)
        requires
            old(self).wf(),
        ensures
            final(self).wf(),
            exists|ages: Seq<TimeSpan>|
                ages.len() == old(self).spec_events().len() && final(self).spec_events() == #[trigger] kept(
                    old(self).spec_events(),
                    fresh_flags(ages, old(self).spec_max_age()),
                ),
            final(self).spec_capacity() == old(self).spec_capacity(),
            final(self).spec_max_age() == old(self).spec_max_age(),
            final(self).spec_clock() >= old(self).spec_clock(),
            final(self).spec_events() == kept(
                old(self).spec_events(),
                ready_flags(old(self).spec_events(), final(self).spec_clock(), old(self).spec_max_age()),
            ),
    {
        let now = self.clock.tick();
        let ages = self.ages_at(now);
        proof {
            lemma_ages_flags(self.spec_events(), now, ages@, self.spec_max_age());
        }
        self.evict_aged(&ages);
        proof {
            assert(ages@.len() == old(self).spec_events().len() && self.spec_events() == kept(
                old(self).spec_events(),
                fresh_flags(ages@, old(self).spec_max_age()),
            ));
        }
    }

    /// Hands over, oldest first, the events whose age, given in `ages`
    /// oldest first, is within the maximum age, and leaves the buffer empty;
    /// the others are dropped.
    pub fn drain_ready_aged(&mut self, ages: &[TimeSpan]) -> (r: Vec<BufferedEvent>)
        requires
            old(self).wf(),
            ages@.len() == old(self).spec_events().len(),
        ensures
            final(self).wf(),
            final(self).spec_events() == Seq::<BufferedEvent>::empty(),
            r@ == kept(old(self).spec_events(), fresh_flags(ages@, old(self).spec_max_age())),
            final(self).spec_capacity() == old(self).spec_capacity(),
            final(self).spec_max_age() == old(self).spec_max_age(),
            final(self).spec_clock() == old(self).spec_clock(),
    {
        self.evict_aged(ages);
        let ghost ready = self.queue@;
        let mut out: Vec<BufferedEvent> = Vec::new();
        while self.queue.len() > 0
            invariant
                out@ + self.queue@ == ready,
                self.capacity == old(self).capacity,
                self.max_age.spec_nanos() == old(self).max_age.spec_nanos(),
                self.clock.spec_last() == old(self).clock.spec_last(),
                ready.len() <= self.capacity,
            decreases self.queue@.len(),
        {
            let e = self.queue.pop_front().unwrap();
            proof {
                assert(out@.push(e) + self.queue@ =~= ready);
            }
            out.push(e);
        }
        proof {
            assert(out@ =~= ready);
        }
        out
    }

    /// Drops the expired events and hands over all the others, oldest first,
    /// leaving the buffer empty. An event's age runs from the reading of the
    /// buffer's clock at which it was queued to one reading taken now, no
    /// earlier than any a call took before: what
    /// [`EventBuffer::drain_ready_aged`] does with those ages.
    pub fn drain_ready(&mut self) -> (r: Vec<BufferedEvent>)
        requires
            old(self).wf(),
        ensures
            final(self).wf(),
            final(self).spec_events() == Seq::<BufferedEvent>::empty(),
            exists|ages: Seq<TimeSpan>|
                ages.len() == old(self).spec_events().len() && r@ == #[trigger] kept(
                    old(self).spec_events(),
                    fresh_flags(ages, old(self).spec_max_age()),
                ),
            final(self).spec_capacity() == old(self).spec_capacity(),
            final(self).spec_max_age() == old(self).spec_max_age(),
            drain_outcome(*old(self), *final(self), r@),
            forall|j: int|
                0 <= j < r@.len() ==> elapsed_between(#[trigger] r@[j].spec_reading(), final(self).spec_clock())
                    <= old(self).spec_max_age(),
    {
        let now = self.clock.tick();
        let ages = self.ages_at(now);
        proof {
            lemma_ages_flags(self.spec_events(), now, ages@, self.spec_max_age());
        }
        let r = self.drain_ready_aged(&ages);
        proof {
            lemma_drain_ready_fresh(*old(self), *self, r@);
        }
        r
    }

    /// The number of pending events.
    pub fn len(&self) -> (r: usize)
        ensures
            r == self.spec_events().len(),
    {
        self.queue.len()
    }

    /// Whether nothing is pending.
    pub fn is_empty(&self) -> (r: bool)
        ensures
            r == (self.spec_events().len() == 0),
    {
        self.queue.len() == 0
    }

    /// Whether the buffer is full.
    pub fn is_full(&self) -> (r: bool)
        ensures
            r == (self.spec_events().len() >= self.spec_capacity()),
    {
        self.queue.len() >= self.capacity
    }

    /// The most events the buffer holds.
    pub fn capacity(&self) -> (r: usize)
        ensures
            r == self.spec_capacity(),
    {
        self.capacity
    }
}

} // verus!
