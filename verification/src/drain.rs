//! Flushing buffered items on shutdown or overflow, under one of three
//! policies: flush everything, flush until a deadline, or drop everything.

use crate::time::{instant_now, nanos_since, span_since, TimeSpan};
use std::collections::VecDeque;
use vstd::prelude::*;

verus! {

/// How a drain treats the pending items.
#[derive(Debug, Clone, Copy, PartialEq, Eq)]
pub enum DrainPolicy {
    /// Flush all pending items regardless of time.
    Immediate,
    /// Flush items until the given span has passed; drop the rest.
    Timeout(TimeSpan),
    /// Drop all pending items.
    Drop,
}

/// What a drain did.
#[derive(Debug)]
pub struct DrainResult {
    pub flushed: usize,
    pub dropped: usize,
    pub elapsed: TimeSpan,
    /// The readings, in nanoseconds since the drain began, that a timed drain
    /// compared with its limit: one before each item it handed over, and one
    /// more where it stopped with items left. Empty under the other policies.
    pub readings: Vec<u128>,
}

/// A queue of pending items and the policy for draining it.
#[derive(Debug)]
pub struct Drain {
    policy: DrainPolicy,
    queue: VecDeque<String>,
}

/// How many entries of `s` are `true`.
pub open spec fn count_true(s: Seq<bool>) -> nat {
    s.filter(|b: bool| b).len()
}

/// `f` was handed the text `item` and answered `ok`.
pub open spec fn flush_answered<F: Fn(&str) -> bool>(f: F, item: Seq<char>, ok: bool) -> bool {
    exists|s: &str| s@ == item && #[trigger] f.ensures((s,), ok)
}

/// `f` was handed the first `answers.len()` items of `items`, in order, and
/// answered with `answers`.
pub open spec fn flushed_in_order<F: Fn(&str) -> bool>(f: F, items: Seq<String>, answers: Seq<bool>) -> bool {
    &&& answers.len() <= items.len()
    &&& forall|i: int| 0 <= i < answers.len() ==> flush_answered(f, #[trigger] items[i]@, answers[i])
}

proof fn lemma_count_true_push(s: Seq<bool>, b: bool)
    ensures
        count_true(s.push(b)) == count_true(s) + if b { 1nat } else { 0nat },
        count_true(s) <= s.len(),
{
    s.lemma_filter_push(b, |b: bool| b);
    s.lemma_filter_len(|b: bool| b);
}

impl Drain {
    /// The items waiting to be drained, oldest first.
    pub closed spec fn spec_queue(&self) -> Seq<String> {
        self.queue@
    }

    /// The drain's policy.
    pub closed spec fn spec_policy(&self) -> DrainPolicy {
        self.policy
    }

    /// An empty drain with the given policy.
    pub fn new(policy: DrainPolicy) -> (r: Self)
        ensures
            r.spec_policy() == policy,
            r.spec_queue() == Seq::<String>::empty(),
    {
        Drain { policy, queue: VecDeque::new() }
    }

    /// Queues `item` behind the pending ones.
    pub fn push(&mut self, item: String)
        ensures
            final(self).spec_queue() == old(self).spec_queue().push(item),
            final(self).spec_policy() == old(self).spec_policy(),
    {
        self.queue.push_back(item);
    }

    /// The number of pending items.
    pub fn pending(&self) -> (r: usize)
        ensures
            r == self.spec_queue().len(),
    {
        self.queue.len()
    }

    /// Drains the queue by the policy, handing items oldest first to
    /// `flush_fn`, which answers whether it flushed the item. Under `Drop`
    /// nothing is handed over; under `Immediate` every item is; under
    /// `Timeout` items are handed over while the time elapsed since the drain
    /// began, read before each item, is below the span (none at all when the
    /// span is zero), and the rest are dropped; the readings come back in the
    /// result. Under every policy an item counts as dropped unless it was
    /// flushed. Afterwards nothing is pending.
    pub fn execute<F: Fn(&str) -> bool>(&mut self, flush_fn: F) -> (r: DrainResult)
        requires
            forall|s: &str| #[trigger] flush_fn.requires((s,)),
        ensures
            final(self).spec_queue() == Seq::<String>::empty(),
            final(self).spec_policy() == old(self).spec_policy(),
            old(self).spec_policy() == DrainPolicy::Drop ==> r.flushed == 0 && r.dropped
                == old(self).spec_queue().len() && r.readings@ == Seq::<u128>::empty(),
            old(self).spec_policy() == DrainPolicy::Immediate ==> exists|answers: Seq<bool>|
                {
                    &&& answers.len() == old(self).spec_queue().len()
                    &&& flushed_in_order(flush_fn, old(self).spec_queue(), answers)
                    &&& r.flushed == count_true(answers)
                    &&& r.dropped == old(self).spec_queue().len() - r.flushed
                    &&& r.readings@ == Seq::<u128>::empty()
                },
            old(self).spec_policy() matches DrainPolicy::Timeout(limit) ==> exists|answers: Seq<bool>|
                {
                    &&& flushed_in_order(flush_fn, old(self).spec_queue(), answers)
                    &&& r.flushed == count_true(answers)
                    &&& r.dropped == old(self).spec_queue().len() - r.flushed
                    &&& limit.spec_nanos() == 0 ==> answers.len() == 0
                    &&& r.readings@.len() == answers.len() + if answers.len() < old(self).spec_queue().len() {
                        1int
                    } else {
                        0int
                    }
                    &&& forall|j: int| 0 <= j < answers.len() ==> #[trigger] r.readings@[j] < limit.spec_nanos()
                    &&& answers.len() < old(self).spec_queue().len() ==> r.readings@[answers.len() as int]
                        >= limit.spec_nanos()
                },
    {
        let start = instant_now();
        let total = self.queue.len();
        let ghost orig = self.queue@;
        match self.policy {
            DrainPolicy::Drop => {
                self.queue.clear();
                DrainResult {
                    flushed: 0,
                    dropped: total,
                    elapsed: span_since(&start),
                    readings: Vec::new(),
                }
            },
            DrainPolicy::Immediate => {
                let ghost mut answers: Seq<bool> = Seq::empty();
                let mut flushed: usize = 0;
                while self.queue.len() > 0
                    invariant
                        forall|s: &str| #[trigger] flush_fn.requires((s,)),
                        total == orig.len(),
                        answers.len() <= orig.len(),
                        self.queue@ == orig.skip(answers.len() as int),
                        flushed_in_order(flush_fn, orig, answers),
                        flushed == count_true(answers),
                        self.policy == DrainPolicy::Immediate,
                    decreases self.queue@.len(),
                {
                    let item = self.queue.pop_front().unwrap();
                    let s = item.as_str();
                    let ok = flush_fn(s);
                    proof {
                        lemma_count_true_push(answers, ok);
                        assert(item == orig[answers.len() as int]);
                        assert(flush_answered(flush_fn, orig[answers.len() as int]@, ok));
                        answers = answers.push(ok);
                        assert(self.queue@ =~= orig.skip(answers.len() as int));
                        lemma_count_true_push(answers, ok);
                    }
                    if ok {
                        flushed = flushed + 1;
                    }
                }
                proof {
                    assert(answers.len() == orig.len());
                    lemma_count_true_push(answers, true);
                }
                DrainResult {
                    flushed,
                    dropped: total - flushed,
                    elapsed: span_since(&start),
                    readings: Vec::new(),
                }
            },
            DrainPolicy::Timeout(limit) => {
                let limit_nanos = limit.as_nanos();
                let ghost mut answers: Seq<bool> = Seq::empty();
                let mut readings: Vec<u128> = Vec::new();
                let mut flushed: usize = 0;
                let mut stopped = false;
                while self.queue.len() > 0 && !stopped
                    invariant
                        forall|s: &str| #[trigger] flush_fn.requires((s,)),
                        total == orig.len(),
                        answers.len() <= orig.len(),
                        self.queue@ == orig.skip(answers.len() as int),
                        flushed_in_order(flush_fn, orig, answers),
                        flushed == count_true(answers),
                        self.policy == DrainPolicy::Timeout(limit),
                        limit_nanos == limit.spec_nanos(),
                        readings@.len() == answers.len() + if stopped {
                            1int
                        } else {
                            0int
                        },
                        forall|j: int| 0 <= j < answers.len() ==> #[trigger] readings@[j] < limit_nanos,
                        stopped ==> answers.len() < orig.len() && readings@[answers.len() as int]
                            >= limit_nanos,
                    decreases self.queue@.len() + if stopped {
                        0int
                    } else {
                        1int
                    },
                {
                    let now = nanos_since(&start);
                    readings.push(now);
                    if now >= limit_nanos {
                        stopped = true;
                    } else {
                        let item = self.queue.pop_front().unwrap();
                        let s = item.as_str();
                        let ok = flush_fn(s);
                        proof {
                            lemma_count_true_push(answers, ok);
                            assert(item == orig[answers.len() as int]);
                            assert(flush_answered(flush_fn, orig[answers.len() as int]@, ok));
                            answers = answers.push(ok);
                            assert(self.queue@ =~= orig.skip(answers.len() as int));
                            lemma_count_true_push(answers, ok);
                        }
                        if ok {
                            flushed = flushed + 1;
                        }
                    }
                }
                self.queue.clear();
                proof {
                    lemma_count_true_push(answers, true);
                    if !stopped {
                        assert(answers.len() == orig.len());
                    }
                    if limit_nanos == 0 && answers.len() > 0 {
                        assert(readings@[0] < limit_nanos);
                    }
                }
                DrainResult { flushed, dropped: total - flushed, elapsed: span_since(&start), readings }
            },
        }
    }
}

} // verus!
