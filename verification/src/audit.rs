//! A bounded audit log of what the daemon did: when it is full, recording a
//! new event drops the oldest one.

use crate::time::unix_time_secs;
use std::collections::VecDeque;
use vstd::prelude::*;

verus! {

/// What an audit event is about.
#[derive(Debug, Clone, Copy, PartialEq, Eq, Structural)]
pub enum AuditEventKind {
    AlertFired,
    AlertSuppressed,
    WebhookSent,
    WebhookFailed,
    ConfigReloaded,
    ProcessAdded,
    ProcessRemoved,
    ThresholdBreached,
    CircuitBreakerOpened,
    CircuitBreakerClosed,
}

/// The name of a kind, as `{:?}` prints it.
pub open spec fn kind_name(k: AuditEventKind) -> Seq<char> {
    match k {
        AuditEventKind::AlertFired => "AlertFired"@,
        AuditEventKind::AlertSuppressed => "AlertSuppressed"@,
        AuditEventKind::WebhookSent => "WebhookSent"@,
        AuditEventKind::WebhookFailed => "WebhookFailed"@,
        AuditEventKind::ConfigReloaded => "ConfigReloaded"@,
        AuditEventKind::ProcessAdded => "ProcessAdded"@,
        AuditEventKind::ProcessRemoved => "ProcessRemoved"@,
        AuditEventKind::ThresholdBreached => "ThresholdBreached"@,
        AuditEventKind::CircuitBreakerOpened => "CircuitBreakerOpened"@,
        AuditEventKind::CircuitBreakerClosed => "CircuitBreakerClosed"@,
    }
}

impl AuditEventKind {
    /// The name of the kind, as `{:?}` prints it.
    pub fn name(&self) -> (r: &'static str)
        ensures
            r@ == kind_name(*self),
    {
        match self {
            AuditEventKind::AlertFired => "AlertFired",
            AuditEventKind::AlertSuppressed => "AlertSuppressed",
            AuditEventKind::WebhookSent => "WebhookSent",
            AuditEventKind::WebhookFailed => "WebhookFailed",
            AuditEventKind::ConfigReloaded => "ConfigReloaded",
            AuditEventKind::ProcessAdded => "ProcessAdded",
            AuditEventKind::ProcessRemoved => "ProcessRemoved",
            AuditEventKind::ThresholdBreached => "ThresholdBreached",
            AuditEventKind::CircuitBreakerOpened => "CircuitBreakerOpened",
            AuditEventKind::CircuitBreakerClosed => "CircuitBreakerClosed",
        }
    }
}

/// One recorded event.
#[derive(Debug, Clone)]
pub struct AuditEvent {
    /// Seconds since the Unix epoch when the event was made.
    pub timestamp: u64,
    pub kind: AuditEventKind,
    pub process: Option<String>,
    pub message: String,
}

impl AuditEvent {
    /// An event stamped `timestamp` seconds after the Unix epoch.
    pub fn new_at(kind: AuditEventKind, process: Option<String>, message: &str, timestamp: u64) -> (r: Self)
        ensures
            r.timestamp == timestamp,
            r.kind == kind,
            r.process == process,
            r.message@ == message@,
    {
        AuditEvent { timestamp, kind, process, message: message.to_owned() }
    }

    /// An event stamped with the current wall-clock time: `new_at` with the
    /// whole seconds since the Unix epoch, or 0 when the clock reads earlier.
    pub fn new(kind: AuditEventKind, process: Option<String>, message: &str) -> (r: Self)
        ensures
            r.kind == kind,
            r.process == process,
            r.message@ == message@,
    {
        AuditEvent::new_at(kind, process, message, unix_time_secs())
    }
}

/// Whether an event has kind `k`.
pub open spec fn is_kind(k: AuditEventKind) -> spec_fn(AuditEvent) -> bool {
    |e: AuditEvent| e.kind == k
}

/// Whether an event is about the process named `name`.
pub open spec fn is_about(name: Seq<char>) -> spec_fn(AuditEvent) -> bool {
    |e: AuditEvent| e.process matches Some(p) && p@ == name
}

/// The events that references point at.
pub open spec fn deref_events(s: Seq<&AuditEvent>) -> Seq<AuditEvent> {
    s.map_values(|e: &AuditEvent| *e)
}

/// The log after recording `e`: when it already holds `capacity` events or
/// more, the oldest one is dropped first.
pub open spec fn after_record(events: Seq<AuditEvent>, capacity: nat, e: AuditEvent) -> Seq<AuditEvent> {
    if events.len() >= capacity && events.len() > 0 {
        events.drop_first().push(e)
    } else {
        events.push(e)
    }
}

/// A log of the most recent events, oldest first.
pub struct AuditLog {
    events: VecDeque<AuditEvent>,
    capacity: usize,
}

impl View for AuditLog {
    type V = Seq<AuditEvent>;

    closed spec fn view(&self) -> Seq<AuditEvent> {
        self.events@
    }
}

impl AuditLog {
    /// The number of events the log is meant to hold.
    pub closed spec fn spec_capacity(&self) -> nat {
        self.capacity as nat
    }

    /// The log holds at most its capacity of events (at most one when the
    /// capacity is 0).
    pub open spec fn wf(&self) -> bool {
        self@.len() <= self.spec_capacity() || self@.len() <= 1
    }

    /// An empty log that keeps the `capacity` most recent events (the most
    /// recent one when `capacity` is 0).
    pub fn new(capacity: usize) -> (r: Self)
        ensures
            r.wf(),
            r@ == Seq::<AuditEvent>::empty(),
            r.spec_capacity() == capacity,
    {
        AuditLog { events: VecDeque::with_capacity(capacity), capacity }
    }

    /// Records `event`, dropping the oldest event when the log is full.
    pub fn record(&mut self, event: AuditEvent)
        ensures
            final(self)@ == after_record(old(self)@, old(self).spec_capacity(), event),
            final(self).spec_capacity() == old(self).spec_capacity(),
            old(self).wf() ==> final(self).wf(),
    {
        if self.events.len() >= self.capacity {
            let _ = self.events.pop_front();
        }
        self.events.push_back(event);
        proof {
            assert(self@ =~= after_record(old(self)@, old(self).spec_capacity(), event));
        }
    }

    /// The events, oldest first.
    pub fn events(&self) -> (r: &VecDeque<AuditEvent>)
        ensures
            r@ == self@,
    {
        &self.events
    }

    /// The events of kind `kind`, oldest first.
    pub fn filter_by_kind(&self, kind: &AuditEventKind) -> (r: Vec<&AuditEvent>)
        ensures
            deref_events(r@) == self@.filter(is_kind(*kind)),
    {
        let mut out: Vec<&AuditEvent> = Vec::new();
        let n = self.events.len();
        let mut i: usize = 0;
        while i < n
            invariant
                n == self@.len(),
                i <= n,
                deref_events(out@) == self@.take(i as int).filter(is_kind(*kind)),
            decreases n - i,
        {
            let e = &self.events[i];
            proof {
                assert(self@.take(i + 1) =~= self@.take(i as int).push(self@[i as int]));
                self@.take(i as int).lemma_filter_push(self@[i as int], is_kind(*kind));
            }
            if e.kind == *kind {
                out.push(e);
            }
            i = i + 1;
            proof {
                assert(deref_events(out@) =~= self@.take(i as int).filter(is_kind(*kind)));
            }
        }
        proof {
            assert(self@.take(n as int) =~= self@);
        }
        out
    }

    /// The events about the process named `process`, oldest first.
    pub fn filter_by_process(&self, process: &str) -> (r: Vec<&AuditEvent>)
        ensures
            deref_events(r@) == self@.filter(is_about(process@)),
    {
        let target = process.to_owned();
        let mut out: Vec<&AuditEvent> = Vec::new();
        let n = self.events.len();
        let mut i: usize = 0;
        while i < n
            invariant
                n == self@.len(),
                i <= n,
                target@ == process@,
                deref_events(out@) == self@.take(i as int).filter(is_about(process@)),
            decreases n - i,
        {
            let e = &self.events[i];
            proof {
                assert(self@.take(i + 1) =~= self@.take(i as int).push(self@[i as int]));
                self@.take(i as int).lemma_filter_push(self@[i as int], is_about(process@));
            }
            let matches = match &e.process {
                Some(p) => *p == target,
                None => false,
            };
            if matches {
                out.push(e);
            }
            i = i + 1;
            proof {
                assert(deref_events(out@) =~= self@.take(i as int).filter(is_about(process@)));
            }
        }
        proof {
            assert(self@.take(n as int) =~= self@);
        }
        out
    }

    /// The number of events held.
    pub fn len(&self) -> (r: usize)
        ensures
            r == self@.len(),
    {
        self.events.len()
    }

    /// Whether the log holds no events.
    pub fn is_empty(&self) -> (r: bool)
        ensures
            r == (self@.len() == 0),
    {
        self.events.len() == 0
    }

    /// Drops every event.
    pub fn clear(&mut self)
        ensures
            final(self).wf(),
            final(self)@ == Seq::<AuditEvent>::empty(),
            final(self).spec_capacity() == old(self).spec_capacity(),
    {
        self.events.clear();
    }
}

/// A log never grows past its capacity (when the capacity is at least one),
/// the newest event is always the last one, and the events kept are the most
/// recent ones in the order they were recorded.
pub proof fn lemma_record_keeps_newest(events: Seq<AuditEvent>, capacity: nat, e: AuditEvent)
    requires
        events.len() <= capacity,
        capacity >= 1,
    ensures
        after_record(events, capacity, e).len() <= capacity,
        after_record(events, capacity, e).last() == e,
        after_record(events, capacity, e).drop_last() == events.subrange(
            events.len() - (after_record(events, capacity, e).len() - 1),
            events.len() as int,
        ),
{
    let r = after_record(events, capacity, e);
    if events.len() >= capacity && events.len() > 0 {
        assert(r.drop_last() =~= events.subrange(1, events.len() as int));
    } else {
        assert(r.drop_last() =~= events.subrange(0, events.len() as int));
    }
}

} // verus!
