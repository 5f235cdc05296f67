//! Summaries and text lines drawn from an audit log.

use crate::audit::{is_kind, kind_name, AuditEvent, AuditEventKind, AuditLog};
use crate::text::{decimal, push_decimal, push_text};
use vstd::prelude::*;

verus! {

/// Reads an audit log.
pub struct AuditReporter<'a> {
    log: &'a AuditLog,
}

/// Counts of the events in a log, by kind.
#[derive(Debug, Clone)]
pub struct AuditSummary {
    pub total: usize,
    pub alerts_fired: usize,
    pub alerts_suppressed: usize,
    pub webhooks_sent: usize,
    pub webhooks_failed: usize,
    pub circuit_breaker_trips: usize,
}

/// How many events of `events` have kind `k`.
pub open spec fn count_kind(events: Seq<AuditEvent>, k: AuditEventKind) -> nat {
    events.filter(is_kind(k)).len()
}

/// The line that describes an event:
/// `[timestamp] [process] Kind: message`, without the process part when the
/// event names none.
pub open spec fn event_line(e: AuditEvent) -> Seq<char> {
    let label = match e.process {
        Some(p) => " ["@ + p@ + "]"@,
        None => Seq::<char>::empty(),
    };
    "["@ + decimal(e.timestamp as nat) + "]"@ + label + " "@ + kind_name(e.kind) + ": "@ + e.message@
}

impl<'a> AuditReporter<'a> {
    /// The log this reporter reads.
    pub closed spec fn spec_log(&self) -> &'a AuditLog {
        self.log
    }

    /// A reporter for `log`.
    pub fn new(log: &'a AuditLog) -> (r: Self)
        ensures
            r.spec_log() == log,
    {
        AuditReporter { log }
    }

    /// The counts of the log's events, by kind.
    pub fn summary(&self) -> (r: AuditSummary)
        ensures
            r.total == self.spec_log()@.len(),
            r.alerts_fired == count_kind(self.spec_log()@, AuditEventKind::AlertFired),
            r.alerts_suppressed == count_kind(self.spec_log()@, AuditEventKind::AlertSuppressed),
            r.webhooks_sent == count_kind(self.spec_log()@, AuditEventKind::WebhookSent),
            r.webhooks_failed == count_kind(self.spec_log()@, AuditEventKind::WebhookFailed),
            r.circuit_breaker_trips == count_kind(
                self.spec_log()@,
                AuditEventKind::CircuitBreakerOpened,
            ),
    {
        let total = self.log.len();
        let alerts_fired = self.log.filter_by_kind(&AuditEventKind::AlertFired).len();
        let alerts_suppressed = self.log.filter_by_kind(&AuditEventKind::AlertSuppressed).len();
        let webhooks_sent = self.log.filter_by_kind(&AuditEventKind::WebhookSent).len();
        let webhooks_failed = self.log.filter_by_kind(&AuditEventKind::WebhookFailed).len();
        let circuit_breaker_trips = self.log.filter_by_kind(
            &AuditEventKind::CircuitBreakerOpened,
        ).len();
        AuditSummary {
            total,
            alerts_fired,
            alerts_suppressed,
            webhooks_sent,
            webhooks_failed,
            circuit_breaker_trips,
        }
    }

    /// The `n` most recent events, newest first (all of them when the log
    /// holds fewer).
    pub fn recent_events(&self, n: usize) -> (r: Vec<&'a AuditEvent>)
        ensures
            r@.len() == if n < self.spec_log()@.len() {
                n as nat
            } else {
                self.spec_log()@.len()
            },
            forall|j: int|
                0 <= j < r@.len() ==> *#[trigger] r@[j] == self.spec_log()@[self.spec_log()@.len() - 1 - j],
    {
        let events = self.log.events();
        let len = events.len();
        let mut out: Vec<&'a AuditEvent> = Vec::new();
        let mut j: usize = 0;
        while j < n && j < len
            invariant
                events@ == self.spec_log()@,
                len == events@.len(),
                j <= len,
                j <= n,
                out@.len() == j,
                forall|m: int| 0 <= m < j ==> *#[trigger] out@[m] == events@[len - 1 - m],
            decreases len - j,
        {
            out.push(&events[len - 1 - j]);
            j = j + 1;
        }
        out
    }

    /// The line that describes `event` (see [`event_line`]).
    pub fn format_event(event: &AuditEvent) -> (r: String)
        ensures
            r@ == event_line(*event),
    {
        let mut s = String::new();
        push_text(&mut s, "[");
        push_decimal(&mut s, event.timestamp as u128);
        push_text(&mut s, "]");
        match &event.process {
            Some(p) => {
                push_text(&mut s, " [");
                push_text(&mut s, p.as_str());
                push_text(&mut s, "]");
            },
            None => {},
        }
        push_text(&mut s, " ");
        push_text(&mut s, event.kind.name());
        push_text(&mut s, ": ");
        push_text(&mut s, event.message.as_str());
        proof {
            assert(s@ =~= event_line(*event));
        }
        s
    }
}

} // verus!
