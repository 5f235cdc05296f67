//! Sends alert notifications to a webhook, guarded by a circuit breaker and a
//! per-process throttle.
//!
//! Sending is the caller's part: [`Notifier::prepare`] decides whether an alert
//! may go out, the caller sends it, and [`Notifier::complete`] takes the
//! outcome and answers what the notification came to.

use crate::circuit_breaker::{
    after_failure, after_request, after_success, allows, breaker_wf, BreakerView, CircuitBreaker, CircuitState,
};
use crate::throttle::{throttle_allows, Throttle};
use crate::time::{instant_now, TimeSpan};
use crate::webhook::WebhookClient;
use std::time::Instant;
use vstd::prelude::*;

verus! {

/// What became of a notification.
#[derive(Debug, Clone, PartialEq)]
pub enum NotifyResult {
    Sent,
    Throttled,
    CircuitOpen,
    Failed(String),
}

/// What a notifier answers before sending, for a breaker `b`, the time `last`
/// the process last got through the throttle, the throttle window, a reading
/// `breaker_now` of the breaker's clock and a reading `now` of the throttle's
/// clock: `None` when the alert should be sent.
pub open spec fn prepare_outcome(
    b: BreakerView,
    last: Option<u128>,
    window: nat,
    breaker_now: u128,
    now: u128,
) -> Option<NotifyResult> {
    if !allows(b, breaker_now) {
        Some(NotifyResult::CircuitOpen)
    } else if !throttle_allows(last, now, window) {
        Some(NotifyResult::Throttled)
    } else {
        None
    }
}

/// A webhook notifier with its breaker and throttle.
#[derive(Debug)]
pub struct Notifier {
    client: WebhookClient,
    throttle: Throttle,
    breaker: CircuitBreaker,
    last_attempt: Option<Instant>,
    timeout: TimeSpan,
}

impl Notifier {
    /// The breaker's state.
    pub closed spec fn spec_breaker(&self) -> BreakerView {
        self.breaker@
    }

    /// The latest reading of the breaker's clock that a call took.
    pub closed spec fn spec_breaker_clock(&self) -> u128 {
        self.breaker.spec_clock()
    }

    /// The throttle.
    pub closed spec fn spec_throttle(&self) -> Throttle {
        self.throttle
    }

    /// The webhook's address.
    pub closed spec fn spec_url(&self) -> Seq<char> {
        self.client.spec_url()
    }

    /// The send timeout, in nanoseconds.
    pub closed spec fn spec_timeout(&self) -> nat {
        self.timeout.spec_nanos()
    }

    /// Whether a send was ever attempted.
    pub open spec fn spec_has_attempt(&self) -> bool {
        self.spec_last_attempt() is Some
    }

    /// When the last send was attempted, if ever.
    pub closed spec fn spec_last_attempt(&self) -> Option<Instant> {
        self.last_attempt
    }

    pub open spec fn wf(&self) -> bool {
        &&& breaker_wf(self.spec_breaker())
        &&& self.spec_throttle().wf()
    }

    /// The notifier to the same webhook with the same guards, in the same
    /// state, other than in `breaker` and `throttle`.
    pub open spec fn same_but_guards(&self, other: &Notifier) -> bool {
        &&& self.spec_url() == other.spec_url()
        &&& self.spec_timeout() == other.spec_timeout()
    }

    /// A notifier that has attempted nothing yet, with a timeout of ten
    /// seconds.
    pub fn new(client: WebhookClient, throttle: Throttle, breaker: CircuitBreaker) -> (r: Self)
        requires
            throttle.wf(),
            breaker.wf(),
        ensures
            r.wf(),
            r.spec_url() == client.spec_url(),
            r.spec_throttle() == throttle,
            r.spec_breaker() == breaker@,
            r.spec_timeout() == 10_000_000_000,
            r.spec_last_attempt() is None,
    {
        Notifier { client, throttle, breaker, last_attempt: None, timeout: TimeSpan::from_secs(10) }
    }

    /// The same notifier with the send timeout `timeout`.
    pub fn with_timeout(self, timeout: TimeSpan) -> (r: Self)
        ensures
            r.spec_url() == self.spec_url(),
            r.spec_throttle() == self.spec_throttle(),
            r.spec_breaker() == self.spec_breaker(),
            r.spec_timeout() == timeout.spec_nanos(),
            r.spec_last_attempt() == self.spec_last_attempt(),
            self.wf() ==> r.wf(),
    {
        Notifier { timeout, ..self }
    }

    /// Decides, for an alert about `process_name`, whether it may be sent,
    /// given a reading `breaker_now` of the breaker's clock and a reading
    /// `now` of the throttle's clock. The breaker is asked first; only then
    /// the throttle, which records `now` for the process when it lets the
    /// alert through. `None` means: send it now; the attempt is recorded.
    pub fn prepare_at(&mut self, process_name: &str, breaker_now: u128, now: u128) -> (r: Option<
        NotifyResult,
    >)
        requires
            old(self).wf(),
        ensures
            final(self).wf(),
            r == prepare_outcome(
                old(self).spec_breaker(),
                old(self).spec_throttle().last_of(process_name@),
                old(self).spec_throttle().spec_window(),
                breaker_now,
                now,
            ),
            final(self).spec_breaker() == after_request(old(self).spec_breaker(), breaker_now),
            final(self).spec_throttle().spec_window() == old(self).spec_throttle().spec_window(),
            final(self).spec_throttle().spec_last() == (if allows(old(self).spec_breaker(), breaker_now)
                && r is None {
                old(self).spec_throttle().spec_last().insert(process_name@, now)
            } else {
                old(self).spec_throttle().spec_last()
            }),
            r is Some ==> final(self).spec_last_attempt() == old(self).spec_last_attempt(),
            r is None ==> final(self).spec_last_attempt() is Some,
            final(self).same_but_guards(old(self)),
    {
        if !self.breaker.allow_request_at(breaker_now) {
            return Some(NotifyResult::CircuitOpen);
        }
        if !self.throttle.allow_at(process_name, now) {
            return Some(NotifyResult::Throttled);
        }
        self.last_attempt = Some(instant_now());
        None
    }

    /// [`Notifier::prepare_at`] with the readings taken from the breaker's
    /// and the throttle's clocks.
    pub fn prepare(&mut self, process_name: &str) -> (r: Option<NotifyResult>)
        requires
            old(self).wf(),
        ensures
            final(self).wf(),
            exists|breaker_now: u128, now: u128|
                #![trigger after_request(old(self).spec_breaker(), breaker_now), old(self).spec_throttle().spec_last().insert(process_name@, now)]
                {
                    &&& breaker_now >= old(self).spec_breaker_clock()
                    &&& now >= old(self).spec_throttle().spec_clock()
                    &&& r == prepare_outcome(
                        old(self).spec_breaker(),
                        old(self).spec_throttle().last_of(process_name@),
                        old(self).spec_throttle().spec_window(),
                        breaker_now,
                        now,
                    )
                    &&& final(self).spec_breaker() == after_request(old(self).spec_breaker(), breaker_now)
                    &&& final(self).spec_throttle().spec_last() == (if allows(
                        old(self).spec_breaker(),
                        breaker_now,
                    ) && r is None {
                        old(self).spec_throttle().spec_last().insert(process_name@, now)
                    } else {
                        old(self).spec_throttle().spec_last()
                    })
                },
            final(self).spec_throttle().spec_window() == old(self).spec_throttle().spec_window(),
            r is Some ==> final(self).spec_last_attempt() == old(self).spec_last_attempt(),
            r is None ==> final(self).spec_last_attempt() is Some,
            final(self).same_but_guards(old(self)),
    {
        let breaker_now = self.breaker.now();
        let now = self.throttle.now();
        let r = self.prepare_at(process_name, breaker_now, now);
        proof {
            assert(after_request(old(self).spec_breaker(), breaker_now) == self.spec_breaker());
            assert(old(self).spec_throttle().spec_last().insert(process_name@, now) == old(
                self,
            ).spec_throttle().spec_last().insert(process_name@, now));
        }
        r
    }

    /// Takes the outcome of a send that [`Notifier::prepare`] allowed, at a
    /// reading `breaker_now` of the breaker's clock: a success is recorded
    /// with the breaker and answered `Sent`, a failure is recorded at
    /// `breaker_now` and answered `Failed` with its message.
    pub fn complete_at(&mut self, outcome: Result<(), String>, breaker_now: u128) -> (r: NotifyResult)
        requires
            old(self).wf(),
            outcome is Err ==> old(self).spec_breaker().failure_count < u32::MAX,
        ensures
            final(self).wf(),
            match outcome {
                Ok(_) => r == NotifyResult::Sent && final(self).spec_breaker() == after_success(
                    old(self).spec_breaker(),
                ),
                Err(e) => r == NotifyResult::Failed(e) && final(self).spec_breaker() == after_failure(
                    old(self).spec_breaker(),
                    breaker_now,
                ),
            },
            final(self).spec_throttle() == old(self).spec_throttle(),
            final(self).spec_last_attempt() == old(self).spec_last_attempt(),
            final(self).same_but_guards(old(self)),
    {
        match outcome {
            Ok(()) => {
                self.breaker.record_success();
                NotifyResult::Sent
            },
            Err(e) => {
                self.breaker.record_failure_at(breaker_now);
                NotifyResult::Failed(e)
            },
        }
    }

    /// [`Notifier::complete_at`] with the reading taken from the breaker's
    /// clock.
    pub fn complete(&mut self, outcome: Result<(), String>) -> (r: NotifyResult)
        requires
            old(self).wf(),
            outcome is Err ==> old(self).spec_breaker().failure_count < u32::MAX,
        ensures
            final(self).wf(),
            exists|breaker_now: u128|
                #![trigger after_failure(old(self).spec_breaker(), breaker_now)]
                breaker_now >= old(self).spec_breaker_clock() && match outcome {
                    Ok(_) => r == NotifyResult::Sent && final(self).spec_breaker() == after_success(
                        old(self).spec_breaker(),
                    ),
                    Err(e) => r == NotifyResult::Failed(e) && final(self).spec_breaker() == after_failure(
                        old(self).spec_breaker(),
                        breaker_now,
                    ),
                },
            final(self).spec_throttle() == old(self).spec_throttle(),
            final(self).spec_last_attempt() == old(self).spec_last_attempt(),
            final(self).same_but_guards(old(self)),
    {
        let breaker_now = self.breaker.now();
        let r = self.complete_at(outcome, breaker_now);
        proof {
            assert(after_failure(old(self).spec_breaker(), breaker_now) == after_failure(
                old(self).spec_breaker(),
                breaker_now,
            ));
        }
        r
    }

    /// When the last send was attempted, if ever.
    pub fn last_attempt(&self) -> (r: Option<Instant>)
        ensures
            r == self.spec_last_attempt(),
    {
        self.last_attempt
    }

    /// Whether the breaker is closed.
    pub fn is_healthy(&self) -> (r: bool)
        ensures
            r == (self.spec_breaker().state == CircuitState::Closed),
    {
        self.breaker.is_closed()
    }

    /// The webhook client.
    pub fn client(&self) -> (r: &WebhookClient)
        ensures
            r.spec_url() == self.spec_url(),
    {
        &self.client
    }

    /// The send timeout.
    pub fn timeout(&self) -> (r: TimeSpan)
        ensures
            r.spec_nanos() == self.spec_timeout(),
    {
        self.timeout
    }

    /// The breaker.
    pub fn breaker(&self) -> (r: &CircuitBreaker)
        ensures
            r@ == self.spec_breaker(),
    {
        &self.breaker
    }
}

/// Once an alert about a process got through the throttle at `t`, a later
/// alert about it that the breaker lets pass is throttled until a whole
/// window has gone by, and goes out after that.
pub proof fn lemma_repeat_within_window_throttled(
    b: BreakerView,
    t: u128,
    window: nat,
    breaker_now: u128,
    now: u128,
)
    requires
        allows(b, breaker_now),
        t <= now,
    ensures
        now - t < window ==> prepare_outcome(b, Some(t), window, breaker_now, now) == Some(
            NotifyResult::Throttled,
        ),
        now - t >= window ==> prepare_outcome(b, Some(t), window, breaker_now, now) is None,
{
}

/// A breaker that refuses answers `CircuitOpen` whatever the throttle holds,
/// and the throttle is not consulted.
pub proof fn lemma_open_circuit_first(
    b: BreakerView,
    last: Option<u128>,
    window: nat,
    breaker_now: u128,
    now: u128,
)
    requires
        !allows(b, breaker_now),
    ensures
        prepare_outcome(b, last, window, breaker_now, now) == Some(NotifyResult::CircuitOpen),
{
}

} // verus!
