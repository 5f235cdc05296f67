//! A circuit breaker: after enough failures it opens and refuses requests,
//! after a timeout it lets probe requests through (half-open), and enough
//! successful probes close it again.

use crate::time::{elapsed_between, elapsed_nanos, Clock, TimeSpan};
use vstd::prelude::*;

verus! {

/// The three states of a breaker.
#[derive(Debug, Clone, Copy, PartialEq, Eq, Structural)]
pub enum CircuitState {
    Closed,
    Open,
    HalfOpen,
}

/// The part of a breaker that its behaviour depends on.
pub ghost struct BreakerView {
    pub state: CircuitState,
    pub failure_count: nat,
    pub success_count: nat,
    pub failure_threshold: nat,
    pub success_threshold: nat,
    pub timeout: nat,
    /// The reading of the breaker's clock at the last recorded failure.
    pub last_failure: Option<u128>,
}

/// The breaker after a successful request.
pub open spec fn after_success(b: BreakerView) -> BreakerView {
    match b.state {
        CircuitState::HalfOpen => if b.success_count + 1 >= b.success_threshold {
            BreakerView { state: CircuitState::Closed, failure_count: 0, success_count: 0, ..b }
        } else {
            BreakerView { success_count: b.success_count + 1, ..b }
        },
        CircuitState::Closed => BreakerView { failure_count: 0, ..b },
        CircuitState::Open => b,
    }
}

/// The breaker after a request that failed at clock reading `now`.
pub open spec fn after_failure(b: BreakerView, now: u128) -> BreakerView {
    let counted = BreakerView { failure_count: b.failure_count + 1, last_failure: Some(now), ..b };
    match b.state {
        CircuitState::Closed => if counted.failure_count >= b.failure_threshold {
            BreakerView { state: CircuitState::Open, ..counted }
        } else {
            counted
        },
        CircuitState::HalfOpen => BreakerView { state: CircuitState::Open, ..counted },
        CircuitState::Open => counted,
    }
}

/// Whether a request asked for at clock reading `now` is let through: an open
/// breaker refuses until its timeout has passed since the last failure.
pub open spec fn allows(b: BreakerView, now: u128) -> bool {
    match b.state {
        CircuitState::Closed => true,
        CircuitState::HalfOpen => true,
        CircuitState::Open => match b.last_failure {
            Some(t) => elapsed_between(t, now) >= b.timeout,
            None => false,
        },
    }
}

/// The breaker after a request was asked for at clock reading `now`: an open
/// breaker whose timeout has passed turns half-open with no successes
/// counted.
pub open spec fn after_request(b: BreakerView, now: u128) -> BreakerView {
    if b.state == CircuitState::Open && allows(b, now) {
        BreakerView { state: CircuitState::HalfOpen, success_count: 0, ..b }
    } else {
        b
    }
}

/// The breaker after failed requests in a row, at the clock readings `times`.
pub open spec fn after_failures(b: BreakerView, times: Seq<u128>) -> BreakerView
    decreases times.len(),
{
    if times.len() == 0 {
        b
    } else {
        after_failure(after_failures(b, times.drop_last()), times.last())
    }
}

/// The breaker after `n` successful requests in a row.
pub open spec fn after_successes(b: BreakerView, n: nat) -> BreakerView
    decreases n,
{
    if n == 0 {
        b
    } else {
        after_success(after_successes(b, (n - 1) as nat))
    }
}

/// A breaker as `new` makes it.
pub open spec fn fresh_breaker(failure_threshold: nat, success_threshold: nat, timeout: nat) -> BreakerView {
    BreakerView {
        state: CircuitState::Closed,
        failure_count: 0,
        success_count: 0,
        failure_threshold,
        success_threshold,
        timeout,
        last_failure: None,
    }
}

/// Successes are counted only while probing: outside a probe the count is 0,
/// and while probing it stays below the number that closes the breaker.
pub open spec fn breaker_wf(b: BreakerView) -> bool {
    b.success_count == 0 || b.success_count < b.success_threshold
}

#[derive(Debug)]
pub struct CircuitBreaker {
    state: CircuitState,
    failure_count: u32,
    failure_threshold: u32,
    success_threshold: u32,
    success_count: u32,
    timeout: TimeSpan,
    last_failure: Option<u128>,
    clock: Clock,
}

impl View for CircuitBreaker {
    type V = BreakerView;

    closed spec fn view(&self) -> BreakerView {
        BreakerView {
            state: self.state,
            failure_count: self.failure_count as nat,
            success_count: self.success_count as nat,
            failure_threshold: self.failure_threshold as nat,
            success_threshold: self.success_threshold as nat,
            timeout: self.timeout.spec_nanos(),
            last_failure: self.last_failure,
        }
    }
}

impl CircuitBreaker {
    /// Well-formedness (see [`breaker_wf`]).
    pub open spec fn wf(&self) -> bool {
        breaker_wf(self@)
    }

    /// A closed breaker with no failures counted.
    pub fn new(failure_threshold: u32, success_threshold: u32, timeout: TimeSpan) -> (r: Self)
        ensures
            r@ == fresh_breaker(failure_threshold as nat, success_threshold as nat, timeout.spec_nanos()),
            r.wf(),
    {
        CircuitBreaker {
            state: CircuitState::Closed,
            failure_count: 0,
            failure_threshold,
            success_threshold,
            success_count: 0,
            timeout,
            last_failure: None,
            clock: Clock::start(),
        }
    }

    /// The current state.
    pub fn state(&self) -> (r: &CircuitState)
        ensures
            *r == self@.state,
    {
        &self.state
    }

    /// Whether the breaker is open.
    pub fn is_open(&self) -> (r: bool)
        ensures
            r == (self@.state == CircuitState::Open),
    {
        self.state == CircuitState::Open
    }

    /// Whether the breaker is closed.
    pub fn is_closed(&self) -> (r: bool)
        ensures
            r == (self@.state == CircuitState::Closed),
    {
        self.state == CircuitState::Closed
    }

    /// The number of failures counted since the breaker last closed or saw a
    /// success while closed.
    pub fn failure_count(&self) -> (r: u32)
        ensures
            r == self@.failure_count,
    {
        self.failure_count
    }

    /// The latest reading of the breaker's clock that a call took.
    pub closed spec fn spec_clock(&self) -> u128 {
        self.clock.spec_last()
    }

    /// A reading of the breaker's clock: nanoseconds since the breaker was
    /// made, no earlier than the latest reading a call took.
    pub fn now(&self) -> (r: u128)
        ensures
            r >= self.spec_clock(),
    {
        self.clock.now()
    }

    /// Decides whether a request asked for at clock reading `now` may go
    /// through (see [`allows`] and [`after_request`]).
    pub fn allow_request_at(&mut self, now: u128) -> (r: bool)
        requires
            old(self).wf(),
        ensures
            r == allows(old(self)@, now),
            final(self)@ == after_request(old(self)@, now),
            final(self).wf(),
            final(self).spec_clock() == old(self).spec_clock(),
    {
        match self.state {
            CircuitState::Closed => true,
            CircuitState::Open => {
                match self.last_failure {
                    Some(t) => {
                        if elapsed_nanos(t, now) >= self.timeout.as_nanos() {
                            self.state = CircuitState::HalfOpen;
                            self.success_count = 0;
                            true
                        } else {
                            false
                        }
                    },
                    None => false,
                }
            },
            CircuitState::HalfOpen => true,
        }
    }

    /// Decides whether a request may go through now, by the breaker's clock:
    /// the breaker reads its clock once, at the call, no earlier than any
    /// reading it took before (among them the one of its last failure), and
    /// decides by that reading.
    pub fn allow_request(&mut self) -> (r: bool)
        requires
            old(self).wf(),
        ensures
            final(self).wf(),
            request_outcome(*old(self), *final(self), r),
            exists|now: u128|
                #![trigger after_request(old(self)@, now)]
                r == allows(old(self)@, now) && final(self)@ == after_request(old(self)@, now),
            final(self).spec_clock() >= old(self).spec_clock(),
            old(self)@.state != CircuitState::Open ==> r && final(self)@ == old(self)@,
            old(self)@.last_failure matches Some(t) && old(self)@.state == CircuitState::Open
                && final(self).spec_clock() >= t + old(self)@.timeout ==> r && final(self)@.state
                == CircuitState::HalfOpen && final(self)@.success_count == 0,
            old(self)@.last_failure matches Some(t) && old(self)@.state == CircuitState::Open && t
                <= final(self).spec_clock() && final(self).spec_clock() < t + old(self)@.timeout ==> !r
                && final(self)@ == old(self)@,
    {
        let now = self.clock.tick();
        let r = self.allow_request_at(now);
        proof {
            assert(r == allows(old(self)@, now) && self@ == after_request(old(self)@, now));
        }
        r
    }

    /// Records a successful request.
    pub fn record_success(&mut self)
        requires
            old(self).wf(),
        ensures
            final(self)@ == after_success(old(self)@),
            final(self).wf(),
            final(self).spec_clock() == old(self).spec_clock(),
    {
        match self.state {
            CircuitState::HalfOpen => {
                self.success_count = self.success_count + 1;
                if self.success_count >= self.success_threshold {
                    self.state = CircuitState::Closed;
                    self.failure_count = 0;
                    self.success_count = 0;
                }
            },
            CircuitState::Closed => {
                self.failure_count = 0;
            },
            _ => {},
        }
    }

    /// Records a request that failed at clock reading `now`.
    pub fn record_failure_at(&mut self, now: u128)
        requires
            old(self).wf(),
            old(self)@.failure_count < u32::MAX,
        ensures
            final(self)@ == after_failure(old(self)@, now),
            final(self).wf(),
            final(self).spec_clock() == old(self).spec_clock(),
    {
        self.failure_count = self.failure_count + 1;
        self.last_failure = Some(now);
        match self.state {
            CircuitState::Closed => {
                if self.failure_count >= self.failure_threshold {
                    self.state = CircuitState::Open;
                }
            },
            CircuitState::HalfOpen => {
                self.state = CircuitState::Open;
            },
            _ => {},
        }
    }

    /// Records a request that failed now, by the breaker's clock: the
    /// failure is remembered at a reading no earlier than any taken before.
    pub fn record_failure(&mut self)
        requires
            old(self).wf(),
            old(self)@.failure_count < u32::MAX,
        ensures
            final(self).wf(),
            exists|now: u128| #[trigger] after_failure(old(self)@, now) == final(self)@,
            final(self).spec_clock() >= old(self).spec_clock(),
            final(self)@ == after_failure(old(self)@, final(self).spec_clock()),
            final(self)@.last_failure == Some(final(self).spec_clock()),
    {
        let now = self.clock.tick();
        self.record_failure_at(now);
    }
}

/// What [`CircuitBreaker::allow_request`] does, from `before` to `after`,
/// answering `r`: it takes a reading of the breaker's clock no earlier than
/// the ones before and decides by it.
pub open spec fn request_outcome(before: CircuitBreaker, after: CircuitBreaker, r: bool) -> bool {
    let now = after.spec_clock();
    &&& now >= before.spec_clock()
    &&& r == allows(before@, now)
    &&& after@ == after_request(before@, now)
}

/// A closed or half-open breaker lets every request through unchanged. An
/// open breaker whose last failure was at reading `t` lets the request
/// through, turning half-open with no successes counted, once the reading
/// the call takes is the timeout or more after `t`; while that reading lies
/// less than the timeout after `t` it refuses and stays as it was. An open
/// breaker with no failure recorded refuses.
pub proof fn lemma_request_by_elapsed(before: CircuitBreaker, after: CircuitBreaker, r: bool)
    requires
        request_outcome(before, after, r),
    ensures
        after.spec_clock() >= before.spec_clock(),
        before@.state != CircuitState::Open ==> r && after@ == before@,
        before@.last_failure matches Some(t) && before@.state == CircuitState::Open && after.spec_clock()
            >= t + before@.timeout ==> r && after@.state == CircuitState::HalfOpen && after@.success_count == 0
            && after@.failure_count == before@.failure_count,
        before@.last_failure matches Some(t) && before@.state == CircuitState::Open && t <= after.spec_clock()
            && after.spec_clock() < t + before@.timeout ==> !r && after@ == before@,
        before@.state == CircuitState::Open && before@.last_failure is None ==> !r && after@ == before@,
{
}

/// A failure that [`CircuitBreaker::record_failure`] records is remembered at
/// the reading of the breaker's clock taken by that call, so a request asked
/// for later on the same clock is measured from it: once that clock has moved
/// on by the timeout since the failure, an open breaker lets a probe through.
pub proof fn lemma_probe_after_recorded_failure(
    failed: CircuitBreaker,
    before: CircuitBreaker,
    after: CircuitBreaker,
    r: bool,
)
    requires
        failed@.state == CircuitState::Open,
        failed@.last_failure == Some(failed.spec_clock()),
        before@ == failed@,
        before.spec_clock() >= failed.spec_clock(),
        request_outcome(before, after, r),
        after.spec_clock() >= failed.spec_clock() + failed@.timeout,
    ensures
        r,
        after@.state == CircuitState::HalfOpen,
{
}

/// Every operation keeps a breaker well-formed.
pub proof fn lemma_operations_keep_wf(b: BreakerView, now: u128)
    requires
        breaker_wf(b),
    ensures
        breaker_wf(after_success(b)),
        breaker_wf(after_failure(b, now)),
        breaker_wf(after_request(b, now)),
{
}

/// A closed breaker with no failures counted opens after exactly
/// `max(failure_threshold, 1)` failures in a row, whenever they happen, and
/// stays open under further failures; it remembers the last of them.
pub proof fn lemma_consecutive_failures_open(b: BreakerView, times: Seq<u128>)
    requires
        b.state == CircuitState::Closed,
        b.failure_count == 0,
    ensures
        after_failures(b, times).failure_count == times.len(),
        after_failures(b, times).failure_threshold == b.failure_threshold,
        after_failures(b, times).timeout == b.timeout,
        (after_failures(b, times).state == CircuitState::Open) <==> (times.len() >= 1 && times.len()
            >= b.failure_threshold),
        after_failures(b, times).state != CircuitState::HalfOpen,
        times.len() > 0 ==> after_failures(b, times).last_failure == Some(times.last()),
    decreases times.len(),
{
    if times.len() > 0 {
        lemma_consecutive_failures_open(b, times.drop_last());
        let p = after_failures(b, times.drop_last());
        assert(after_failures(b, times) == after_failure(p, times.last()));
        if p.state == CircuitState::Open {
            assert(after_failure(p, times.last()).state == CircuitState::Open);
        } else {
            assert(p.state == CircuitState::Closed);
        }
    }
}

/// An open breaker whose last failure was at clock reading `t` refuses every
/// request asked for before its timeout has passed since `t`, and is left as
/// it was.
pub proof fn lemma_open_refuses_before_timeout(b: BreakerView, t: u128, now: u128)
    requires
        b.state == CircuitState::Open,
        b.last_failure == Some(t),
        elapsed_between(t, now) < b.timeout,
    ensures
        !allows(b, now),
        after_request(b, now) == b,
{
}

/// Once the timeout has passed since the last failure, an open breaker lets a
/// probe through and turns half-open.
pub proof fn lemma_open_probes_after_timeout(b: BreakerView, t: u128, now: u128)
    requires
        b.state == CircuitState::Open,
        b.last_failure == Some(t),
        elapsed_between(t, now) >= b.timeout,
    ensures
        allows(b, now),
        after_request(b, now).state == CircuitState::HalfOpen,
        after_request(b, now).success_count == 0,
{
}

/// A failure while half-open reopens the breaker.
pub proof fn lemma_half_open_failure_reopens(b: BreakerView, now: u128)
    requires
        b.state == CircuitState::HalfOpen,
    ensures
        after_failure(b, now).state == CircuitState::Open,
        after_failure(b, now).last_failure == Some(now),
{
}

/// A half-open breaker that has just started probing closes after
/// `max(success_threshold, 1)` successes in a row, with both counts reset, and
/// stays half-open before that.
pub proof fn lemma_half_open_successes_close(b: BreakerView, n: nat)
    requires
        b.state == CircuitState::HalfOpen,
        b.success_count == 0,
        1 <= n,
        n <= b.success_threshold || n == 1,
    ensures
        after_successes(b, n).success_threshold == b.success_threshold,
        n >= b.success_threshold ==> after_successes(b, n).state == CircuitState::Closed
            && after_successes(b, n).failure_count == 0 && after_successes(b, n).success_count == 0,
        n < b.success_threshold ==> after_successes(b, n).state == CircuitState::HalfOpen
            && after_successes(b, n).success_count == n,
    decreases n,
{
    let p = after_successes(b, (n - 1) as nat);
    assert(after_successes(b, n) == after_success(p));
    if n > 1 {
        lemma_half_open_successes_close(b, (n - 1) as nat);
        assert(p.state == CircuitState::HalfOpen && p.success_count == n - 1);
    } else {
        assert(p == b);
    }
}

/// A success while closed clears the failure count and leaves the breaker
/// closed.
pub proof fn lemma_closed_success_resets(b: BreakerView)
    requires
        b.state == CircuitState::Closed,
    ensures
        after_success(b).state == CircuitState::Closed,
        after_success(b).failure_count == 0,
{
}

/// Only an open breaker refuses a request.
pub proof fn lemma_only_open_refuses(b: BreakerView, now: u128)
    ensures
        !allows(b, now) ==> b.state == CircuitState::Open,
{
}

} // verus!
