//! Health of the daemon itself, judged from the share of failed self-checks.

use crate::text::{decimal, push_decimal, push_text, digit_char};
use crate::time::{instant_now, span_since, TimeSpan};
use std::time::Instant;
use vstd::prelude::*;

verus! {

/// The overall health.
#[derive(Debug, Clone, PartialEq)]
pub enum HealthStatus {
    Healthy,
    Degraded(String),
    Unhealthy(String),
}

/// A snapshot of the health.
#[derive(Debug, Clone)]
pub struct HealthReport {
    pub status: HealthStatus,
    pub uptime: TimeSpan,
    pub checks_passed: usize,
    pub checks_failed: usize,
    pub last_check: Instant,
}

/// The status part of a summary line.
pub open spec fn status_text(s: HealthStatus) -> Seq<char> {
    match s {
        HealthStatus::Healthy => "healthy"@,
        HealthStatus::Degraded(m) => "degraded: "@ + m@,
        HealthStatus::Unhealthy(m) => "unhealthy: "@ + m@,
    }
}

/// An uptime in tenths of a second, rounded to the nearest tenth; an uptime
/// halfway between two tenths goes to the even one.
pub open spec fn uptime_tenths(nanos: nat) -> nat {
    let q = nanos / 100_000_000;
    let rem = nanos % 100_000_000;
    if rem > 50_000_000 || (rem == 50_000_000 && q % 2 == 1) {
        q + 1
    } else {
        q
    }
}

/// An uptime with one decimal, such as `12.5`.
pub open spec fn uptime_text(nanos: nat) -> Seq<char> {
    decimal(uptime_tenths(nanos) / 10) + "."@ + seq![digit_char(uptime_tenths(nanos) % 10)]
}

/// The summary line of a report:
/// `status=... uptime=...s passed=... failed=...`.
pub open spec fn summary_text(r: HealthReport) -> Seq<char> {
    "status="@ + status_text(r.status) + " uptime="@ + uptime_text(r.uptime.spec_nanos()) + "s passed="@
        + decimal(r.checks_passed as nat) + " failed="@ + decimal(r.checks_failed as nat)
}

impl HealthReport {
    /// A report stamped with the current instant.
    pub fn new(status: HealthStatus, uptime: TimeSpan, passed: usize, failed: usize) -> (r: Self)
        ensures
            r.status == status,
            r.uptime == uptime,
            r.checks_passed == passed,
            r.checks_failed == failed,
    {
        HealthReport {
            status,
            uptime,
            checks_passed: passed,
            checks_failed: failed,
            last_check: instant_now(),
        }
    }

    /// Whether the status is `Healthy`.
    pub fn is_healthy(&self) -> (r: bool)
        ensures
            r == (self.status is Healthy),
    {
        match self.status {
            HealthStatus::Healthy => true,
            _ => false,
        }
    }

    /// The summary line (see [`summary_text`]).
    pub fn summary(&self) -> (r: String)
        ensures
            r@ == summary_text(*self),
    {
        let mut s = String::new();
        push_text(&mut s, "status=");
        match &self.status {
            HealthStatus::Healthy => push_text(&mut s, "healthy"),
            HealthStatus::Degraded(m) => {
                push_text(&mut s, "degraded: ");
                push_text(&mut s, m.as_str());
            },
            HealthStatus::Unhealthy(m) => {
                push_text(&mut s, "unhealthy: ");
                push_text(&mut s, m.as_str());
            },
        }
        push_text(&mut s, " uptime=");
        let nanos = self.uptime.as_nanos();
        let q = nanos / 100_000_000;
        let rem = nanos % 100_000_000;
        let tenths: u128 = if rem > 50_000_000 || (rem == 50_000_000 && q % 2 == 1) {
            q + 1
        } else {
            q
        };
        push_decimal(&mut s, tenths / 10);
        push_text(&mut s, ".");
        let ghost before = s@;
        push_decimal(&mut s, tenths % 10);
        proof {
            assert(decimal((tenths % 10) as nat) == seq![digit_char((tenths % 10) as nat)]);
        }
        push_text(&mut s, "s passed=");
        push_decimal(&mut s, self.checks_passed as u128);
        push_text(&mut s, " failed=");
        push_decimal(&mut s, self.checks_failed as u128);
        proof {
            assert(s@ =~= summary_text(*self));
        }
        s
    }
}

/// Whether `s` is the status that `passed` and `failed` checks give: no
/// failures is healthy; failures under half of all checks are degraded with
/// the message `<failed> checks failed`; half or more are unhealthy with the
/// message `<failed>/<total> checks failed`.
pub open spec fn is_status_for(s: HealthStatus, passed: nat, failed: nat) -> bool {
    if failed == 0 {
        s is Healthy
    } else if 2 * failed < passed + failed {
        s matches HealthStatus::Degraded(m) && m@ == decimal(failed) + " checks failed"@
    } else {
        s matches HealthStatus::Unhealthy(m) && m@ == decimal(failed) + "/"@ + decimal(passed + failed)
            + " checks failed"@
    }
}

/// Counts self-checks since the daemon started.
pub struct HealthChecker {
    started_at: Instant,
    checks_passed: usize,
    checks_failed: usize,
}

impl HealthChecker {
    pub closed spec fn spec_passed(&self) -> nat {
        self.checks_passed as nat
    }

    pub closed spec fn spec_failed(&self) -> nat {
        self.checks_failed as nat
    }

    /// A checker started now with no checks counted.
    pub fn new() -> (r: Self)
        ensures
            r.spec_passed() == 0,
            r.spec_failed() == 0,
    {
        HealthChecker { started_at: instant_now(), checks_passed: 0, checks_failed: 0 }
    }

    /// Counts a passed check.
    pub fn record_pass(&mut self)
        requires
            old(self).spec_passed() < usize::MAX,
        ensures
            final(self).spec_passed() == old(self).spec_passed() + 1,
            final(self).spec_failed() == old(self).spec_failed(),
    {
        self.checks_passed = self.checks_passed + 1;
    }

    /// Counts a failed check.
    pub fn record_fail(&mut self)
        requires
            old(self).spec_failed() < usize::MAX,
        ensures
            final(self).spec_passed() == old(self).spec_passed(),
            final(self).spec_failed() == old(self).spec_failed() + 1,
    {
        self.checks_failed = self.checks_failed + 1;
    }

    /// A report of the counts so far and the time since the checker started.
    pub fn report(&self) -> (r: HealthReport)
        requires
            self.spec_passed() + self.spec_failed() <= usize::MAX,
        ensures
            is_status_for(r.status, self.spec_passed(), self.spec_failed()),
            r.checks_passed == self.spec_passed(),
            r.checks_failed == self.spec_failed(),
    {
        let uptime = span_since(&self.started_at);
        let total = self.checks_passed + self.checks_failed;
        let status = if self.checks_failed == 0 {
            HealthStatus::Healthy
        } else if self.checks_failed < total - self.checks_failed {
            let mut m = String::new();
            push_decimal(&mut m, self.checks_failed as u128);
            push_text(&mut m, " checks failed");
            HealthStatus::Degraded(m)
        } else {
            let mut m = String::new();
            push_decimal(&mut m, self.checks_failed as u128);
            push_text(&mut m, "/");
            push_decimal(&mut m, total as u128);
            push_text(&mut m, " checks failed");
            HealthStatus::Unhealthy(m)
        };
        HealthReport::new(status, uptime, self.checks_passed, self.checks_failed)
    }
}

/// With no failures the checker is healthy; a minority of failures is
/// degraded; failures on at least half of the checks are unhealthy. Adding a
/// failure never makes a degraded or unhealthy status healthy.
pub proof fn lemma_status_by_share(passed: nat, failed: nat, s: HealthStatus)
    requires
        is_status_for(s, passed, failed),
    ensures
        s is Healthy <==> failed == 0,
        s is Degraded ==> 0 < failed < passed,
        s is Unhealthy ==> 0 < failed && passed <= failed,
{
}

} // verus!
