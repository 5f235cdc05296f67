//! Reports on circuit breakers: one record per breaker, and the warning line
//! about open circuits.

use crate::circuit_breaker::{CircuitBreaker, CircuitState};
use crate::text::{bool_text, decimal, joined, push_bool, push_decimal, push_joined, push_text};
use vstd::prelude::*;

verus! {

/// What a report says about one breaker.
#[derive(Debug)]
pub struct CircuitBreakerReport {
    pub key: String,
    pub state: String,
    pub failure_count: u32,
    pub is_open: bool,
}

/// The name of a state in reports.
pub open spec fn state_name(s: CircuitState) -> Seq<char> {
    match s {
        CircuitState::Closed => "closed"@,
        CircuitState::Open => "open"@,
        CircuitState::HalfOpen => "half_open"@,
    }
}

/// The summary line of a report:
/// `[circuit_breaker] key=... state=... failures=... open=...`.
pub open spec fn summary_line_text(r: CircuitBreakerReport) -> Seq<char> {
    "[circuit_breaker] key="@ + r.key@ + " state="@ + r.state@ + " failures="@ + decimal(
        r.failure_count as nat,
    ) + " open="@ + bool_text(r.is_open)
}

/// The warning about open circuits.
pub open spec fn open_warning_text(keys: Seq<Seq<char>>) -> Seq<char> {
    "[circuit_breaker] WARNING: "@ + decimal(keys.len()) + " circuit(s) are open: "@ + joined(keys, ", "@)
}

impl CircuitBreakerReport {
    /// The report on `breaker`, filed under `key`.
    pub fn from_breaker(key: &str, breaker: &CircuitBreaker) -> (r: Self)
        ensures
            r.key@ == key@,
            r.state@ == state_name(breaker@.state),
            r.failure_count == breaker@.failure_count,
            r.is_open == (breaker@.state == CircuitState::Open),
    {
        let state_str = match breaker.state() {
            CircuitState::Closed => "closed",
            CircuitState::Open => "open",
            CircuitState::HalfOpen => "half_open",
        };
        CircuitBreakerReport {
            key: key.to_owned(),
            state: state_str.to_owned(),
            failure_count: breaker.failure_count(),
            is_open: breaker.is_open(),
        }
    }

    /// The summary line (see [`summary_line_text`]).
    pub fn summary_line(&self) -> (r: String)
        ensures
            r@ == summary_line_text(*self),
    {
        let mut s = String::new();
        push_text(&mut s, "[circuit_breaker] key=");
        push_text(&mut s, self.key.as_str());
        push_text(&mut s, " state=");
        push_text(&mut s, self.state.as_str());
        push_text(&mut s, " failures=");
        push_decimal(&mut s, self.failure_count as u128);
        push_text(&mut s, " open=");
        push_bool(&mut s, self.is_open);
        proof {
            assert(s@ =~= summary_line_text(*self));
        }
        s
    }
}

/// The warning to give about the open circuits `open_keys`: nothing when
/// there are none, otherwise their number and their keys joined by `", "`.
pub fn open_circuits_warning(open_keys: &[&str]) -> (r: Option<String>)
    ensures
        open_keys@.len() == 0 ==> r is None,
        open_keys@.len() > 0 ==> (r matches Some(w) && w@ == open_warning_text(
            open_keys@.map_values(|k: &str| k@),
        )),
{
    if open_keys.len() == 0 {
        return None;
    }
    let mut s = String::new();
    push_text(&mut s, "[circuit_breaker] WARNING: ");
    push_decimal(&mut s, open_keys.len() as u128);
    push_text(&mut s, " circuit(s) are open: ");
    push_joined(&mut s, open_keys, ", ");
    proof {
        assert(s@ =~= open_warning_text(open_keys@.map_values(|k: &str| k@)));
    }
    Some(s)
}

} // verus!
