use procwatch::circuit_breaker::{CircuitBreaker, CircuitState};
use procwatch::circuit_breaker_manager::CircuitBreakerManager;
use procwatch::circuit_breaker_reporter::{open_circuits_warning, CircuitBreakerReport};
use procwatch::time::TimeSpan;

fn make_breaker() -> CircuitBreaker {
    CircuitBreaker::new(3, 2, TimeSpan::from_secs(60))
}

#[test]
fn test_initial_state_is_closed() {
    let cb = make_breaker();
    assert_eq!(*cb.state(), CircuitState::Closed);
    assert!(!cb.is_open());
}

#[test]
fn test_opens_after_threshold_failures() {
    let mut cb = make_breaker();
    cb.record_failure();
    cb.record_failure();
    assert_eq!(*cb.state(), CircuitState::Closed);
    cb.record_failure();
    assert_eq!(*cb.state(), CircuitState::Open);
    assert!(cb.is_open());
}

#[test]
fn test_open_blocks_requests() {
    let mut cb = make_breaker();
    for _ in 0..3 {
        cb.record_failure();
    }
    assert!(!cb.allow_request());
}

#[test]
fn test_success_resets_failure_count() {
    let mut cb = make_breaker();
    cb.record_failure();
    cb.record_failure();
    cb.record_success();
    assert_eq!(cb.failure_count(), 0);
    assert_eq!(*cb.state(), CircuitState::Closed);
}

#[test]
fn test_half_open_failure_reopens() {
    let mut cb = CircuitBreaker::new(1, 2, TimeSpan::from_millis(1));
    cb.record_failure_at(0);
    assert!(cb.is_open());
    // five milliseconds after the failure: past the timeout
    assert!(cb.allow_request_at(5_000_000));
    assert_eq!(*cb.state(), CircuitState::HalfOpen);
    cb.record_failure();
    assert_eq!(*cb.state(), CircuitState::Open);
}

#[test]
fn test_half_open_success_closes_breaker() {
    let mut cb = CircuitBreaker::new(1, 1, TimeSpan::from_millis(1));
    cb.record_failure_at(0);
    assert!(cb.is_open());
    assert!(cb.allow_request_at(5_000_000));
    assert_eq!(*cb.state(), CircuitState::HalfOpen);
    cb.record_success();
    assert_eq!(*cb.state(), CircuitState::Closed);
    assert!(!cb.is_open());
}

#[test]
fn test_manager_tracks_multiple_keys() {
    let mut mgr = CircuitBreakerManager::new(2, 1, 60);
    mgr.record_failure("webhook_a");
    mgr.record_failure("webhook_a");
    mgr.record_failure("webhook_b");
    assert_eq!(mgr.state("webhook_a"), CircuitState::Open);
    assert_eq!(mgr.state("webhook_b"), CircuitState::Closed);
    let open = mgr.open_circuits();
    assert_eq!(open.len(), 1);
    assert!(open.contains(&"webhook_a"));
}

#[test]
fn test_manager_reset_removes_breaker() {
    let mut mgr = CircuitBreakerManager::new(1, 1, 60);
    mgr.record_failure("svc");
    assert_eq!(mgr.state("svc"), CircuitState::Open);
    mgr.reset("svc");
    assert_eq!(mgr.state("svc"), CircuitState::Closed);
}

#[test]
fn open_breaker_refuses_before_timeout() {
    let mut cb = CircuitBreaker::new(1, 1, TimeSpan::from_secs(30));
    cb.record_failure_at(1_000_000_000);
    assert!(!cb.allow_request_at(30_999_999_999));
    assert_eq!(*cb.state(), CircuitState::Open);
    assert!(cb.allow_request_at(31_000_000_000));
    assert_eq!(*cb.state(), CircuitState::HalfOpen);
}

#[test]
fn half_open_needs_all_probe_successes() {
    let mut cb = CircuitBreaker::new(1, 2, TimeSpan::from_secs(1));
    cb.record_failure_at(0);
    assert!(cb.allow_request_at(1_000_000_000));
    cb.record_success();
    assert_eq!(*cb.state(), CircuitState::HalfOpen);
    cb.record_success();
    assert_eq!(*cb.state(), CircuitState::Closed);
    assert_eq!(cb.failure_count(), 0);
}

#[test]
fn manager_allow_request_on_unknown_key_is_closed() {
    let mut mgr = CircuitBreakerManager::new(1, 1, 60);
    assert!(mgr.allow_request("fresh"));
    mgr.record_success("fresh");
    assert_eq!(mgr.state("fresh"), CircuitState::Closed);
}

#[test]
fn report_lines_and_warning() {
    let mut cb = CircuitBreaker::new(2, 1, TimeSpan::from_secs(60));
    cb.record_failure();
    let report = CircuitBreakerReport::from_breaker("hook", &cb);
    assert_eq!(report.summary_line(), "[circuit_breaker] key=hook state=closed failures=1 open=false");
    cb.record_failure();
    let report = CircuitBreakerReport::from_breaker("hook", &cb);
    assert_eq!(report.summary_line(), "[circuit_breaker] key=hook state=open failures=2 open=true");
    assert_eq!(open_circuits_warning(&[]), None);
    assert_eq!(
        open_circuits_warning(&["a", "b"]),
        Some("[circuit_breaker] WARNING: 2 circuit(s) are open: a, b".to_string())
    );
}

#[test]
fn manager_breakers_refuse_until_timeout_since_failure() {
    let mut mgr = CircuitBreakerManager::new(1, 1, 10);
    mgr.record_failure_at("hook", 2_000_000_000);
    assert!(!mgr.allow_request_at("hook", 11_999_999_999));
    assert_eq!(mgr.state("hook"), CircuitState::Open);
    assert!(mgr.allow_request_at("other", 0));
    assert!(mgr.allow_request_at("hook", 12_000_000_000));
    assert_eq!(mgr.state("hook"), CircuitState::HalfOpen);
}
