use procwatch::circuit_breaker::{CircuitBreaker, CircuitState};
use procwatch::notifier::{Notifier, NotifyResult};
use procwatch::notifier_manager::NotifierManager;
use procwatch::throttle::Throttle;
use procwatch::time::TimeSpan;
use procwatch::webhook::WebhookClient;

fn make_notifier(url: &str) -> Notifier {
    let client = WebhookClient::new(url.to_string());
    let throttle = Throttle::new(TimeSpan::from_secs(60));
    let breaker = CircuitBreaker::new(3, 1, TimeSpan::from_secs(30));
    Notifier::new(client, throttle, breaker)
}

/// One notification whose send fails, as with no server listening.
fn notify_failing(notifier: &mut Notifier, process: &str) -> NotifyResult {
    match notifier.prepare(process) {
        Some(r) => r,
        None => notifier.complete(Err("connection refused".to_string())),
    }
}

#[test]
fn test_notifier_throttles_duplicate_alerts() {
    let mut notifier = make_notifier("http://localhost:9999/hook");
    let _ = notify_failing(&mut notifier, "nginx");
    let result = notify_failing(&mut notifier, "nginx");
    assert_eq!(result, NotifyResult::Throttled);
}

#[test]
fn test_notifier_opens_circuit_after_failures() {
    let mut notifier = make_notifier("http://localhost:9999/hook");
    // distinct processes, so that the throttle lets each through
    for p in ["a", "b", "c", "d", "e"] {
        let _ = notify_failing(&mut notifier, p);
    }
    assert!(!notifier.is_healthy());
    assert_eq!(notify_failing(&mut notifier, "f"), NotifyResult::CircuitOpen);
}

#[test]
fn test_notifier_records_last_attempt() {
    let mut notifier = make_notifier("http://localhost:9999/hook");
    assert!(notifier.last_attempt().is_none());
    let _ = notify_failing(&mut notifier, "svc");
    assert!(notifier.last_attempt().is_some());
}

#[test]
fn test_manager_healthy_count() {
    let mut manager = NotifierManager::new();
    manager.register("a", make_notifier("http://localhost:9991/hook"));
    manager.register("b", make_notifier("http://localhost:9992/hook"));
    assert_eq!(manager.healthy_count(), 2);
    assert_eq!(manager.total_count(), 2);
}

#[test]
fn test_manager_notify_all_returns_results_for_all() {
    let mut manager = NotifierManager::new();
    manager.register("primary", make_notifier("http://localhost:9993/hook"));
    manager.register("secondary", make_notifier("http://localhost:9994/hook"));
    let mut results = Vec::new();
    for name in manager.names() {
        let n = manager.notifier_mut(&name).unwrap();
        results.push((name, notify_failing(n, "daemon")));
    }
    assert_eq!(results.len(), 2);
    assert!(results.iter().any(|(k, _)| k == "primary"));
    assert!(results.iter().any(|(k, _)| k == "secondary"));
}

#[test]
fn test_manager_notify_one_unknown_returns_none() {
    let mut manager = NotifierManager::new();
    assert!(manager.notifier_mut("missing").is_none());
}

#[test]
fn successful_send_is_sent_and_keeps_breaker_closed() {
    let mut notifier = make_notifier("http://hook");
    assert_eq!(notifier.prepare("api"), None);
    assert_eq!(notifier.complete(Ok(())), NotifyResult::Sent);
    assert!(notifier.is_healthy());
    assert_eq!(notifier.breaker().failure_count(), 0);
}

#[test]
fn failed_send_reports_message() {
    let mut notifier = make_notifier("http://hook");
    assert_eq!(notifier.prepare("api"), None);
    assert_eq!(
        notifier.complete(Err("boom".to_string())),
        NotifyResult::Failed("boom".to_string())
    );
    assert_eq!(notifier.breaker().failure_count(), 1);
}

#[test]
fn prepare_at_checks_breaker_then_throttle() {
    let client = WebhookClient::new("http://hook".to_string());
    let breaker = CircuitBreaker::new(1, 1, TimeSpan::from_secs(30));
    let mut notifier = Notifier::new(client, Throttle::new(TimeSpan::from_secs(60)), breaker);
    assert_eq!(notifier.prepare_at("p", 0, 0), None);
    assert_eq!(notifier.prepare_at("p", 0, 59_999_999_999), Some(NotifyResult::Throttled));
    assert_eq!(notifier.prepare_at("p", 0, 60_000_000_000), None);
    let _ = notifier.complete_at(Err("down".to_string()), 5_000_000_000);
    assert_eq!(*notifier.breaker().state(), CircuitState::Open);
    assert_eq!(notifier.prepare_at("q", 6_000_000_000, 0), Some(NotifyResult::CircuitOpen));
    assert_eq!(notifier.prepare_at("q", 34_999_999_999, 0), Some(NotifyResult::CircuitOpen));
    // a refused request leaves the throttle alone: "q" still gets through
    assert_eq!(notifier.prepare_at("q", 35_000_000_000, 0), None);
    assert_eq!(*notifier.breaker().state(), CircuitState::HalfOpen);
}

#[test]
fn with_timeout_and_accessors() {
    let notifier = make_notifier("http://hook/x").with_timeout(TimeSpan::from_secs(3));
    assert_eq!(notifier.timeout().as_secs(), 3);
    assert_eq!(notifier.client().url(), "http://hook/x");
    assert_eq!(make_notifier("u").timeout().as_secs(), 10);
}

#[test]
fn register_default_builds_closed_notifier() {
    let mut manager = NotifierManager::default();
    manager.register_default("ops", "http://ops/hook", 30, 2);
    assert_eq!(manager.total_count(), 1);
    assert_eq!(manager.healthy_count(), 1);
    let n = manager.notifier_mut("ops").unwrap();
    assert_eq!(n.client().url(), "http://ops/hook");
    let _ = notify_failing(n, "x");
    let _ = notify_failing(n, "y");
    assert!(!n.is_healthy());
    assert_eq!(manager.healthy_count(), 0);
    assert_eq!(manager.names(), vec!["ops".to_string()]);
}
