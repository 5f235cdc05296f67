use procwatch::escalation::{EscalationLevel, EscalationTracker};
use procwatch::time::TimeSpan;

fn tracker() -> EscalationTracker {
    EscalationTracker::new(3, 6, TimeSpan::from_secs(60))
}

#[test]
fn test_initial_fires_are_normal() {
    let mut t = tracker();
    assert_eq!(t.record("proc:cpu"), EscalationLevel::Normal);
    assert_eq!(t.record("proc:cpu"), EscalationLevel::Normal);
}

#[test]
fn test_warn_threshold_reached() {
    let mut t = tracker();
    t.record("proc:mem");
    t.record("proc:mem");
    let level = t.record("proc:mem");
    assert_eq!(level, EscalationLevel::Warning);
}

#[test]
fn test_critical_threshold_reached() {
    let mut t = tracker();
    for _ in 0..5 {
        t.record("proc:cpu");
    }
    let level = t.record("proc:cpu");
    assert_eq!(level, EscalationLevel::Critical);
}

#[test]
fn test_reset_clears_state() {
    let mut t = tracker();
    for _ in 0..5 {
        t.record("proc:cpu");
    }
    t.reset("proc:cpu");
    assert_eq!(t.count("proc:cpu"), 0);
    let level = t.record("proc:cpu");
    assert_eq!(level, EscalationLevel::Normal);
}

#[test]
fn test_independent_keys() {
    let mut t = tracker();
    for _ in 0..6 {
        t.record("proc:cpu");
    }
    let level = t.record("proc:mem");
    assert_eq!(level, EscalationLevel::Normal);
    assert_eq!(t.count("proc:cpu"), 6);
    assert_eq!(t.count("proc:mem"), 1);
}

#[test]
fn test_count_returns_zero_for_unknown_key() {
    let t = tracker();
    assert_eq!(t.count("nonexistent"), 0);
}

#[test]
fn window_expiry_restarts_count() {
    let mut t = EscalationTracker::new(2, 3, TimeSpan::from_secs(10));
    assert_eq!(t.record_at("k", 0), EscalationLevel::Normal);
    assert_eq!(t.record_at("k", 1_000_000_000), EscalationLevel::Warning);
    assert_eq!(t.record_at("k", 2_000_000_000), EscalationLevel::Critical);
    // more than the window after the first fire: a new window starts
    assert_eq!(t.record_at("k", 10_000_000_001), EscalationLevel::Normal);
    assert_eq!(t.count("k"), 1);
}
