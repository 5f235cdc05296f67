use procwatch::debounce::Debouncer;
use procwatch::time::TimeSpan;

#[test]
fn first_event_always_fires() {
    let mut d = Debouncer::new(TimeSpan::from_millis(200));
    assert!(d.should_fire("proc_cpu"));
}

#[test]
fn second_event_within_window_is_suppressed() {
    let mut d = Debouncer::new(TimeSpan::from_millis(200));
    assert!(d.should_fire("proc_cpu"));
    assert!(!d.should_fire("proc_cpu"));
}

#[test]
fn event_fires_again_after_window_expires() {
    let mut d = Debouncer::new(TimeSpan::from_millis(50));
    assert!(d.should_fire_at("proc_mem", 0));
    assert!(d.should_fire_at("proc_mem", 60_000_000));
}

#[test]
fn different_keys_are_independent() {
    let mut d = Debouncer::new(TimeSpan::from_millis(200));
    assert!(d.should_fire("key_a"));
    assert!(d.should_fire("key_b"));
    assert!(!d.should_fire("key_a"));
    assert!(!d.should_fire("key_b"));
}

#[test]
fn reset_allows_immediate_refire() {
    let mut d = Debouncer::new(TimeSpan::from_millis(500));
    assert!(d.should_fire("proc_cpu"));
    d.reset("proc_cpu");
    assert!(d.should_fire("proc_cpu"));
}

#[test]
fn evict_expired_removes_stale_entries() {
    let mut d = Debouncer::new(TimeSpan::from_millis(30));
    d.should_fire_at("a", 0);
    d.should_fire_at("b", 0);
    assert_eq!(d.len(), 2);
    d.evict_expired_at(40_000_000);
    assert!(d.is_empty());
}

#[test]
fn evict_expired_keeps_fresh_entries() {
    let mut d = Debouncer::new(TimeSpan::from_millis(200));
    d.should_fire("fresh");
    d.evict_expired();
    assert_eq!(d.len(), 1);
}

#[test]
fn len_and_is_empty_reflect_state() {
    let mut d = Debouncer::new(TimeSpan::from_millis(200));
    assert!(d.is_empty());
    d.should_fire("x");
    assert_eq!(d.len(), 1);
    assert!(!d.is_empty());
}

#[test]
fn suppressed_event_does_not_extend_window() {
    let mut d = Debouncer::new(TimeSpan::from_millis(100));
    assert!(d.should_fire_at("k", 0));
    assert!(!d.should_fire_at("k", 50_000_000));
    assert!(d.should_fire_at("k", 100_000_000));
}
