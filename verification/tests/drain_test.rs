use procwatch::drain::{Drain, DrainPolicy};
use procwatch::time::TimeSpan;

#[test]
fn test_drain_drop_policy() {
    let mut drain = Drain::new(DrainPolicy::Drop);
    drain.push("event-1".into());
    drain.push("event-2".into());
    drain.push("event-3".into());

    let result = drain.execute(|_| true);
    assert_eq!(result.flushed, 0);
    assert_eq!(result.dropped, 3);
    assert_eq!(drain.pending(), 0);
}

#[test]
fn test_drain_immediate_all_succeed() {
    let mut drain = Drain::new(DrainPolicy::Immediate);
    drain.push("a".into());
    drain.push("b".into());

    let result = drain.execute(|_| true);
    assert_eq!(result.flushed, 2);
    assert_eq!(result.dropped, 0);
    assert_eq!(drain.pending(), 0);
}

#[test]
fn test_drain_immediate_partial_failure() {
    let mut drain = Drain::new(DrainPolicy::Immediate);
    drain.push("ok".into());
    drain.push("fail".into());
    drain.push("ok".into());

    let result = drain.execute(|item| item != "fail");
    assert_eq!(result.flushed, 2);
    assert_eq!(result.dropped, 1);
}

#[test]
fn test_drain_timeout_flushes_within_limit() {
    let mut drain = Drain::new(DrainPolicy::Timeout(TimeSpan::from_secs(5)));
    for i in 0..10 {
        drain.push(format!("event-{}", i));
    }

    let result = drain.execute(|_| true);
    assert_eq!(result.flushed + result.dropped, 10);
    assert_eq!(drain.pending(), 0);
}

#[test]
fn test_drain_timeout_zero_drops_all() {
    let mut drain = Drain::new(DrainPolicy::Timeout(TimeSpan::from_nanos(0)));
    drain.push("x".into());
    drain.push("y".into());

    let result = drain.execute(|_| true);
    assert_eq!(result.flushed + result.dropped, 2);
    assert_eq!(drain.pending(), 0);
}

#[test]
fn test_drain_pending_count() {
    let mut drain = Drain::new(DrainPolicy::Immediate);
    assert_eq!(drain.pending(), 0);
    drain.push("one".into());
    drain.push("two".into());
    assert_eq!(drain.pending(), 2);
}

#[test]
fn zero_timeout_hands_nothing_over() {
    let mut drain = Drain::new(DrainPolicy::Timeout(TimeSpan::from_nanos(0)));
    drain.push("x".into());
    let result = drain.execute(|_| panic!("nothing may be flushed"));
    assert_eq!(result.flushed, 0);
    assert_eq!(result.dropped, 1);
}

#[test]
fn immediate_flushes_in_queue_order() {
    let mut drain = Drain::new(DrainPolicy::Immediate);
    drain.push("first".into());
    drain.push("second".into());
    let seen = std::cell::RefCell::new(Vec::new());
    let result = drain.execute(|item| {
        seen.borrow_mut().push(item.to_string());
        true
    });
    assert_eq!(result.flushed, 2);
    assert_eq!(*seen.borrow(), vec!["first".to_string(), "second".to_string()]);
}

#[test]
fn timed_drain_reports_its_readings() {
    let mut drain = Drain::new(DrainPolicy::Timeout(TimeSpan::from_secs(60)));
    drain.push("a".into());
    drain.push("b".into());
    let result = drain.execute(|_| true);
    assert_eq!(result.flushed, 2);
    assert_eq!(result.readings.len(), 2);
    assert!(result.readings.iter().all(|r| *r < 60_000_000_000));

    let mut drain = Drain::new(DrainPolicy::Timeout(TimeSpan::from_nanos(0)));
    drain.push("a".into());
    let result = drain.execute(|_| true);
    assert_eq!(result.readings.len(), 1);
    assert_eq!(result.dropped, 1);

    let mut drain = Drain::new(DrainPolicy::Immediate);
    drain.push("a".into());
    assert!(drain.execute(|_| true).readings.is_empty());
}

#[test]
fn timed_drain_counts_failed_flushes_as_dropped() {
    let mut drain = Drain::new(DrainPolicy::Timeout(TimeSpan::from_secs(60)));
    drain.push("ok".into());
    drain.push("fail".into());
    drain.push("ok".into());
    let result = drain.execute(|item| item != "fail");
    assert_eq!(result.flushed, 2);
    assert_eq!(result.dropped, 1);
    assert_eq!(result.flushed + result.dropped, 3);
}
