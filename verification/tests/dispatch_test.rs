use procwatch::alert::AlertType;
use procwatch::anomaly::AnomalyKind;
use procwatch::anomaly_reporter::anomaly_summary;
use procwatch::dispatcher::Dispatcher;
use procwatch::history_store::HistoryKey;
use procwatch::throttle::Throttle;
use procwatch::time::TimeSpan;

#[test]
fn first_alerting_cycle_sends_then_every_interval() {
    let mut d = Dispatcher::new("http://hook", Some(3));
    assert_eq!(d.webhook_url(), "http://hook");
    let sent: Vec<bool> = (0..7).map(|_| d.record_cycle(42, true)).collect();
    assert_eq!(sent, vec![true, false, true, false, false, true, false]);
}

#[test]
fn quiet_cycle_resets_the_run() {
    let mut d = Dispatcher::new("http://hook", None);
    assert!(d.record_cycle(1, true));
    assert!(!d.record_cycle(1, true));
    assert!(!d.record_cycle(1, false));
    assert!(d.record_cycle(1, true));
    for _ in 0..3 {
        assert!(!d.record_cycle(1, true));
    }
    // fifth cycle in a row with the default interval of 5
    assert!(d.record_cycle(1, true));
}

#[test]
fn processes_are_counted_apart() {
    let mut d = Dispatcher::new("u", Some(2));
    assert!(d.record_cycle(1, true));
    assert!(d.record_cycle(2, true));
    assert!(d.record_cycle(1, true));
    assert!(!d.record_cycle(1, true));
    assert!(d.record_cycle(2, true));
}

#[test]
fn zero_interval_sends_first_cycle() {
    let mut d = Dispatcher::new("u", Some(0));
    assert!(d.record_cycle(9, true));
}

#[test]
fn throttle_lets_key_through_once_per_window() {
    let mut t = Throttle::new(TimeSpan::from_secs(10));
    assert!(t.allow_at("a", 0));
    assert!(!t.allow_at("a", 9_999_999_999));
    assert!(t.allow_at("b", 1));
    assert!(t.allow_at("a", 10_000_000_000));
    assert!(!t.allow_at("a", 15_000_000_000));
    assert!(t.allow("c"));
    assert!(!t.allow("c"));
}

#[test]
fn anomaly_labels_and_summary() {
    assert_eq!(AnomalyKind::CpuSpike.label(), "CPU spike");
    assert_eq!(AnomalyKind::MemoryDrop.label(), "Memory drop");
    assert_eq!(AnomalyKind::CpuDrop.unit(), "%");
    assert_eq!(AnomalyKind::MemorySpike.unit(), "MB");
    assert_eq!(
        anomaly_summary(AnomalyKind::CpuSpike, "nginx", 4242),
        "[CPU spike] CPU spike detected for 'nginx' (PID 4242)"
    );
}

#[test]
fn history_key_and_alert_type() {
    let k = HistoryKey::new(7, "cpu");
    assert_eq!(k, HistoryKey { pid: 7, metric: "cpu".to_string() });
    assert_ne!(AlertType::CpuThresholdExceeded, AlertType::MemoryThresholdExceeded);
}
