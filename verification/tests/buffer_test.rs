use procwatch::buffer::EventBuffer;
use procwatch::buffer_manager::BufferManager;
use procwatch::time::TimeSpan;

#[test]
fn test_push_and_drain() {
    let mut buf = EventBuffer::new(10, TimeSpan::from_secs(60));
    assert!(buf.push("event1".to_string()));
    assert!(buf.push("event2".to_string()));
    assert_eq!(buf.len(), 2);
    let drained = buf.drain_ready();
    assert_eq!(drained.len(), 2);
    assert_eq!(drained[0].payload, "event1");
    assert!(buf.is_empty());
}

#[test]
fn test_capacity_limit() {
    let mut buf = EventBuffer::new(2, TimeSpan::from_secs(60));
    assert!(buf.push("a".to_string()));
    assert!(buf.push("b".to_string()));
    assert!(buf.is_full());
    assert!(!buf.push("c".to_string()));
    assert_eq!(buf.len(), 2);
}

#[test]
fn test_event_age() {
    let mut buf = EventBuffer::new(5, TimeSpan::from_secs(60));
    buf.push("x".to_string());
    let events = buf.drain_ready();
    assert!(events[0].age().as_nanos() < TimeSpan::from_secs(1).as_nanos());
}

#[test]
fn test_manager_push_and_drain() {
    let mut mgr = BufferManager::new(10, TimeSpan::from_secs(60));
    mgr.push("proc_a", "alert1".to_string());
    mgr.push("proc_a", "alert2".to_string());
    mgr.push("proc_b", "alert3".to_string());
    let drained = mgr.drain("proc_a");
    assert_eq!(drained.len(), 2);
    assert_eq!(mgr.total_pending(), 1);
}

#[test]
fn test_manager_drain_all() {
    let mut mgr = BufferManager::new(10, TimeSpan::from_secs(60));
    mgr.push("x", "e1".to_string());
    mgr.push("y", "e2".to_string());
    let all = mgr.drain_all();
    assert_eq!(all.len(), 2);
    assert_eq!(mgr.total_pending(), 0);
}

#[test]
fn buffer_test_test_manager_remove() {
    let mut mgr = BufferManager::new(5, TimeSpan::from_secs(60));
    mgr.push("proc", "data".to_string());
    mgr.remove("proc");
    assert_eq!(mgr.drain("proc").len(), 0);
}

#[test]
fn zero_max_age_evicts_everything() {
    let mut buf = EventBuffer::new(10, TimeSpan::from_nanos(0));
    buf.push("old".to_string());
    buf.push("older".to_string());
    buf.evict_expired();
    assert!(buf.is_empty());
}

#[test]
fn long_max_age_keeps_events_in_order() {
    let mut buf = EventBuffer::new(10, TimeSpan::from_secs(3600));
    buf.push("first".to_string());
    buf.push("second".to_string());
    buf.evict_expired();
    assert_eq!(buf.len(), 2);
    assert_eq!(buf.capacity(), 10);
    let drained = buf.drain_ready();
    assert_eq!(drained[0].payload, "first");
    assert_eq!(drained[1].payload, "second");
}

#[test]
fn manager_drain_keeps_order_and_drain_all_groups_by_key() {
    let mut mgr = BufferManager::new(10, TimeSpan::from_secs(60));
    mgr.push("a", "1".to_string());
    mgr.push("b", "2".to_string());
    mgr.push("a", "3".to_string());
    let all = mgr.drain_all();
    assert_eq!(all, vec![
        ("a".to_string(), vec!["1".to_string(), "3".to_string()]),
        ("b".to_string(), vec!["2".to_string()]),
    ]);
}

#[test]
fn manager_push_refuses_when_full() {
    let mut mgr = BufferManager::new(1, TimeSpan::from_secs(60));
    assert!(mgr.push("k", "a".to_string()));
    assert!(!mgr.push("k", "b".to_string()));
    assert_eq!(mgr.drain("k"), vec!["a".to_string()]);
}

#[test]
fn aged_eviction_and_drain_keep_young_events() {
    let mut buf = EventBuffer::new(10, TimeSpan::from_secs(60));
    buf.push("a".to_string());
    buf.push("b".to_string());
    buf.push("c".to_string());
    assert_eq!(buf.ages().len(), 3);
    buf.evict_aged(&[TimeSpan::from_secs(61), TimeSpan::from_secs(60), TimeSpan::from_secs(1)]);
    assert_eq!(buf.len(), 2);
    let out = buf.drain_ready_aged(&[TimeSpan::from_secs(100), TimeSpan::from_secs(2)]);
    assert_eq!(out.len(), 1);
    assert_eq!(out[0].payload, "c");
    assert!(buf.is_empty());
}

#[test]
fn manager_aged_drains() {
    let mut mgr = BufferManager::new(10, TimeSpan::from_secs(60));
    mgr.push("a", "1".to_string());
    mgr.push("a", "2".to_string());
    mgr.push("b", "3".to_string());
    mgr.push("c", "4".to_string());
    assert_eq!(mgr.total_pending(), 4);
    let got = mgr.drain_aged("a", &[TimeSpan::from_secs(61), TimeSpan::from_secs(1)]);
    assert_eq!(got, vec!["2".to_string()]);
    assert_eq!(mgr.total_pending(), 2);
    let ages = mgr.ages();
    assert_eq!(ages.iter().map(|v| v.len()).collect::<Vec<_>>(), vec![0, 1, 1]);
    let all = mgr.drain_all_aged(&[vec![], vec![TimeSpan::from_secs(1)], vec![TimeSpan::from_secs(99)]]);
    assert_eq!(all, vec![("b".to_string(), vec!["3".to_string()])]);
    assert_eq!(mgr.total_pending(), 0);
    mgr.push("b", "5".to_string());
    mgr.evict_all_aged(&[vec![], vec![TimeSpan::from_secs(61)], vec![]]);
    assert_eq!(mgr.total_pending(), 0);
}
