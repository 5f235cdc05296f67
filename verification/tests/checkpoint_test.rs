use procwatch::checkpoint::{Checkpoint, CheckpointStore};
use procwatch::checkpoint_manager::CheckpointManager;
use procwatch::time::TimeSpan;

#[test]
fn test_checkpoint_age_and_expiry() {
    let cp = Checkpoint::new("cpu_ok", 1234);
    assert!(!cp.is_expired(TimeSpan::from_secs(60)));
    assert!(cp.age().as_nanos() < TimeSpan::from_secs(1).as_nanos());
}

#[test]
fn test_checkpoint_with_meta() {
    let cp = Checkpoint::new("mem_ok", 42).with_meta("threshold", "80%");
    assert_eq!(cp.metadata.get("threshold"), Some(&"80%".to_string()));
}

#[test]
fn test_store_record_and_get() {
    let mut store = CheckpointStore::new();
    let cp = Checkpoint::new("cpu_ok", 100);
    store.record(cp);
    assert!(store.get(100, "cpu_ok").is_some());
    assert!(store.get(100, "mem_ok").is_none());
}

#[test]
fn test_store_remove() {
    let mut store = CheckpointStore::new();
    store.record(Checkpoint::new("cpu_ok", 200));
    assert_eq!(store.len(), 1);
    store.remove(200, "cpu_ok");
    assert!(store.is_empty());
}

#[test]
fn test_store_evict_expired() {
    let mut store = CheckpointStore::new();
    store.record(Checkpoint::new("cpu_ok", 300));
    store.record(Checkpoint::new("mem_ok", 300));
    let evicted = store.evict_expired(TimeSpan::from_secs(60));
    assert_eq!(evicted, 0);
    assert_eq!(store.len(), 2);
    let evicted = store.evict_expired(TimeSpan::from_nanos(0));
    assert_eq!(evicted, 2);
    assert!(store.is_empty());
}

#[test]
fn test_manager_record_and_has_valid() {
    let mut mgr = CheckpointManager::new();
    mgr.record(1, "cpu_ok");
    assert!(mgr.has_valid(1, "cpu_ok"));
    assert!(!mgr.has_valid(1, "mem_ok"));
}

#[test]
fn test_manager_clear() {
    let mut mgr = CheckpointManager::new();
    mgr.record(4, "cpu_ok");
    mgr.clear(4, "cpu_ok");
    assert!(!mgr.has_valid(4, "cpu_ok"));
}

#[test]
fn manager_with_zero_ttl_holds_nothing_valid() {
    let mut mgr = CheckpointManager::new().with_ttl(TimeSpan::from_nanos(0));
    mgr.record(3, "cpu_ok");
    mgr.record(3, "mem_ok");
    assert!(!mgr.has_valid(3, "cpu_ok"));
    let removed = mgr.evict_expired();
    assert_eq!(removed, 2);
    assert_eq!(mgr.count(), 0);
}

#[test]
fn manager_record_with_meta_keeps_metadata() {
    let mut mgr = CheckpointManager::new();
    mgr.record_with_meta(7, "cpu_ok", "threshold", "90%");
    assert!(mgr.has_valid(7, "cpu_ok"));
    assert_eq!(mgr.count(), 1);
}

#[test]
fn store_record_replaces_same_pid_and_name() {
    let mut store = CheckpointStore::new();
    store.record(Checkpoint::new("cpu_ok", 9));
    store.record(Checkpoint::new("cpu_ok", 9).with_meta("k", "v"));
    assert_eq!(store.len(), 1);
    let cp = store.get(9, "cpu_ok").unwrap();
    assert_eq!(cp.metadata.get("k"), Some(&"v".to_string()));
    assert_eq!(cp.pid, 9);
    assert_eq!(cp.name, "cpu_ok");
}

#[test]
fn has_valid_after_compares_age_with_ttl() {
    let mut mgr = CheckpointManager::new().with_ttl(TimeSpan::from_secs(10));
    mgr.record(5, "cpu_ok");
    assert!(mgr.has_valid_after(5, "cpu_ok", TimeSpan::from_secs(10)));
    assert!(!mgr.has_valid_after(5, "cpu_ok", TimeSpan::from_nanos(10_000_000_001)));
    assert!(!mgr.has_valid_after(5, "mem_ok", TimeSpan::from_secs(1)));
}

#[test]
fn evict_aged_removes_exactly_the_old_ones() {
    let mut store = CheckpointStore::new();
    store.record(Checkpoint::new("a", 1));
    store.record(Checkpoint::new("b", 1));
    store.record(Checkpoint::new("c", 1));
    assert_eq!(store.ages().len(), 3);
    let ages = [TimeSpan::from_secs(5), TimeSpan::from_secs(61), TimeSpan::from_secs(60)];
    assert_eq!(store.evict_aged(TimeSpan::from_secs(60), &ages), 1);
    assert!(store.get(1, "a").is_some());
    assert!(store.get(1, "b").is_none());
    assert!(store.get(1, "c").is_some());
    let mut mgr = CheckpointManager::new().with_ttl(TimeSpan::from_secs(1));
    mgr.record(2, "x");
    mgr.record(2, "y");
    assert_eq!(mgr.evict_aged(&[TimeSpan::from_secs(2), TimeSpan::from_millis(1)]), 1);
    assert_eq!(mgr.count(), 1);
    assert!(mgr.has_valid_after(2, "y", TimeSpan::from_millis(2)));
}

#[test]
fn expiry_by_given_age() {
    let cp = Checkpoint::new("cpu_ok", 7);
    let ttl = TimeSpan::from_secs(60);
    assert!(!cp.is_expired_after(TimeSpan::from_secs(60), ttl));
    assert!(cp.is_expired_after(TimeSpan::from_nanos(60_000_000_001), ttl));
    assert!(!cp.is_expired_after(TimeSpan::from_secs(0), TimeSpan::from_secs(0)));
    assert!(cp.is_expired_after(TimeSpan::from_nanos(1), TimeSpan::from_secs(0)));
}
