use procwatch::aggregator::memory_summary;

#[test]
fn memory_summary_mean_and_max() {
    assert_eq!(memory_summary(&[]), None);
    assert_eq!(memory_summary(&[1024]), Some((1024, 1024)));
    assert_eq!(memory_summary(&[10, 30, 21]), Some((20, 30)));
    assert_eq!(memory_summary(&[5, 6]), Some((5, 6)));
    assert_eq!(memory_summary(&[u64::MAX, 0]), Some((u64::MAX / 2, u64::MAX)));
}
