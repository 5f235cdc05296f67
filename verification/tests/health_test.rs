use procwatch::health::{HealthChecker, HealthReport, HealthStatus};
use procwatch::time::TimeSpan;

#[test]
fn test_new_checker_reports_healthy() {
    let checker = HealthChecker::new();
    let report = checker.report();
    assert!(report.is_healthy());
    assert_eq!(report.checks_passed, 0);
    assert_eq!(report.checks_failed, 0);
}

#[test]
fn test_all_passes_is_healthy() {
    let mut checker = HealthChecker::new();
    checker.record_pass();
    checker.record_pass();
    checker.record_pass();
    let report = checker.report();
    assert!(report.is_healthy());
    assert_eq!(report.checks_passed, 3);
    assert_eq!(report.checks_failed, 0);
}

#[test]
fn test_minority_failures_is_degraded() {
    let mut checker = HealthChecker::new();
    checker.record_pass();
    checker.record_pass();
    checker.record_pass();
    checker.record_fail();
    let report = checker.report();
    assert!(!report.is_healthy());
    assert!(matches!(report.status, HealthStatus::Degraded(_)));
}

#[test]
fn test_majority_failures_is_unhealthy() {
    let mut checker = HealthChecker::new();
    checker.record_pass();
    checker.record_fail();
    checker.record_fail();
    let report = checker.report();
    assert!(!report.is_healthy());
    assert!(matches!(report.status, HealthStatus::Unhealthy(_)));
}

#[test]
fn test_summary_contains_status() {
    let report = HealthReport::new(HealthStatus::Healthy, TimeSpan::from_secs(10), 5, 0);
    let summary = report.summary();
    assert!(summary.contains("healthy"));
    assert!(summary.contains("passed=5"));
    assert!(summary.contains("failed=0"));
}

#[test]
fn test_summary_degraded_message() {
    let report = HealthReport::new(
        HealthStatus::Degraded("disk slow".to_string()),
        TimeSpan::from_secs(60),
        8,
        2,
    );
    let summary = report.summary();
    assert!(summary.contains("degraded"));
    assert!(summary.contains("disk slow"));
}

#[test]
fn summary_exact_text() {
    let report = HealthReport::new(HealthStatus::Healthy, TimeSpan::from_secs(10), 5, 0);
    assert_eq!(report.summary(), "status=healthy uptime=10.0s passed=5 failed=0");
    let report = HealthReport::new(
        HealthStatus::Unhealthy("down".to_string()),
        TimeSpan::from_millis(12_340),
        1,
        2,
    );
    assert_eq!(report.summary(), "status=unhealthy: down uptime=12.3s passed=1 failed=2");
}

#[test]
fn exactly_half_failed_is_unhealthy() {
    let mut checker = HealthChecker::new();
    checker.record_pass();
    checker.record_fail();
    let report = checker.report();
    assert!(matches!(report.status, HealthStatus::Unhealthy(_)));
}

#[test]
fn summary_uptime_halfway_goes_to_even_tenth() {
    let report = HealthReport::new(HealthStatus::Healthy, TimeSpan::from_millis(250), 0, 0);
    assert_eq!(report.summary(), "status=healthy uptime=0.2s passed=0 failed=0");
    let report = HealthReport::new(HealthStatus::Healthy, TimeSpan::from_millis(750), 0, 0);
    assert_eq!(report.summary(), "status=healthy uptime=0.8s passed=0 failed=0");
    let report = HealthReport::new(HealthStatus::Healthy, TimeSpan::from_millis(260), 0, 0);
    assert_eq!(report.summary(), "status=healthy uptime=0.3s passed=0 failed=0");
    assert_eq!(format!("{:.1}", 0.25_f64), "0.2");
    assert_eq!(format!("{:.1}", 0.75_f64), "0.8");
}
