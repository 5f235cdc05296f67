use procwatch::label::{LabelSelector, LabelSet};
use procwatch::label_manager::LabelManager;
use procwatch::label_reporter::{LabelReport, LabelReporter};

fn make_set(pairs: &[(&str, &str)]) -> LabelSet {
    let mut s = LabelSet::new();
    for (k, v) in pairs {
        s.insert(*k, *v);
    }
    s
}

#[test]
fn test_label_set_insert_and_get() {
    let mut s = LabelSet::new();
    s.insert("env", "prod");
    assert_eq!(s.get("env"), Some("prod"));
    assert_eq!(s.get("missing"), None);
}

#[test]
fn test_label_set_merge_no_overwrite() {
    let mut base = make_set(&[("env", "prod"), ("region", "us-east")]);
    let extra = make_set(&[("env", "staging"), ("team", "ops")]);
    base.merge(&extra);
    assert_eq!(base.get("env"), Some("prod"));
    assert_eq!(base.get("team"), Some("ops"));
}

#[test]
fn test_selector_matches() {
    let labels = make_set(&[("env", "prod"), ("app", "nginx")]);
    let sel = LabelSelector::new().require("env", "prod");
    assert!(sel.matches(&labels));
}

#[test]
fn test_selector_no_match() {
    let labels = make_set(&[("env", "staging")]);
    let sel = LabelSelector::new().require("env", "prod");
    assert!(!sel.matches(&labels));
}

#[test]
fn test_empty_selector_matches_all() {
    let labels = make_set(&[("env", "prod")]);
    let sel = LabelSelector::new();
    assert!(sel.matches(&labels));
}

#[test]
fn test_manager_get_labels_with_defaults() {
    let defaults = make_set(&[("region", "us-west")]);
    let mut mgr = LabelManager::new(defaults);
    mgr.set_labels("nginx", make_set(&[("app", "nginx")]));
    let labels = mgr.get_labels("nginx");
    assert_eq!(labels.get("region"), Some("us-west"));
    assert_eq!(labels.get("app"), Some("nginx"));
}

#[test]
fn test_manager_find_matching() {
    let mut mgr = LabelManager::new(LabelSet::new());
    mgr.set_labels("nginx", make_set(&[("env", "prod")]));
    mgr.set_labels("redis", make_set(&[("env", "staging")]));
    let sel = LabelSelector::new().require("env", "prod");
    let matches = mgr.find_matching(&sel);
    assert_eq!(matches, vec!["nginx"]);
}

#[test]
fn test_reporter_format() {
    let mut mgr = LabelManager::new(LabelSet::new());
    mgr.set_labels("nginx", make_set(&[("env", "prod"), ("app", "nginx")]));
    let report = LabelReporter::report_process(&mgr, "nginx");
    let formatted = report.format();
    assert!(formatted.contains("nginx"));
    assert!(formatted.contains("env=prod"));
    assert!(formatted.contains("app=nginx"));
}

#[test]
fn label_test_test_manager_remove() {
    let mut mgr = LabelManager::new(LabelSet::new());
    mgr.set_labels("nginx", make_set(&[("env", "prod")]));
    assert_eq!(mgr.process_count(), 1);
    mgr.remove("nginx");
    assert_eq!(mgr.process_count(), 0);
}

#[test]
fn defaults_take_precedence_over_process_labels() {
    let defaults = make_set(&[("env", "prod")]);
    let mut mgr = LabelManager::new(defaults);
    mgr.set_labels("api", make_set(&[("env", "dev"), ("tier", "web")]));
    let labels = mgr.get_labels("api");
    assert_eq!(labels.get("env"), Some("prod"));
    assert_eq!(labels.get("tier"), Some("web"));
    let unknown = mgr.get_labels("nobody");
    assert_eq!(unknown.get("env"), Some("prod"));
    assert_eq!(unknown.len(), 1);
}

#[test]
fn report_format_sorts_pairs() {
    let mut mgr = LabelManager::new(LabelSet::new());
    mgr.set_labels("nginx", make_set(&[("zone", "a"), ("app", "nginx")]));
    let report = LabelReporter::report_process(&mgr, "nginx");
    assert_eq!(report.format(), "[nginx] app=nginx, zone=a");
}

#[test]
fn remove_and_contains_key() {
    let mut s = make_set(&[("a", "1"), ("b", "2")]);
    assert!(s.contains_key("a"));
    assert_eq!(s.remove("a"), Some("1".to_string()));
    assert!(!s.contains_key("a"));
    assert_eq!(s.len(), 1);
    assert!(!s.is_empty());
}

#[test]
fn matching_reports_follow_sorted_names() {
    let mut mgr = LabelManager::new(make_set(&[("team", "ops")]));
    mgr.set_labels("redis", make_set(&[("env", "prod"), ("app", "cache")]));
    mgr.set_labels("nginx", make_set(&[("env", "prod")]));
    mgr.set_labels("cron", make_set(&[("env", "dev")]));
    let sel = LabelSelector::new().require("env", "prod");
    let reports = LabelReporter::report_matching(&mgr, &sel);
    let mut names: Vec<&str> = mgr.find_matching(&sel);
    names.sort();
    assert_eq!(names, vec!["nginx", "redis"]);
    assert_eq!(reports.len(), names.len());
    for (rep, name) in reports.iter().zip(names.iter()) {
        let expected = LabelReport::from_label_set(name, &mgr.get_labels(name));
        assert_eq!(rep.process, expected.process);
        assert_eq!(rep.labels, expected.labels);
    }
    assert_eq!(reports[1].format(), "[redis] app=cache, env=prod, team=ops");
}
