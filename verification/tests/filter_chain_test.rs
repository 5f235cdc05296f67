use procwatch::filter_chain::{FilterChain, FilterRule};
use procwatch::process_filter::{Priority, ProcessFilter};

fn make_rule(name_pattern: &str, priority: Priority, label: &str) -> FilterRule {
    FilterRule::new(ProcessFilter::by_name(name_pattern), priority).with_label(label)
}

fn labels(chain: &FilterChain) -> Vec<String> {
    chain.rules().iter().map(|r| r.label.clone().unwrap_or_default()).collect()
}

#[test]
fn test_empty_chain_returns_none() {
    let chain = FilterChain::new();
    assert!(chain.evaluate("nginx", 1234).is_none());
}

#[test]
fn test_single_rule_matches() {
    let mut chain = FilterChain::new();
    chain.add_rule(make_rule("nginx", Priority::Medium, "nginx-rule"));
    let result = chain.evaluate("nginx", 1234);
    assert!(result.is_some());
    assert_eq!(result.unwrap().label.as_deref(), Some("nginx-rule"));
}

#[test]
fn test_no_match_returns_none() {
    let mut chain = FilterChain::new();
    chain.add_rule(make_rule("nginx", Priority::Medium, "nginx-rule"));
    assert!(chain.evaluate("apache", 9999).is_none());
}

#[test]
fn test_priority_ordering() {
    let mut chain = FilterChain::new();
    chain.add_rule(make_rule("nginx", Priority::Low, "low-rule"));
    chain.add_rule(make_rule("nginx", Priority::High, "high-rule"));
    let result = chain.evaluate("nginx", 42);
    assert_eq!(result.unwrap().label.as_deref(), Some("high-rule"));
}

#[test]
fn test_evaluate_all_returns_all_matches() {
    let mut chain = FilterChain::new();
    chain.add_rule(make_rule("nginx", Priority::Low, "low-rule"));
    chain.add_rule(make_rule("nginx", Priority::High, "high-rule"));
    let results = chain.evaluate_all("nginx", 42);
    assert_eq!(results.len(), 2);
}

#[test]
fn test_remove_rule() {
    let mut chain = FilterChain::new();
    chain.add_rule(make_rule("nginx", Priority::Medium, "to-remove"));
    assert_eq!(chain.rule_count(), 1);
    let removed = chain.remove_rule("to-remove");
    assert!(removed);
    assert_eq!(chain.rule_count(), 0);
}

#[test]
fn test_remove_nonexistent_rule() {
    let mut chain = FilterChain::new();
    let removed = chain.remove_rule("ghost");
    assert!(!removed);
}

#[test]
fn filter_chain_test_test_clear() {
    let mut chain = FilterChain::new();
    chain.add_rule(make_rule("nginx", Priority::High, "r1"));
    chain.add_rule(make_rule("apache", Priority::Low, "r2"));
    chain.clear();
    assert_eq!(chain.rule_count(), 0);
}

#[test]
fn equal_priorities_keep_insertion_order() {
    let mut chain = FilterChain::new();
    chain.add_rule(make_rule("a", Priority::Medium, "m1"));
    chain.add_rule(make_rule("a", Priority::High, "h1"));
    chain.add_rule(make_rule("a", Priority::Medium, "m2"));
    chain.add_rule(make_rule("a", Priority::Low, "l1"));
    chain.add_rule(make_rule("a", Priority::High, "h2"));
    assert_eq!(labels(&chain), vec!["h1", "h2", "m1", "m2", "l1"]);
    assert_eq!(chain.evaluate("a", 1).unwrap().label.as_deref(), Some("h1"));
}

#[test]
fn evaluate_all_keeps_chain_order_and_skips_non_matching() {
    let mut chain = FilterChain::new();
    chain.add_rule(make_rule("ngi", Priority::Low, "low"));
    chain.add_rule(make_rule("redis", Priority::High, "redis"));
    chain.add_rule(make_rule("nginx", Priority::Medium, "mid"));
    let all: Vec<&str> = chain
        .evaluate_all("nginx", 7)
        .iter()
        .map(|r| r.label.as_deref().unwrap())
        .collect();
    assert_eq!(all, vec!["mid", "low"]);
}

#[test]
fn remove_rule_removes_every_rule_with_label() {
    let mut chain = FilterChain::new();
    chain.add_rule(make_rule("a", Priority::Low, "dup"));
    chain.add_rule(make_rule("b", Priority::High, "keep"));
    chain.add_rule(make_rule("c", Priority::Medium, "dup"));
    assert!(chain.remove_rule("dup"));
    assert_eq!(labels(&chain), vec!["keep"]);
    let unlabelled = FilterRule::new(ProcessFilter::new(), Priority::Low);
    chain.add_rule(unlabelled);
    assert!(!chain.remove_rule("dup"));
    assert_eq!(chain.rule_count(), 2);
}

#[test]
fn empty_filter_matches_every_process() {
    let f = ProcessFilter::new();
    assert!(f.is_empty());
    assert!(f.matches("anything", 1));
    let g = ProcessFilter::by_name("sql");
    assert!(!g.is_empty());
    assert!(g.matches("postgresql", 2));
    assert!(!g.matches("redis", 3));
    assert!(ProcessFilter::by_name("").matches("x", 4));
    assert_eq!(Priority::High.rank(), 2);
    assert_eq!(Priority::Low.rank(), 0);
}
