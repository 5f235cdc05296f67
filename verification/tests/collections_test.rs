use procwatch::keyed_map::KeyedMap;
use procwatch::text::{
    decimal_string, index_of_char, push_bool, push_decimal, push_joined, sort_texts, text_contains,
    text_less,
};

#[test]
fn keyed_map_keeps_first_insertion_order() {
    let mut m: KeyedMap<String, u32> = KeyedMap::new();
    assert!(m.is_empty());
    m.insert("b".to_string(), 1);
    m.insert("a".to_string(), 2);
    m.insert("b".to_string(), 3);
    assert_eq!(m.len(), 2);
    assert_eq!(m.get("b"), Some(&3));
    assert_eq!(m.key_at(0), "b");
    assert_eq!(*m.value_at(1), 2);
    assert_eq!(m.remove("b"), Some(3));
    assert_eq!(m.remove("b"), None);
    assert!(!m.contains_key("b"));
    assert_eq!(m.key_at(0), "a");
    m.clear();
    assert_eq!(m.len(), 0);
}

#[test]
fn keyed_map_slot_creates_once() {
    let mut m: KeyedMap<String, Vec<u32>> = KeyedMap::new();
    let i = m.slot("k", Vec::new());
    m.value_at_mut(i).push(7);
    let j = m.slot("k", vec![99]);
    assert_eq!(i, j);
    assert_eq!(m.get("k"), Some(&vec![7]));
}

#[test]
fn text_helpers() {
    assert_eq!(decimal_string(0), "0");
    assert_eq!(decimal_string(1234567890123), "1234567890123");
    let mut s = String::from("x=");
    push_decimal(&mut s, 42);
    push_bool(&mut s, true);
    assert_eq!(s, "x=42true");
    let mut j = String::new();
    push_joined(&mut j, &["a", "b", "c"], ", ");
    assert_eq!(j, "a, b, c");
    assert!(text_contains("postgresql", "sql"));
    assert!(!text_contains("sq", "sql"));
    assert!(text_contains("abc", ""));
    assert!(text_less("app", "apple"));
    assert!(!text_less("b", "a"));
    assert_eq!(sort_texts(&vec!["zone", "app", "env"]), vec!["app", "env", "zone"]);
    assert_eq!(index_of_char("host:80", ':'), 4);
    assert_eq!(index_of_char("host", ':'), 4);
}
