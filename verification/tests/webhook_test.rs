use procwatch::webhook::{http_target, is_success_status, WebhookClient};

#[test]
fn http_targets() {
    let t = http_target("http://hooks.example.com:8080/alerts/abc").unwrap();
    assert_eq!((t.host.as_str(), t.port, t.path.as_str()), ("hooks.example.com", 8080, "/alerts/abc"));
    let t = http_target("http://localhost").unwrap();
    assert_eq!((t.host.as_str(), t.port, t.path.as_str()), ("localhost", 80, "/"));
    let t = http_target("http://10.0.0.1/hook").unwrap();
    assert_eq!((t.host.as_str(), t.port, t.path.as_str()), ("10.0.0.1", 80, "/hook"));
    assert!(http_target("https://secure.example.com/").is_none());
    assert!(http_target("http://:80/x").is_none());
    assert!(http_target("http://host:99999/").is_none());
    assert!(http_target("http://host:abc/").is_none());
    assert!(http_target("http:/").is_none());
    assert_eq!(WebhookClient::new("http://a/b".to_string()).url(), "http://a/b");
}

#[test]
fn status_lines() {
    assert!(is_success_status("HTTP/1.1 200 OK\r\n"));
    assert!(is_success_status("HTTP/1.1 204 No Content"));
    assert!(!is_success_status("HTTP/1.1 404 Not Found"));
    assert!(!is_success_status("HTTP/1.1 500"));
    assert!(!is_success_status(""));
    assert!(!is_success_status("garbage"));
}
