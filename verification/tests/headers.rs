use http::headers::Headers;

#[test]
fn new_headers_are_empty() {
    let headers = Headers::new();
    assert_eq!(headers.len(), 0);
    assert_eq!(headers.get("Host"), None);
}

#[test]
fn last_write_wins_and_keeps_the_place() {
    let mut headers = Headers::new();
    headers.insert("Host", "a");
    headers.insert("Accept", "b");
    headers.insert("Host", "c");
    assert_eq!(headers.len(), 2);
    assert_eq!(headers.get("Host"), Some("c"));
    assert_eq!(headers.get("Accept"), Some("b"));
    assert_eq!(headers.entry(0), ("Host", "c"));
    assert_eq!(headers.entry(1), ("Accept", "b"));
}

#[test]
fn names_are_compared_exactly() {
    let mut headers = Headers::new();
    headers.insert_owned("Host".to_string(), "a".to_string());
    assert_eq!(headers.get("host"), None);
    assert_eq!(headers.get("Host "), None);
    assert_eq!(headers.get("Host"), Some("a"));
}

#[test]
fn equality_forgets_the_order() {
    let mut a = Headers::new();
    a.insert("A", "1");
    a.insert("B", "2");
    let mut b = Headers::new();
    b.insert("B", "2");
    b.insert("A", "1");
    assert_eq!(a, b);
    let mut c = Headers::new();
    c.insert("A", "1");
    assert_ne!(a, c);
    assert_ne!(c, a);
    c.insert("B", "3");
    assert_ne!(a, c);
    c.insert("B", "2");
    assert_eq!(a, c);
    let mut d = Headers::new();
    d.insert("A", "1");
    d.insert("C", "2");
    assert_ne!(a, d);
}

#[test]
fn clone_keeps_entries_and_order() {
    let mut a = Headers::new();
    a.insert("B", "2");
    a.insert("A", "1");
    let b = a.clone();
    assert_eq!(b.len(), 2);
    assert_eq!(b.entry(0), ("B", "2"));
    assert_eq!(b.entry(1), ("A", "1"));
    assert_eq!(a, b);
}
