use http::headers::Headers;
use http::httpresponse::HttpResponse;

#[test]
fn test_response_struct_creation_200() {
    let response_actual =
        HttpResponse::new("HTTP/2.0", "200", None, Some("Biu Biu Biu!!!".into()));
    let response_expected = HttpResponse {
        version: "HTTP/2.0",
        status_code: "200",
        status_text: "OK",
        headers: {
            let mut h = Headers::new();
            h.insert("Content-Type", "text/html");
            Some(h)
        },
        body: Some("Biu Biu Biu!!!".into()),
    };
    assert_eq!(response_actual, response_expected);
}

#[test]
fn test_response_struct_creation_404() {
    let response_actual =
        HttpResponse::new("HTTP/2.0", "404", None, Some("No Rice, No Life".into()));
    let response_expected = HttpResponse {
        version: "HTTP/2.0",
        status_code: "404",
        status_text: "Not Found",
        headers: {
            let mut h = Headers::new();
            h.insert("Content-Type", "text/html");
            Some(h)
        },
        body: Some("No Rice, No Life".into()),
    };
    assert_eq!(response_actual, response_expected);
}

#[test]
fn test_response_struct_creation() {
    let response_expected = HttpResponse {
        version: "HTTP/1.1",
        status_code: "404",
        status_text: "Not Found",
        headers: {
            let mut h = Headers::new();
            h.insert("Content-Type", "text/html");
            Some(h)
        },
        body: Some("Rust~".into()),
    };
    let http_string: String = response_expected.into();
    let response_actual =
        "HTTP/1.1 404 Not Found\r\nContent-Type:text/html\r\nContent-Length: 5\r\n\r\nRust~";
    assert_eq!(http_string, response_actual);
}

#[test]
fn test_http_response_creation() {
    let response_expected = HttpResponse {
        version: "HTTP/2.0",
        status_code: "200",
        status_text: "OK",
        headers: {
            let mut h = Headers::new();
            h.insert("Content-Type", "text/html");
            Some(h)
        },
        body: Some("BiuBiuBiu".into()),
    };
    let http_string: String = response_expected.into();
    let response_actual =
        "HTTP/2.0 200 OK\r\nContent-Type:text/html\r\nContent-Length: 9\r\n\r\nBiuBiuBiu";
    assert_eq!(http_string, response_actual);
}

#[test]
fn every_status_code_gets_its_phrase() {
    assert_eq!(HttpResponse::new("HTTP/1.1", "200", None, None).status_text(), "OK");
    assert_eq!(HttpResponse::new("HTTP/1.1", "400", None, None).status_text(), "Bad Request");
    assert_eq!(HttpResponse::new("HTTP/1.1", "404", None, None).status_text(), "Not Found");
    assert_eq!(
        HttpResponse::new("HTTP/1.1", "500", None, None).status_text(),
        "Internal Server Error"
    );
}

#[test]
fn unknown_status_code_falls_back_to_not_found() {
    let response = HttpResponse::new("HTTP/1.1", "999", None, Some("x".into()));
    assert_eq!(response.status_code(), "999");
    assert_eq!(response.status_text(), "Not Found");
    assert_eq!(HttpResponse::new("HTTP/1.1", "", None, None).status_text(), "Not Found");
    assert_eq!(HttpResponse::new("HTTP/1.1", "2000", None, None).status_text(), "Not Found");
}

#[test]
fn built_response_without_headers_gets_the_default() {
    let response = HttpResponse::new("HTTP/2.0", "200", None, Some("X".into()));
    assert_eq!(response.version(), "HTTP/2.0");
    assert_eq!(response.status_text(), "OK");
    let headers = response.headers.as_ref().unwrap();
    assert_eq!(headers.len(), 1);
    assert_eq!(headers.entry(0), ("Content-Type", "text/html"));
    assert_eq!(response.headers(), "Content-Type:text/html\r\n");
    assert_eq!(response.body(), "X");
}

#[test]
fn given_headers_are_taken_as_they_are() {
    let mut given = Headers::new();
    given.insert("Server", " unit");
    given.insert("X-Trace", "abc");
    let response = HttpResponse::new("HTTP/1.1", "200", Some(given), Some("ok".into()));
    let headers = response.headers.as_ref().unwrap();
    assert_eq!(headers.len(), 2);
    assert_eq!(headers.get("Content-Type"), None);
    assert_eq!(
        response.serialize(),
        "HTTP/1.1 200 OK\r\nServer: unit\r\nX-Trace:abc\r\nContent-Length: 2\r\n\r\nok"
    );
}

#[test]
fn round_trip_of_a_built_response() {
    let text: String = HttpResponse::new("HTTP/1.1", "404", None, Some("Rust~".into())).into();
    assert_eq!(
        text,
        "HTTP/1.1 404 Not Found\r\nContent-Type:text/html\r\nContent-Length: 5\r\n\r\nRust~"
    );
}

#[test]
fn serializing_twice_gives_the_same_text() {
    let mut given = Headers::new();
    given.insert("B", "2");
    given.insert("A", "1");
    let response = HttpResponse::new("HTTP/1.1", "500", Some(given), Some("boom".into()));
    let first = response.serialize();
    let second = response.serialize();
    assert_eq!(first, second);
    assert_eq!(
        first,
        "HTTP/1.1 500 Internal Server Error\r\nB:2\r\nA:1\r\nContent-Length: 4\r\n\r\nboom"
    );
    let third: String = response.clone().into();
    assert_eq!(third, first);
}

#[test]
fn empty_body_has_length_zero() {
    let text = HttpResponse::new("HTTP/1.1", "200", None, Some("".into())).serialize();
    assert_eq!(text, "HTTP/1.1 200 OK\r\nContent-Type:text/html\r\nContent-Length: 0\r\n\r\n");
    assert!(text.ends_with("Content-Length: 0\r\n\r\n"));
}

#[test]
fn absent_body_is_sent_as_empty() {
    let response = HttpResponse::new("HTTP/1.1", "400", None, None);
    assert_eq!(response.body(), "");
    assert_eq!(
        response.serialize(),
        "HTTP/1.1 400 Bad Request\r\nContent-Type:text/html\r\nContent-Length: 0\r\n\r\n"
    );
}

#[test]
fn content_length_counts_bytes() {
    let text = HttpResponse::new("HTTP/1.1", "200", None, Some("héllo wörld, 12345".into()))
        .serialize();
    assert_eq!(
        text,
        "HTTP/1.1 200 OK\r\nContent-Type:text/html\r\nContent-Length: 20\r\n\r\nhéllo wörld, 12345"
    );
    let long = "x".repeat(1234);
    let text = HttpResponse::new("HTTP/1.1", "200", None, Some(long.clone())).serialize();
    assert!(text.contains("\r\nContent-Length: 1234\r\n\r\n"));
    assert!(text.ends_with(&long));
}

#[test]
fn default_response_is_empty() {
    let response = HttpResponse::default();
    assert_eq!(response.version(), "");
    assert_eq!(response.status_code(), "");
    assert_eq!(response.status_text(), "");
    assert!(response.headers.is_none());
    assert!(response.body.is_none());
    assert_eq!(response.headers(), "");
    assert_eq!(response.serialize(), "  \r\nContent-Length: 0\r\n\r\n");
}

#[test]
fn responses_compare_by_their_fields() {
    let a = HttpResponse::new("HTTP/1.1", "200", None, Some("x".into()));
    let b = HttpResponse::new("HTTP/1.1", "200", None, Some("x".into()));
    let c = HttpResponse::new("HTTP/1.1", "200", None, Some("y".into()));
    let d = HttpResponse::new("HTTP/1.1", "200", None, None);
    assert_eq!(a, b);
    assert_ne!(a, c);
    assert_ne!(a, d);
    assert_eq!(a.clone(), a);
}
