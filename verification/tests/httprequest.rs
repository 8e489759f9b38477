use http::headers::Headers;
use http::httprequest::{parse_header_field, parse_request_line, HttpRequest, Method, Resource, Version};
use http::text::to_chars;

#[test]
fn test_method_into() {
    let m: Method = "GET".into();
    assert_eq!(m, Method::GET);
    let m: Method = "biubiubiu".into();
    assert_eq!(m, Method::Uninitialized);
}

#[test]
fn test_version_into() {
    let v: Version = "HTTP/2".into();
    assert_eq!(v, Version::V2_0);
    let v: Version = "HTTP/4".into();
    assert_eq!(v, Version::Uninitialized);
}

#[test]
fn test_read_http() {
    let s: String = String::from("GET /whitepaper/ HTTP/2\r\nHost: blog.tfei.moe\r\nUser-Agent: Mozilla/5.0 (Windows NT 10.0; Win64; x64;) Gecko/20100101 Firefox/120.0\r\nAccept: text/html,application/xhtml+xml,application/xml;q=0.9,image/avif,image/webp,*/*;q=0.8\r\nAccept-Language: en-US,en;q=0.5\r\nAccept-Encoding: gzip, deflate, br\r\n\r\n");

    let mut headers_expected = Headers::new();
    headers_expected.insert("Host".into(), " blog.tfei.moe".into());
    headers_expected.insert(
        "User-Agent".into(),
        " Mozilla/5.0 (Windows NT 10.0; Win64; x64;) Gecko/20100101 Firefox/120.0".into(),
    );
    headers_expected.insert("Accept".into(), " text/html,application/xhtml+xml,application/xml;q=0.9,image/avif,image/webp,*/*;q=0.8".into()
    );
    headers_expected.insert("Accept-Language".into(), " en-US,en;q=0.5".into());
    headers_expected.insert("Accept-Encoding".into(), " gzip, deflate, br".into());

    let request: HttpRequest = s.into();

    assert_eq!(Method::GET, request.method);
    assert_eq!(Resource::Path("/whitepaper/".to_string()), request.resource);
    assert_eq!(Version::V2_0, request.version);
    assert_eq!(headers_expected, request.headers);
}

#[test]
fn every_method_token_gives_its_variant() {
    assert_eq!(Method::from("GET"), Method::GET);
    assert_eq!(Method::from("POST"), Method::POST);
    assert_eq!(Method::from("PUT"), Method::PUT);
    assert_eq!(Method::from("DELETE"), Method::DELETE);
    assert_eq!(Method::from("get"), Method::Uninitialized);
    assert_eq!(Method::from("GETS"), Method::Uninitialized);
    assert_eq!(Method::from(""), Method::Uninitialized);
}

#[test]
fn every_version_string_gives_its_variant() {
    assert_eq!(Version::from("HTTP/1.1"), Version::V1_1);
    assert_eq!(Version::from("HTTP/2"), Version::V2_0);
    assert_eq!(Version::from("HTTP/3"), Version::V3_0);
    assert_eq!(Version::from("HTTP/2.0"), Version::Uninitialized);
    assert_eq!(Version::from("http/2"), Version::Uninitialized);
    assert_eq!(Version::from(""), Version::Uninitialized);
}

#[test]
fn request_with_headers_and_body() {
    let request = HttpRequest::parse("GET /path HTTP/2\r\nHost: example.com\r\nX-Empty:\r\n\r\nhello world");
    assert_eq!(request.method, Method::GET);
    assert_eq!(request.resource, Resource::Path("/path".to_string()));
    assert_eq!(request.version, Version::V2_0);
    assert_eq!(request.headers.len(), 2);
    assert_eq!(request.headers.get("Host"), Some(" example.com"));
    assert_eq!(request.headers.get("X-Empty"), Some(""));
    assert_eq!(request.body, "hello world");
}

#[test]
fn line_feed_alone_ends_a_line() {
    let request = HttpRequest::parse("POST /submit HTTP/1.1\nHost: a\n\npayload\n");
    assert_eq!(request.method, Method::POST);
    assert_eq!(request.resource, Resource::Path("/submit".to_string()));
    assert_eq!(request.version, Version::V1_1);
    assert_eq!(request.headers.get("Host"), Some(" a"));
    assert_eq!(request.body, "payload");
}

#[test]
fn empty_text_gives_a_blank_request() {
    let request = HttpRequest::parse("");
    assert_eq!(request.method, Method::Uninitialized);
    assert_eq!(request.resource, Resource::Path(String::new()));
    assert_eq!(request.version, Version::Uninitialized);
    assert_eq!(request.headers.len(), 0);
    assert_eq!(request.body, "");
    assert_eq!(request, HttpRequest::parse("\r\n\r\n"));
}

#[test]
fn header_value_keeps_later_colons() {
    let request = HttpRequest::parse("Date: 12:30:05\r\nReferer: ftp://host/x\r\n");
    assert_eq!(request.headers.get("Date"), Some(" 12:30:05"));
    assert_eq!(request.headers.get("Referer"), Some(" ftp://host/x"));
}

#[test]
fn later_header_replaces_earlier_one() {
    let request = HttpRequest::parse("Host: a\r\nAccept: x\r\nHost: b\r\n");
    assert_eq!(request.headers.len(), 2);
    assert_eq!(request.headers.get("Host"), Some(" b"));
    assert_eq!(request.headers.entry(0), ("Host", " b"));
    assert_eq!(request.headers.entry(1), ("Accept", " x"));
}

#[test]
fn last_body_line_wins() {
    let request = HttpRequest::parse("PUT /x HTTP/3\r\n\r\nfirst\r\nsecond\r\n");
    assert_eq!(request.method, Method::PUT);
    assert_eq!(request.version, Version::V3_0);
    assert_eq!(request.body, "second");
}

#[test]
fn request_line_with_missing_tokens_leaves_fields_blank() {
    let request = HttpRequest::parse("HTTP/1.1");
    assert_eq!(request.method, Method::Uninitialized);
    assert_eq!(request.resource, Resource::Path(String::new()));
    assert_eq!(request.version, Version::Uninitialized);

    let request = HttpRequest::parse("DELETE /HTTP");
    assert_eq!(request.method, Method::DELETE);
    assert_eq!(request.resource, Resource::Path("/HTTP".to_string()));
    assert_eq!(request.version, Version::Uninitialized);
}

#[test]
fn line_that_names_the_protocol_is_a_request_line() {
    let request = HttpRequest::parse("GET / HTTP/1.1\r\nUpgrade: HTTP/2\r\n");
    assert_eq!(request.method, Method::Uninitialized);
    assert_eq!(request.resource, Resource::Path("HTTP/2".to_string()));
    assert_eq!(request.version, Version::Uninitialized);
    assert_eq!(request.headers.len(), 0);
}

#[test]
fn carriage_return_is_kept_on_an_unterminated_last_line() {
    let request = HttpRequest::parse("body\r");
    assert_eq!(request.body, "body\r");
    let request = HttpRequest::parse("body\r\n");
    assert_eq!(request.body, "body");
}

#[test]
fn request_line_fields_are_split_on_any_whitespace() {
    let (method, path, version) =
        parse_request_line(&to_chars("  GET\t/a\u{a0}b \u{3000}HTTP/1.1  extra"));
    assert_eq!(method, Method::GET);
    assert_eq!(path, "/a");
    assert_eq!(version, Version::Uninitialized);
    let (method, path, version) = parse_request_line(&to_chars("PUT /long/path HTTP/3"));
    assert_eq!((method, path.as_str(), version), (Method::PUT, "/long/path", Version::V3_0));
}

#[test]
fn header_field_is_split_at_the_first_colon() {
    let (name, value) = parse_header_field(&to_chars("Host: blog.tfei.moe"));
    assert_eq!(name, "Host");
    assert_eq!(value, " blog.tfei.moe");
    let (name, value) = parse_header_field(&to_chars(":"));
    assert_eq!(name, "");
    assert_eq!(value, "");
    let (name, value) = parse_header_field(&to_chars("a:b:c"));
    assert_eq!(name, "a");
    assert_eq!(value, "b:c");
    let (name, value) = parse_header_field(&to_chars("no colon"));
    assert_eq!(name, "no colon");
    assert_eq!(value, "");
}

#[test]
fn requests_compare_by_what_they_state() {
    let a = HttpRequest::parse("GET / HTTP/1.1\r\nA: 1\r\nB: 2\r\n\r\nx");
    let b = HttpRequest::parse("GET / HTTP/1.1\nB: 2\nA: 1\n\nx");
    let c = HttpRequest::parse("GET / HTTP/1.1\r\nA: 1\r\nB: 3\r\n\r\nx");
    assert_eq!(a, b);
    assert_ne!(a, c);
}
