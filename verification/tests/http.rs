use phprs::http::headers::Headers;
use phprs::http::method::Method;
use phprs::http::parser::{find_crlf, parse_request, ParseError};
use phprs::http::request::{Request, RequestBuilder};
use phprs::http::response::{write_u16, Response};
use phprs::http::server::ConnectionError;
use phprs::http::status::StatusCode;

#[test]
fn test_headers_basic() {
    let mut headers = Headers::new();
    assert!(headers.is_empty());

    headers.insert("Content-Type", "application/json");
    headers.insert("Content-Length", "42");

    assert_eq!(headers.len(), 2);
    assert_eq!(headers.get("content-type"), Some("application/json"));
    assert_eq!(headers.get("content-length"), Some("42"));
    assert_eq!(headers.content_length(), Some(42));
}

#[test]
fn test_headers_update() {
    let mut headers = Headers::new();
    headers.insert("Content-Type", "text/plain");
    headers.insert("Content-Type", "application/json");

    assert_eq!(headers.len(), 1);
    assert_eq!(headers.content_type(), Some("application/json"));
}

#[test]
fn test_headers_overflow() {
    let mut headers = Headers::new();
    for i in 0..20 {
        let name = format!("X-Header-{}", i);
        let name: &'static str = Box::leak(name.into_boxed_str());
        headers.insert(name, "value");
    }
    assert_eq!(headers.len(), 20);
}

#[test]
fn headers_test_keep_alive() {
    let mut headers = Headers::new();
    assert!(headers.is_keep_alive());

    headers.insert("Connection", "keep-alive");
    assert!(headers.is_keep_alive());

    headers.insert("Connection", "close");
    assert!(!headers.is_keep_alive());
}

#[test]
fn test_from_bytes() {
    assert_eq!(Method::from_bytes(b"GET"), Some(Method::Get));
    assert_eq!(Method::from_bytes(b"get"), Some(Method::Get));
    assert_eq!(Method::from_bytes(b"POST"), Some(Method::Post));
    assert_eq!(Method::from_bytes(b"PUT"), Some(Method::Put));
    assert_eq!(Method::from_bytes(b"DELETE"), Some(Method::Delete));
    assert_eq!(Method::from_bytes(b"PATCH"), Some(Method::Patch));
    assert_eq!(Method::from_bytes(b"HEAD"), Some(Method::Head));
    assert_eq!(Method::from_bytes(b"OPTIONS"), Some(Method::Options));
    assert_eq!(Method::from_bytes(b"INVALID"), None);
}

#[test]
fn test_properties() {
    assert!(Method::Get.is_safe());
    assert!(!Method::Post.is_safe());
    assert!(Method::Get.is_idempotent());
    assert!(Method::Put.is_idempotent());
    assert!(!Method::Post.is_idempotent());
    assert!(Method::Post.has_body());
    assert!(!Method::Get.has_body());
}

#[test]
fn test_full_roundtrip() {
    let raw = RequestBuilder::new()
        .post("/api/users")
        .header("Content-Type", "application/json")
        .header("Accept", "application/json")
        .json(r#"{"name":"Alice"}"#)
        .build_bytes();

    let (req, _) = parse_request(&raw).unwrap();

    assert_eq!(req.method, Method::Post);
    assert_eq!(req.path, "/api/users");
    assert_eq!(req.content_type(), Some("application/json"));
    assert_eq!(req.body_str(), Some(r#"{"name":"Alice"}"#));

    let resp = Response::created()
        .header("Location", "/api/users/1")
        .json(r#"{"id":1,"name":"Alice"}"#);

    let bytes = resp.to_bytes();
    let s = String::from_utf8(bytes).unwrap();

    assert!(s.starts_with("HTTP/1.1 201 Created"));
    assert!(s.contains("Location: /api/users/1"));
    assert!(s.contains(r#"{"id":1,"name":"Alice"}"#));
}

#[test]
fn test_method_enum() {
    assert_eq!(Method::Get as u8, 0);
    assert_eq!(Method::Post as u8, 1);
    assert_eq!(Method::Put as u8, 2);
    assert_eq!(Method::Delete as u8, 3);
}

#[test]
fn test_status_code() {
    assert_eq!(StatusCode::OK().code(), 200);
    assert_eq!(StatusCode::NOT_FOUND().code(), 404);
    assert!(StatusCode::OK().is_success());
    assert!(StatusCode::NOT_FOUND().is_client_error());
}

#[test]
fn test_parse_simple_get() {
    let raw = b"GET /path HTTP/1.1\r\nHost: localhost\r\n\r\n";
    let (req, consumed) = parse_request(raw).unwrap();

    assert_eq!(req.method, Method::Get);
    assert_eq!(req.path, "/path");
    assert_eq!(req.version, "HTTP/1.1");
    assert_eq!(req.header("Host"), Some("localhost"));
    assert_eq!(consumed, raw.len());
}

#[test]
fn test_parse_with_query() {
    let raw = b"GET /search?q=rust&page=1 HTTP/1.1\r\n\r\n";
    let (req, _) = parse_request(raw).unwrap();

    assert_eq!(req.path, "/search");
    assert_eq!(req.query, Some("q=rust&page=1"));
    assert_eq!(req.query_param("q"), Some("rust"));
    assert_eq!(req.query_param("page"), Some("1"));
}

#[test]
fn test_parse_post_with_body() {
    let raw = b"POST /api/users HTTP/1.1\r\nContent-Type: application/json\r\nContent-Length: 8\r\n\r\n{\"id\":1}extra";
    let (req, consumed) = parse_request(raw).unwrap();

    assert_eq!(req.method, Method::Post);
    assert_eq!(req.path, "/api/users");
    assert_eq!(req.content_type(), Some("application/json"));
    assert_eq!(req.body, b"{\"id\":1}");
    assert_eq!(consumed, raw.len() - 5);
}

#[test]
fn test_parse_incomplete() {
    let raw = b"GET /path HTTP/1.1\r\nHost: local";
    let result = parse_request(raw);
    assert!(matches!(result, Err(ParseError::Incomplete)));
}

#[test]
fn test_parse_multiple_headers() {
    let raw = b"GET / HTTP/1.1\r\n\
        Host: localhost\r\n\
        Accept: application/json\r\n\
        User-Agent: test\r\n\
        X-Custom: value\r\n\
        \r\n";

    let (req, _) = parse_request(raw).unwrap();

    assert_eq!(req.header("Host"), Some("localhost"));
    assert_eq!(req.header("Accept"), Some("application/json"));
    assert_eq!(req.header("User-Agent"), Some("test"));
    assert_eq!(req.header("X-Custom"), Some("value"));
}

#[test]
fn test_parse_invalid_method() {
    let raw = b"INVALID /path HTTP/1.1\r\n\r\n";
    let result = parse_request(raw);
    assert!(matches!(result, Err(ParseError::InvalidMethod)));
}

#[test]
fn parser_test_find_crlf() {
    assert_eq!(find_crlf(b"hello\r\nworld"), Some(5));
    assert_eq!(find_crlf(b"hello"), None);
    assert_eq!(find_crlf(b"\r\n"), Some(0));
}

#[test]
fn parser_test_keep_alive() {
    let raw = b"GET / HTTP/1.1\r\nConnection: keep-alive\r\n\r\n";
    let (req, _) = parse_request(raw).unwrap();
    assert!(req.is_keep_alive());

    let raw = b"GET / HTTP/1.1\r\nConnection: close\r\n\r\n";
    let (req, _) = parse_request(raw).unwrap();
    assert!(!req.is_keep_alive());
}

#[test]
fn test_split_uri() {
    assert_eq!(Request::split_uri("/path"), ("/path", None));
    assert_eq!(Request::split_uri("/path?query=1"), ("/path", Some("query=1")));
    assert_eq!(Request::split_uri("/path?"), ("/path", None));
    assert_eq!(Request::split_uri("/?a=b"), ("/", Some("a=b")));
}

#[test]
fn test_query_param() {
    let headers = Headers::new();
    let req = Request::new(
        Method::Get,
        "/search?q=rust&page=2&active",
        "HTTP/1.1",
        headers,
        &[],
    );

    assert_eq!(req.query_param("q"), Some("rust"));
    assert_eq!(req.query_param("page"), Some("2"));
    assert_eq!(req.query_param("active"), Some(""));
    assert_eq!(req.query_param("missing"), None);
}

#[test]
fn test_request_builder() {
    let bytes = RequestBuilder::new()
        .get("/api/users")
        .header("Host", "localhost")
        .build_bytes();

    let s = String::from_utf8(bytes).unwrap();
    assert!(s.starts_with("GET /api/users HTTP/1.1\r\n"));
    assert!(s.contains("Host: localhost"));
}

#[test]
fn test_response_basic() {
    let resp = Response::ok()
        .header("X-Custom", "value")
        .body_str("Hello");

    let bytes = resp.to_bytes();
    let s = String::from_utf8(bytes).unwrap();

    assert!(s.starts_with("HTTP/1.1 200 OK\r\n"));
    assert!(s.contains("X-Custom: value\r\n"));
    assert!(s.contains("Content-Length: 5\r\n"));
    assert!(s.ends_with("\r\n\r\nHello"));
}

#[test]
fn test_response_json() {
    let resp = Response::ok().json(r#"{"ok":true}"#);

    let bytes = resp.to_bytes();
    let s = String::from_utf8(bytes).unwrap();

    assert!(s.contains("Content-Type: application/json\r\n"));
    assert!(s.ends_with(r#"{"ok":true}"#));
}

#[test]
fn test_response_not_found() {
    let resp = Response::not_found().text("Page not found");

    assert_eq!(resp.status, StatusCode::NOT_FOUND());
    assert_eq!(resp.body_len(), 14);
}

#[test]
fn test_write_u16() {
    let mut buf = Vec::new();
    write_u16(&mut buf, 200);
    assert_eq!(&buf, b"200");

    buf.clear();
    write_u16(&mut buf, 5);
    assert_eq!(&buf, b"5");

    buf.clear();
    write_u16(&mut buf, 99);
    assert_eq!(&buf, b"99");
}

#[test]
fn test_status_codes() {
    assert_eq!(StatusCode::OK().code(), 200);
    assert_eq!(StatusCode::NOT_FOUND().code(), 404);
    assert_eq!(StatusCode::INTERNAL_SERVER_ERROR().code(), 500);
}

#[test]
fn test_reason() {
    assert_eq!(StatusCode::OK().reason(), "OK");
    assert_eq!(StatusCode::NOT_FOUND().reason(), "Not Found");
}

#[test]
fn test_categories() {
    assert!(StatusCode::CONTINUE().is_informational());
    assert!(StatusCode::OK().is_success());
    assert!(StatusCode::FOUND().is_redirection());
    assert!(StatusCode::NOT_FOUND().is_client_error());
    assert!(StatusCode::INTERNAL_SERVER_ERROR().is_server_error());
    assert!(StatusCode::NOT_FOUND().is_error());
    assert!(StatusCode::INTERNAL_SERVER_ERROR().is_error());
    assert!(!StatusCode::OK().is_error());
}

#[test]
fn connection_error_messages() {
    let io = ConnectionError::Io(std::io::Error::new(std::io::ErrorKind::Other, "boom"));
    assert_eq!(io.message(), "I/O error: boom");
    assert_eq!(ConnectionError::Parse(ParseError::InvalidMethod).message(), "Parse error: Invalid HTTP method");
    assert_eq!(ConnectionError::RequestTooLarge.message(), "Request too large");
    assert_eq!(ConnectionError::UnexpectedEof.message(), "Unexpected end of connection");
    assert_eq!(ConnectionError::Closed.message(), "Connection closed");
}

#[test]
fn status_line_text() {
    assert_eq!(StatusCode::OK().to_string(), "200 OK");
    assert_eq!(StatusCode::NOT_FOUND().to_string(), "404 Not Found");
    assert_eq!(StatusCode::new(299).to_string(), "299 Unknown");
}

#[test]
fn codes_past_the_server_errors_are_not_errors() {
    assert!(!StatusCode::new(600).is_error());
    assert!(!StatusCode::new(999).is_error());
    assert!(StatusCode::new(599).is_error());
    assert!(StatusCode::new(400).is_error());
    assert!(!StatusCode::new(399).is_error());
}

#[test]
fn prefixes_are_incomplete_and_extra_bytes_change_nothing() {
    let buf = b"POST /a?x=1 HTTP/1.1\r\nHost: h\r\nContent-Length: 3\r\n\r\nabc";
    let (req, n) = parse_request(buf).unwrap();
    assert_eq!(n, buf.len());
    assert_eq!(req.body, b"abc");
    for k in 0..n {
        assert!(matches!(parse_request(&buf[..k]), Err(ParseError::Incomplete)), "prefix {k}");
    }
    let mut longer = buf.to_vec();
    longer.extend_from_slice(b"GET / HTTP/1.1\r\n");
    let (req2, n2) = parse_request(&longer).unwrap();
    assert_eq!(n2, n);
    assert_eq!(req2.uri, "/a?x=1");
    assert_eq!(req2.body, b"abc");
}
