use minihttp::response::{overload_response, Response};
use minihttp::strmap::StrMap;

fn plain(code: u16, body: &str) -> Response {
    let mut headers = StrMap::new();
    headers.insert("Content-Type".to_string(), "text/plain".to_string());
    Response { status_code: code, headers, body: body.to_string() }
}

#[test]
fn status_text_known_codes() {
    assert_eq!(Response::status_text(200), "OK");
    assert_eq!(Response::status_text(201), "Created");
    assert_eq!(Response::status_text(204), "No Content");
    assert_eq!(Response::status_text(400), "Bad Request");
    assert_eq!(Response::status_text(401), "Unauthorized");
    assert_eq!(Response::status_text(403), "Forbidden");
    assert_eq!(Response::status_text(404), "Not Found");
    assert_eq!(Response::status_text(405), "Method Not Allowed");
    assert_eq!(Response::status_text(500), "Internal Server Error");
    assert_eq!(Response::status_text(501), "Not Implemented");
    assert_eq!(Response::status_text(502), "Bad Gateway");
    assert_eq!(Response::status_text(503), "Service Unavailable");
}

#[test]
fn status_text_unknown_code() {
    assert_eq!(Response::status_text(418), "Unknown");
    assert_eq!(Response::status_text(0), "Unknown");
}

#[test]
fn to_bytes_injects_defaults() {
    let bytes = plain(200, "Woof").to_bytes();
    let expected =
        "HTTP/1.1 200 OK\r\nContent-Type: text/plain\r\nContent-Length: 4\r\nConnection: close\r\n\r\nWoof";
    assert_eq!(bytes, expected.as_bytes().to_vec());
}

#[test]
fn to_bytes_keeps_explicit_content_length_and_connection() {
    let mut headers = StrMap::new();
    headers.insert("Content-Length".to_string(), "10".to_string());
    headers.insert("Connection".to_string(), "keep-alive".to_string());
    let r = Response { status_code: 204, headers, body: String::new() };
    let bytes = r.to_bytes();
    let text = String::from_utf8(bytes).unwrap();
    assert_eq!(
        text,
        "HTTP/1.1 204 No Content\r\nContent-Length: 10\r\nConnection: keep-alive\r\n\r\n"
    );
}

#[test]
fn to_bytes_empty_body_counts_zero() {
    let r = Response { status_code: 404, headers: StrMap::new(), body: String::new() };
    let text = String::from_utf8(r.to_bytes()).unwrap();
    assert_eq!(text, "HTTP/1.1 404 Not Found\r\nContent-Length: 0\r\nConnection: close\r\n\r\n");
}

#[test]
fn content_length_counts_bytes_not_chars() {
    // A two-byte UTF-8 character must be counted as two.
    let r = Response { status_code: 200, headers: StrMap::new(), body: "é".to_string() };
    let text = String::from_utf8(r.to_bytes()).unwrap();
    assert_eq!(text, "HTTP/1.1 200 OK\r\nContent-Length: 2\r\nConnection: close\r\n\r\né");
}

#[test]
fn overload_response_exact_bytes() {
    let expected =
        "HTTP/1.1 503 Service Unavailable\r\nContent-Length: 0\r\nConnection: close\r\n\r\n";
    assert_eq!(overload_response(), expected.as_bytes().to_vec());
}

#[test]
fn overload_response_is_bare_503_serialization() {
    let bare = Response { status_code: 503, headers: StrMap::new(), body: String::new() };
    assert_eq!(bare.to_bytes(), overload_response());
}

/// A small frame parser mirroring the serialization contract.
fn reparse(bytes: &[u8]) -> (u16, Vec<(String, String)>, String) {
    let text = String::from_utf8(bytes.to_vec()).unwrap();
    let (head, body) = text.split_once("\r\n\r\n").unwrap();
    let mut lines = head.split("\r\n");
    let status_line = lines.next().unwrap();
    let rest = status_line.strip_prefix("HTTP/1.1 ").unwrap();
    let (code, _reason) = rest.split_once(' ').unwrap();
    let mut headers: Vec<(String, String)> = Vec::new();
    for line in lines {
        let (k, v) = line.split_once(": ").unwrap();
        headers.retain(|(name, _)| name != k);
        headers.push((k.to_string(), v.to_string()));
    }
    (code.parse().unwrap(), headers, body.to_string())
}

#[test]
fn serialize_then_reparse_recovers_everything() {
    let mut headers = StrMap::new();
    headers.insert("Content-Type".to_string(), "application/json".to_string());
    headers.insert("X-Request-Id".to_string(), "abc-123".to_string());
    let r = Response { status_code: 201, headers, body: "{\"ok\":true}".to_string() };
    let (code, parsed_headers, body) = reparse(&r.to_bytes());
    assert_eq!(code, 201);
    assert_eq!(body, "{\"ok\":true}");
    let get = |k: &str| {
        parsed_headers
            .iter()
            .find(|(name, _)| name == k)
            .map(|(_, v)| v.clone())
    };
    assert_eq!(get("Content-Type"), Some("application/json".to_string()));
    assert_eq!(get("X-Request-Id"), Some("abc-123".to_string()));
    assert_eq!(get("Content-Length"), Some("11".to_string()));
    assert_eq!(get("Connection"), Some("close".to_string()));
}

#[test]
fn serialize_then_reparse_with_body_containing_crlf() {
    let r = Response { status_code: 200, headers: StrMap::new(), body: "a\r\n\r\nb".to_string() };
    let (code, _headers, body) = reparse(&r.to_bytes());
    assert_eq!(code, 200);
    assert_eq!(body, "a\r\n\r\nb");
}
