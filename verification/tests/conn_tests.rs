use minihttp::conn::{content_length, parse_header_line, parse_request_head};
use minihttp::text::{parse_usize, split_ws, trim_trailing_ws};

fn lines(raw: &[&str]) -> Vec<String> {
    raw.iter().map(|s| s.to_string()).collect()
}

#[test]
fn parse_request_head_basic() {
    let req = parse_request_head(&lines(&[
        "GET /dog/7?x=1 HTTP/1.1",
        "Host: localhost:8080",
        "Content-Length: 5",
    ]));
    assert_eq!(req.method, "GET");
    assert_eq!(req.url, "/dog/7?x=1");
    assert_eq!(req.headers.get("Host"), Some("localhost:8080"));
    assert_eq!(req.headers.get("Content-Length"), Some("5"));
    assert_eq!(req.body, "");
}

#[test]
fn parse_request_head_empty_input_gives_empty_request() {
    let req = parse_request_head(&Vec::new());
    assert_eq!(req.method, "");
    assert_eq!(req.url, "");
    assert_eq!(req.headers.len(), 0);
    assert_eq!(req.body, "");
}

#[test]
fn parse_request_head_short_request_line() {
    let req = parse_request_head(&lines(&["GET"]));
    assert_eq!(req.method, "GET");
    assert_eq!(req.url, "");
}

#[test]
fn malformed_header_lines_are_dropped() {
    let req = parse_request_head(&lines(&[
        "GET / HTTP/1.1",
        "no separator here",
        "Good: yes",
    ]));
    assert_eq!(req.headers.len(), 1);
    assert_eq!(req.headers.get("Good"), Some("yes"));
}

#[test]
fn duplicate_headers_keep_the_last_value() {
    let req = parse_request_head(&lines(&[
        "GET / HTTP/1.1",
        "X: one",
        "X: two",
    ]));
    assert_eq!(req.headers.get("X"), Some("two"));
    assert_eq!(req.headers.len(), 1);
}

#[test]
fn header_line_splits_at_first_separator() {
    let (k, v) = parse_header_line("A: b: c").unwrap();
    assert_eq!(k, "A");
    assert_eq!(v, "b: c");
    assert!(parse_header_line("nothing").is_none());
    assert!(parse_header_line("colon:but-no-space").is_none());
}

#[test]
fn content_length_present_and_valid() {
    let req = parse_request_head(&lines(&["POST / HTTP/1.1", "Content-Length: 42"]));
    assert_eq!(content_length(&req.headers), Some(42));
}

#[test]
fn content_length_accepts_leading_plus() {
    let req = parse_request_head(&lines(&["POST / HTTP/1.1", "Content-Length: +10"]));
    assert_eq!(content_length(&req.headers), Some(10));
}

#[test]
fn content_length_rejects_garbage() {
    let req = parse_request_head(&lines(&["POST / HTTP/1.1", "Content-Length: abc"]));
    assert_eq!(content_length(&req.headers), None);
    let req = parse_request_head(&lines(&["POST / HTTP/1.1", "Content-Length: -1"]));
    assert_eq!(content_length(&req.headers), None);
    let req = parse_request_head(&lines(&["POST / HTTP/1.1", "Content-Length: "]));
    assert_eq!(content_length(&req.headers), None);
}

#[test]
fn content_length_rejects_overflow() {
    let req = parse_request_head(&lines(&[
        "POST / HTTP/1.1",
        "Content-Length: 99999999999999999999999999",
    ]));
    assert_eq!(content_length(&req.headers), None);
}

#[test]
fn no_content_length_means_no_body_read() {
    // The scenario: without a Content-Length header the request keeps an
    // empty body, whatever bytes may follow the header block.
    let req = parse_request_head(&lines(&["POST /dog HTTP/1.1", "Host: x"]));
    assert_eq!(content_length(&req.headers), None);
    assert_eq!(req.body, "");
}

#[test]
fn parse_usize_matches_std() {
    for s in ["0", "7", "42", "007", "+3", "", "+", " 4", "4 ", "1x", "-2"] {
        assert_eq!(parse_usize(s), s.parse::<usize>().ok(), "input {:?}", s);
    }
}

#[test]
fn trim_trailing_ws_strips_line_endings() {
    assert_eq!(trim_trailing_ws("GET / HTTP/1.1\r\n"), "GET / HTTP/1.1");
    assert_eq!(trim_trailing_ws("x \t "), "x");
    assert_eq!(trim_trailing_ws(" \t\r\n"), "");
    assert_eq!(trim_trailing_ws(""), "");
}

#[test]
fn split_ws_collapses_runs() {
    assert_eq!(split_ws("  GET   /a  HTTP/1.1 "), vec!["GET", "/a", "HTTP/1.1"]);
    assert_eq!(split_ws(""), Vec::<String>::new());
    assert_eq!(split_ws("   "), Vec::<String>::new());
}
