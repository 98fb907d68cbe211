use pulsar_web::request::{
    line_is_request, lines, parse_head, parse_length, read_head, settle_body, RequestError,
};

fn text(value: &str) -> String {
    value.to_string()
}

#[test]
fn lines_lose_their_carriage_returns() {
    assert_eq!(lines("a\r\nb\n\r\nc\r\r"), vec![text("a"), text("b"), text(""), text("c")]);
    assert_eq!(lines(""), vec![text("")]);
}

#[test]
fn request_line_begins_with_a_known_method() {
    assert!(line_is_request("GET / HTTP/1.1"));
    assert!(line_is_request("POST /a"));
    assert!(line_is_request("PUT /a"));
    assert!(line_is_request("DELETE /a"));
    assert!(line_is_request("PATCH /a"));
    assert!(line_is_request("GETTER"));
    assert!(!line_is_request("HEAD /"));
    assert!(!line_is_request("get /"));
    assert!(!line_is_request(" GET /"));
    assert!(!line_is_request(""));
}

#[test]
fn head_of_a_plain_request() {
    let head = parse_head("GET /user/alice?tab=2 HTTP/1.1\r\nHost: localhost:3000\r\nUser-Agent: curl/8\r\n\r\n").unwrap();
    assert_eq!(head.method, text("GET"));
    assert_eq!(head.path, text("/user/alice?tab=2"));
    assert_eq!(head.headers.len(), 2);
    assert_eq!(head.headers.get("Host"), Some(&text("localhost:3000")));
    assert_eq!(head.headers.get("User-Agent"), Some(&text("curl/8")));
    assert_eq!(head.content_length, 0);
}

#[test]
fn head_without_a_request_line_is_malformed() {
    assert_eq!(parse_head("HEAD / HTTP/1.1\r\n\r\n").err(), Some(RequestError::MalformedRequest));
    assert_eq!(parse_head("").err(), Some(RequestError::MalformedRequest));
    assert_eq!(parse_head("Host: a\r\n\r\n").err(), Some(RequestError::MalformedRequest));
    assert_eq!(read_head(b"\xff\xfe").err(), Some(RequestError::MalformedRequest));
}

#[test]
fn first_request_line_counts() {
    let head = parse_head("junk\r\nPOST /a HTTP/1.1\r\nGET: /b\r\n\r\n").unwrap();
    assert_eq!(head.method, text("POST"));
    assert_eq!(head.path, text("/a"));
    assert_eq!(head.headers.get("GET"), Some(&text("/b")));
}

#[test]
fn request_line_without_a_path() {
    let head = parse_head("GET").unwrap();
    assert_eq!(head.method, text("GET"));
    assert_eq!(head.path, text(""));
    assert!(head.headers.is_empty());
}

#[test]
fn header_values_are_trimmed() {
    let head = parse_head("GET / HTTP/1.1\nContent-Type:   text/plain  \nCookie:a=1; b=2\n\n").unwrap();
    assert_eq!(head.headers.get("Content-Type"), Some(&text("text/plain")));
    assert_eq!(head.headers.get("Cookie"), Some(&text("a=1; b=2")));
}

#[test]
fn header_names_keep_their_case() {
    let head = parse_head("GET / HTTP/1.1\r\ncontent-type: a\r\nContent-Type: b\r\n\r\n").unwrap();
    assert_eq!(head.headers.len(), 2);
    assert_eq!(head.headers.get("content-type"), Some(&text("a")));
    assert_eq!(head.headers.get("Content-Type"), Some(&text("b")));
}

#[test]
fn later_header_replaces_the_earlier() {
    let head = parse_head("GET / HTTP/1.1\r\nX: 1\r\nX: 2\r\n\r\n").unwrap();
    assert_eq!(head.headers.len(), 1);
    assert_eq!(head.headers.get("X"), Some(&text("2")));
}

#[test]
fn headers_end_at_the_empty_line() {
    let head = parse_head("POST /a HTTP/1.1\r\nHost: h\r\n\r\nBody: x\r\n").unwrap();
    assert_eq!(head.headers.len(), 1);
    assert_eq!(head.headers.get("Body"), None);
}

#[test]
fn line_without_a_colon_is_no_header() {
    let head = parse_head("GET / HTTP/1.1\r\nnonsense\r\nHost: h\r\n\r\n").unwrap();
    assert_eq!(head.headers.len(), 1);
    assert_eq!(head.headers.get("Host"), Some(&text("h")));
}

#[test]
fn content_length_is_read() {
    let head = parse_head("POST /a HTTP/1.1\r\nContent-Length: 2048\r\n\r\n").unwrap();
    assert_eq!(head.content_length, 2048);
    assert_eq!(head.headers.get("Content-Length"), Some(&text("2048")));
}

#[test]
fn lengths() {
    assert_eq!(parse_length("0"), 0);
    assert_eq!(parse_length("7"), 7);
    assert_eq!(parse_length(" 42 "), 42);
    assert_eq!(parse_length("+42"), 42);
    assert_eq!(parse_length("007"), 7);
    assert_eq!(parse_length(""), 0);
    assert_eq!(parse_length("+"), 0);
    assert_eq!(parse_length("-1"), 0);
    assert_eq!(parse_length("12a"), 0);
    assert_eq!(parse_length("1 2"), 0);
    assert_eq!(parse_length("++1"), 0);
    assert_eq!(parse_length(&usize::MAX.to_string()), usize::MAX);
    assert_eq!(parse_length("99999999999999999999999999"), 0);
    assert_eq!(parse_length(&format!("{}0", usize::MAX)), 0);
}

#[test]
fn lengths_agree_with_std() {
    for value in ["0", "1", "+1", "10", "  99  ", "", "+", "-", "1x", "18446744073709551615",
        "18446744073709551616", "00000000000000000000000001"]
    {
        let expected = usize::from_str_radix(value.trim(), 10).unwrap_or(0);
        assert_eq!(parse_length(value), expected);
    }
}

#[test]
fn head_is_read_from_bytes() {
    let head = read_head(b"GET /caf\xc3\xa9 HTTP/1.1\r\nHost: h\r\n\r\n").unwrap();
    assert_eq!(head.method, text("GET"));
    assert_eq!(head.path, text("/café"));
}

#[test]
fn invalid_bytes_are_replaced() {
    let head = read_head(b"GET /a\xffb HTTP/1.1\r\n\r\n").unwrap();
    assert_eq!(head.path, text("/a\u{fffd}b"));
}

#[test]
fn body_that_arrived_whole_is_kept() {
    assert_eq!(settle_body(3, vec![1, 2, 3]), (vec![1, 2, 3], None));
    assert_eq!(settle_body(0, vec![]), (vec![], None));
}

#[test]
fn truncated_body_is_taken_as_empty() {
    assert_eq!(settle_body(3, vec![1, 2]), (vec![], Some(RequestError::TruncatedBody)));
    assert_eq!(settle_body(1, vec![]), (vec![], Some(RequestError::TruncatedBody)));
}

#[test]
fn body_larger_than_the_first_read() {
    let body = vec![7u8; 5000];
    let (kept, condition) = settle_body(5000, body.clone());
    assert_eq!(kept, body);
    assert_eq!(condition, None);
}
