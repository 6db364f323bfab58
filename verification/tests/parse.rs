use hddp::request::{HttpRequest, ParseError};

#[test]
fn parse_simple_request() {
    let buf = b"GET /hello HTTP/1.1\r\nHost: x\r\n\r\nbody";
    let req = HttpRequest::from(buf).unwrap();
    assert_eq!(req.method, b"GET".to_vec());
    assert_eq!(req.path, b"/hello".to_vec());
    assert_eq!(req.version, b"HTTP/1.1".to_vec());
    assert_eq!(req.headers.get(b"Host"), Some(&b"x".to_vec()));
    assert_eq!(req.body, b"body".to_vec());
}

#[test]
fn parse_missing_separator() {
    let buf = b"GET /hello HTTP/1.1\r\nHost: x\r\n";
    assert!(matches!(HttpRequest::from(buf), Err(ParseError::MalformedRequest)));
}

#[test]
fn parse_empty_buffer() {
    assert!(matches!(HttpRequest::from(b""), Err(ParseError::MalformedRequest)));
}

#[test]
fn parse_invalid_utf8() {
    let buf = [0xFFu8, 0xFE, 13, 10, 13, 10];
    assert!(matches!(HttpRequest::from(&buf), Err(ParseError::InvalidEncoding)));
}

#[test]
fn parse_header_without_colon() {
    let buf = b"GET / HTTP/1.1\r\nnot-a-header\r\n\r\n";
    assert!(matches!(HttpRequest::from(buf), Err(ParseError::MalformedRequest)));
}

#[test]
fn parse_request_line_too_short() {
    let buf = b"GET /\r\n\r\n";
    assert!(matches!(HttpRequest::from(buf), Err(ParseError::MalformedRequest)));
}

#[test]
fn parse_extra_request_line_tokens_ignored() {
    let buf = b"GET / HTTP/1.1 junk more\r\n\r\n";
    let req = HttpRequest::from(buf).unwrap();
    assert_eq!(req.method, b"GET".to_vec());
    assert_eq!(req.path, b"/".to_vec());
    assert_eq!(req.version, b"HTTP/1.1".to_vec());
}

#[test]
fn parse_duplicate_header_last_wins() {
    let buf = b"GET / HTTP/1.1\r\nA: 1\r\nA: 2\r\n\r\n";
    let req = HttpRequest::from(buf).unwrap();
    assert_eq!(req.headers.get(b"A"), Some(&b"2".to_vec()));
}

#[test]
fn parse_header_trims_whitespace() {
    let buf = b"GET / HTTP/1.1\r\n  Key  :   value with spaces  \r\n\r\n";
    let req = HttpRequest::from(buf).unwrap();
    assert_eq!(req.headers.get(b"Key"), Some(&b"value with spaces".to_vec()));
}

#[test]
fn parse_header_splits_on_first_colon() {
    let buf = b"GET / HTTP/1.1\r\nHost: a:8080\r\n\r\n";
    let req = HttpRequest::from(buf).unwrap();
    assert_eq!(req.headers.get(b"Host"), Some(&b"a:8080".to_vec()));
}

#[test]
fn parse_body_keeps_later_separators() {
    let buf = b"GET / HTTP/1.1\r\n\r\nfirst\r\n\r\nsecond";
    let req = HttpRequest::from(buf).unwrap();
    assert_eq!(req.body, b"first\r\n\r\nsecond".to_vec());
}

#[test]
fn parse_missing_header_lookup() {
    let buf = b"GET / HTTP/1.1\r\nHost: x\r\n\r\n";
    let req = HttpRequest::from(buf).unwrap();
    assert_eq!(req.headers.get(b"Absent"), None);
}
