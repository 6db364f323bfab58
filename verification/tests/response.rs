use hddp::request::HttpResponse;

#[test]
fn new_response_serializes_exactly() {
    let resp = HttpResponse::new(b"hi");
    assert_eq!(
        resp.into_bytes(),
        b"HTTP/1.1 200 OK\r\nContent-Type: text/html\r\n\r\nhi".to_vec()
    );
}

#[test]
fn empty_body_serializes_exactly() {
    let resp = HttpResponse::new(b"");
    assert_eq!(
        resp.into_bytes(),
        b"HTTP/1.1 200 OK\r\nContent-Type: text/html\r\n\r\n".to_vec()
    );
}

#[test]
fn change_status_line_replaces_it() {
    let mut resp = HttpResponse::new(b"gone");
    resp.change_status_line(b"HTTP/1.1 404 NOT FOUND");
    assert_eq!(
        resp.into_bytes(),
        b"HTTP/1.1 404 NOT FOUND\r\nContent-Type: text/html\r\n\r\ngone".to_vec()
    );
}

#[test]
fn add_header_appends_new_key() {
    let mut resp = HttpResponse::new(b"x");
    resp.add_header(b"X-Extra", b"yes");
    assert_eq!(
        resp.into_bytes(),
        b"HTTP/1.1 200 OK\r\nContent-Type: text/html\r\nX-Extra: yes\r\n\r\nx".to_vec()
    );
}

#[test]
fn add_header_overwrites_existing_key() {
    let mut resp = HttpResponse::new(b"x");
    resp.add_header(b"Content-Type", b"text/plain");
    assert_eq!(
        resp.into_bytes(),
        b"HTTP/1.1 200 OK\r\nContent-Type: text/plain\r\n\r\nx".to_vec()
    );
}

#[test]
fn default_response_is_empty() {
    let resp = HttpResponse::default();
    assert_eq!(resp.into_bytes(), b"\r\n\r\n\r\n".to_vec());
}
