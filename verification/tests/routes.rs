use hddp::request::{HttpResponse, ParseError};
use hddp::Server;

fn not_found_bytes() -> Vec<u8> {
    let mut resp = HttpResponse::new(b"404");
    resp.change_status_line(b"HTTP/1.1 404 NOT FOUND");
    resp.into_bytes()
}

#[test]
fn new_server_serves_default_root() {
    let server = Server::new(b"default", b"404");
    assert_eq!(
        server.resolve(b"GET", b"/"),
        HttpResponse::new(b"default").into_bytes()
    );
    assert_eq!(server.resolve(b"POST", b"/"), not_found_bytes());
    assert_eq!(server.resolve(b"GET", b"/x"), not_found_bytes());
}

#[test]
fn empty_table_resolves_not_found_for_everything() {
    let mut server = Server::new(b"default", b"404");
    server.remove_path(b"/");
    assert_eq!(server.resolve(b"GET", b"/"), not_found_bytes());
    assert_eq!(server.resolve(b"POST", b"/pizza"), not_found_bytes());
    assert_eq!(server.resolve(b"", b""), not_found_bytes());
}

#[test]
fn add_path_serves_registered_pair_only() {
    let mut server = Server::new(b"default", b"404");
    server.add_path(b"GET", b"/pizza", HttpResponse::new(b"pizza"));
    assert_eq!(
        server.resolve(b"GET", b"/pizza"),
        HttpResponse::new(b"pizza").into_bytes()
    );
    assert_eq!(server.resolve(b"POST", b"/pizza"), not_found_bytes());
}

#[test]
fn add_path_again_overwrites() {
    let mut server = Server::new(b"default", b"404");
    server.add_path(b"GET", b"/x", HttpResponse::new(b"one"));
    server.add_path(b"GET", b"/x", HttpResponse::new(b"two"));
    assert_eq!(
        server.resolve(b"GET", b"/x"),
        HttpResponse::new(b"two").into_bytes()
    );
}

#[test]
fn add_path_keeps_other_methods() {
    let mut server = Server::new(b"default", b"404");
    server.add_path(b"GET", b"/x", HttpResponse::new(b"got"));
    server.add_path(b"POST", b"/x", HttpResponse::new(b"posted"));
    assert_eq!(
        server.resolve(b"GET", b"/x"),
        HttpResponse::new(b"got").into_bytes()
    );
    assert_eq!(
        server.resolve(b"POST", b"/x"),
        HttpResponse::new(b"posted").into_bytes()
    );
}

#[test]
fn remove_path_unregisters_every_method() {
    let mut server = Server::new(b"default", b"404");
    server.add_path(b"GET", b"/x", HttpResponse::new(b"a"));
    server.add_path(b"POST", b"/x", HttpResponse::new(b"b"));
    server.remove_path(b"/x");
    assert_eq!(server.resolve(b"GET", b"/x"), not_found_bytes());
    assert_eq!(server.resolve(b"POST", b"/x"), not_found_bytes());
    server.remove_path(b"/x");
    assert_eq!(server.resolve(b"GET", b"/x"), not_found_bytes());
}

#[test]
fn remove_method_unregisters_one_method() {
    let mut server = Server::new(b"default", b"404");
    server.add_path(b"GET", b"/x", HttpResponse::new(b"a"));
    server.add_path(b"POST", b"/x", HttpResponse::new(b"b"));
    server.remove_method(b"GET", b"/x");
    assert_eq!(server.resolve(b"GET", b"/x"), not_found_bytes());
    assert_eq!(
        server.resolve(b"POST", b"/x"),
        HttpResponse::new(b"b").into_bytes()
    );
    server.remove_method(b"GET", b"/absent");
    assert_eq!(server.resolve(b"GET", b"/x"), not_found_bytes());
}

#[test]
fn respond_serves_registered_route() {
    let mut server = Server::new(b"default", b"404");
    server.add_path(b"GET", b"/hello", HttpResponse::new(b"hi"));
    let reply = server
        .respond(b"GET /hello HTTP/1.1\r\nHost: x\r\n\r\n")
        .unwrap();
    assert!(reply.starts_with(b"HTTP/1.1 200 OK"));
    assert!(reply.ends_with(b"hi"));
}

#[test]
fn respond_serves_not_found_status() {
    let server = Server::new(b"default", b"404");
    let reply = server
        .respond(b"GET /absent HTTP/1.1\r\nHost: x\r\n\r\n")
        .unwrap();
    assert!(reply.starts_with(b"HTTP/1.1 404 NOT FOUND"));
}

#[test]
fn respond_rejects_malformed_buffer() {
    let server = Server::new(b"default", b"404");
    assert_eq!(server.respond(b"junk"), Err(ParseError::MalformedRequest));
}
