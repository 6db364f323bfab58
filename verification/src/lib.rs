//! A minimal HTTP/1.1 request-response library: a lenient request parser,
//! a response builder, and a routing table mapping (path, method) pairs to
//! pre-serialized response bytes. Socket handling lives outside the library;
//! everything here is pure computation over byte buffers.

pub mod bytemap;
pub mod bytes;
pub mod request;

use vstd::prelude::*;
use crate::bytemap::method_entry;
use crate::bytemap::PathMap;
use crate::request::content_type_key;
use crate::request::resp_bytes;
use crate::request::spec_parse;
use crate::request::status_ok_line;
use crate::request::text_html_value;
use crate::request::HttpRequest;
use crate::request::HttpResponse;
use crate::request::ParseError;

verus! {

/// The method token `GET`.
pub open spec fn get_token() -> Seq<u8> {
    seq![71u8, 69, 84]
}

/// The root path `/`.
pub open spec fn root_path() -> Seq<u8> {
    seq![47u8]
}

/// The status line `HTTP/1.1 404 NOT FOUND`.
pub open spec fn status_not_found_line() -> Seq<u8> {
    seq![72u8, 84, 84, 80, 47, 49, 46, 49, 32, 52, 48, 52, 32, 78, 79, 84, 32, 70, 79, 85, 78, 68]
}

fn status_not_found_vec() -> (r: Vec<u8>)
    ensures
        r@ == status_not_found_line(),
{
    let r: Vec<u8> = vec![
        72u8, 84, 84, 80, 47, 49, 46, 49, 32, 52, 48, 52, 32, 78, 79, 84, 32, 70, 79, 85, 78, 68,
    ];
    proof {
        assert(r@ =~= status_not_found_line());
    }
    r
}

/// What a lookup returns: the bytes registered under the exact
/// (path, method) pair, else the table's not-found bytes.
pub open spec fn spec_resolve(
    routes: Map<Seq<u8>, Map<Seq<u8>, Seq<u8>>>,
    nf: Seq<u8>,
    method: Seq<u8>,
    path: Seq<u8>,
) -> Seq<u8> {
    if routes.contains_key(path) && routes[path].contains_key(method) {
        routes[path][method]
    } else {
        nf
    }
}

/// How a registration changes the route map: the pair is bound, other
/// methods under the path are kept, and an earlier binding of the same
/// pair is overwritten.
pub open spec fn spec_add_route(
    routes: Map<Seq<u8>, Map<Seq<u8>, Seq<u8>>>,
    method: Seq<u8>,
    path: Seq<u8>,
    bytes: Seq<u8>,
) -> Map<Seq<u8>, Map<Seq<u8>, Seq<u8>>> {
    routes.insert(path, method_entry(routes, path).insert(method, bytes))
}

/// The route table: paths to method maps to pre-serialized response
/// bytes, with a distinguished not-found response fixed at construction.
pub struct Server {
    paths: PathMap,
    not_found: Vec<u8>,
}

impl Server {
    /// The registered routes.
    pub closed spec fn routes(&self) -> Map<Seq<u8>, Map<Seq<u8>, Seq<u8>>> {
        self.paths@
    }

    /// The bytes served when no route matches.
    pub closed spec fn not_found_bytes(&self) -> Seq<u8> {
        self.not_found@
    }

    /// Internal invariant of the backing maps.
    pub closed spec fn wf(&self) -> bool {
        self.paths.wf()
    }

    /// A table serving `default_page` under `GET /`, with a not-found
    /// response built from `not_found_page` under a 404 status line.
    pub fn new(default_page: &[u8], not_found_page: &[u8]) -> (r: Server)
        ensures
            r.wf(),
            r.routes() == Map::<Seq<u8>, Map<Seq<u8>, Seq<u8>>>::empty().insert(
                root_path(),
                Map::<Seq<u8>, Seq<u8>>::empty().insert(
                    get_token(),
                    resp_bytes(
                        status_ok_line(),
                        seq![(content_type_key(), text_html_value())],
                        default_page@,
                    ),
                ),
            ),
            r.not_found_bytes() == resp_bytes(
                status_not_found_line(),
                seq![(content_type_key(), text_html_value())],
                not_found_page@,
            ),
    {
        let response = HttpResponse::new(default_page);
        let mut response_not_found = HttpResponse::new(not_found_page);
        let status = status_not_found_vec();
        response_not_found.change_status_line(status.as_slice());
        let mut paths = PathMap::new();
        let get: Vec<u8> = vec![71u8, 69, 84];
        let root: Vec<u8> = vec![47u8];
        proof {
            assert(get@ =~= get_token());
            assert(root@ =~= root_path());
        }
        paths.add(root.as_slice(), get.as_slice(), response.into_bytes());
        let r = Server { paths, not_found: response_not_found.into_bytes() };
        proof {
            assert(r.routes() =~= Map::<Seq<u8>, Map<Seq<u8>, Seq<u8>>>::empty().insert(
                root_path(),
                Map::<Seq<u8>, Seq<u8>>::empty().insert(
                    get_token(),
                    resp_bytes(
                        status_ok_line(),
                        seq![(content_type_key(), text_html_value())],
                        default_page@,
                    ),
                ),
            ));
        }
        r
    }

    /// Registers `resp`, serialized once, under the (path, method) pair.
    pub fn add_path(&mut self, method: &[u8], path: &[u8], resp: HttpResponse)
        requires
            old(self).wf(),
        ensures
            final(self).wf(),
            final(self).routes() == spec_add_route(
                old(self).routes(),
                method@,
                path@,
                resp.spec_bytes(),
            ),
            final(self).not_found_bytes() == old(self).not_found_bytes(),
    {
        let bytes = resp.into_bytes();
        self.paths.add(path, method, bytes);
    }

    /// Unregisters one method under a path; no-op where absent.
    pub fn remove_method(&mut self, method: &[u8], path: &[u8])
        requires
            old(self).wf(),
        ensures
            final(self).wf(),
            final(self).routes() == if old(self).routes().contains_key(path@) {
                old(self).routes().insert(path@, old(self).routes()[path@].remove(method@))
            } else {
                old(self).routes()
            },
            final(self).not_found_bytes() == old(self).not_found_bytes(),
    {
        self.paths.remove_method(path, method);
    }

    /// Unregisters a path and every method under it; no-op where absent.
    pub fn remove_path(&mut self, path: &[u8])
        requires
            old(self).wf(),
        ensures
            final(self).wf(),
            final(self).routes() == old(self).routes().remove(path@),
            final(self).not_found_bytes() == old(self).not_found_bytes(),
    {
        self.paths.remove(path);
    }

    /// Looks the (path, method) pair up; exact match only.
    pub fn resolve(&self, method: &[u8], path: &[u8]) -> (r: Vec<u8>)
        requires
            self.wf(),
        ensures
            r@ == spec_resolve(self.routes(), self.not_found_bytes(), method@, path@),
    {
        match self.paths.get(path) {
            Some(methods) => match methods.get(method) {
                Some(bytes) => crate::bytes::vec_from(bytes.as_slice()),
                None => crate::bytes::vec_from(self.not_found.as_slice()),
            },
            None => crate::bytes::vec_from(self.not_found.as_slice()),
        }
    }

    /// The whole per-request computation: parses the buffer and resolves
    /// the request's method and path, handing back the parse error where
    /// the buffer is rejected.
    pub fn respond(&self, buf: &[u8]) -> (r: Result<Vec<u8>, ParseError>)
        requires
            self.wf(),
        ensures
            match spec_parse(buf@) {
                Ok(q) => r is Ok && r->Ok_0@ == spec_resolve(
                    self.routes(),
                    self.not_found_bytes(),
                    q.method,
                    q.path,
                ),
                Err(e) => r == Err::<Vec<u8>, ParseError>(e),
            },
    {
        match HttpRequest::from(buf) {
            Ok(req) => Ok(self.resolve(req.method.as_slice(), req.path.as_slice())),
            Err(e) => Err(e),
        }
    }
}

/// On an empty table every lookup yields exactly the not-found bytes,
/// whatever the method and path.
pub proof fn lemma_resolve_empty(nf: Seq<u8>, method: Seq<u8>, path: Seq<u8>)
    ensures
        spec_resolve(Map::<Seq<u8>, Map<Seq<u8>, Seq<u8>>>::empty(), nf, method, path) == nf,
{
}

/// After registering bytes under a (path, method) pair, resolving that
/// pair yields exactly those bytes, while any other method under the same
/// path resolves to what it resolved to before.
pub proof fn lemma_add_route_resolve(
    routes: Map<Seq<u8>, Map<Seq<u8>, Seq<u8>>>,
    nf: Seq<u8>,
    method: Seq<u8>,
    path: Seq<u8>,
    bytes: Seq<u8>,
    other: Seq<u8>,
)
    ensures
        spec_resolve(spec_add_route(routes, method, path, bytes), nf, method, path) == bytes,
        other != method ==> spec_resolve(spec_add_route(routes, method, path, bytes), nf, other, path)
            == spec_resolve(routes, nf, other, path),
{
}

/// Registering the same (path, method) pair twice overwrites silently:
/// the second registration's bytes win.
pub proof fn lemma_add_route_overwrites(
    routes: Map<Seq<u8>, Map<Seq<u8>, Seq<u8>>>,
    nf: Seq<u8>,
    method: Seq<u8>,
    path: Seq<u8>,
    b1: Seq<u8>,
    b2: Seq<u8>,
)
    ensures
        spec_resolve(
            spec_add_route(spec_add_route(routes, method, path, b1), method, path, b2),
            nf,
            method,
            path,
        ) == b2,
{
}

/// After removing a path, every method under it resolves to the not-found
/// bytes, and removing the same path again changes nothing.
pub proof fn lemma_remove_path_resolve(
    routes: Map<Seq<u8>, Map<Seq<u8>, Seq<u8>>>,
    nf: Seq<u8>,
    method: Seq<u8>,
    path: Seq<u8>,
)
    ensures
        spec_resolve(routes.remove(path), nf, method, path) == nf,
        routes.remove(path).remove(path) == routes.remove(path),
{
    assert(routes.remove(path).remove(path) =~= routes.remove(path));
}

} // verus!
