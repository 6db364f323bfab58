//! The structured request and response forms: a lenient parser from raw
//! bytes to `HttpRequest`, and an `HttpResponse` builder serialized to the
//! exact wire bytes.

use vstd::prelude::*;
use crate::bytemap::ByteMap;
use crate::bytes::append_bytes;
use crate::bytes::bytes_eq;
use crate::bytes::vec_from;

verus! {

/// The line terminator of the wire format.
pub open spec fn crlf() -> Seq<u8> {
    seq![13u8, 10u8]
}

/// One serialized header line: `key: value`.
pub open spec fn render_header(h: (Seq<u8>, Seq<u8>)) -> Seq<u8> {
    h.0 + seq![58u8, 32u8] + h.1
}

/// Header lines joined by CR LF, without a trailing terminator.
pub open spec fn join_headers(hs: Seq<(Seq<u8>, Seq<u8>)>) -> Seq<u8>
    decreases hs.len(),
{
    if hs.len() == 0 {
        Seq::empty()
    } else if hs.len() == 1 {
        render_header(hs[0])
    } else {
        join_headers(hs.drop_last()) + crlf() + render_header(hs.last())
    }
}

/// The views of a header pair vector, in order.
pub open spec fn hdr_views(s: Seq<(Vec<u8>, Vec<u8>)>) -> Seq<(Seq<u8>, Seq<u8>)> {
    s.map_values(|p: (Vec<u8>, Vec<u8>)| (p.0@, p.1@))
}

/// The serialized response: status line, CR LF, the joined header lines,
/// a blank line, then the body.
pub open spec fn resp_bytes(status: Seq<u8>, hs: Seq<(Seq<u8>, Seq<u8>)>, body: Seq<u8>) -> Seq<
    u8,
> {
    status + crlf() + join_headers(hs) + crlf() + crlf() + body
}

/// The default status line, `HTTP/1.1 200 OK`.
pub open spec fn status_ok_line() -> Seq<u8> {
    seq![72u8, 84, 84, 80, 47, 49, 46, 49, 32, 50, 48, 48, 32, 79, 75]
}

/// The default header name, `Content-Type`.
pub open spec fn content_type_key() -> Seq<u8> {
    seq![67u8, 111, 110, 116, 101, 110, 116, 45, 84, 121, 112, 101]
}

/// The default content type, `text/html`.
pub open spec fn text_html_value() -> Seq<u8> {
    seq![116u8, 101, 120, 116, 47, 104, 116, 109, 108]
}

fn status_ok_vec() -> (r: Vec<u8>)
    ensures
        r@ == status_ok_line(),
{
    let r: Vec<u8> = vec![72u8, 84, 84, 80, 47, 49, 46, 49, 32, 50, 48, 48, 32, 79, 75];
    proof {
        assert(r@ =~= status_ok_line());
    }
    r
}

fn content_type_vec() -> (r: Vec<u8>)
    ensures
        r@ == content_type_key(),
{
    let r: Vec<u8> = vec![67u8, 111, 110, 116, 101, 110, 116, 45, 84, 121, 112, 101];
    proof {
        assert(r@ =~= content_type_key());
    }
    r
}

fn text_html_vec() -> (r: Vec<u8>)
    ensures
        r@ == text_html_value(),
{
    let r: Vec<u8> = vec![116u8, 101, 120, 116, 47, 104, 116, 109, 108];
    proof {
        assert(r@ =~= text_html_value());
    }
    r
}

/// Index of the first header pair bound to `k`, if any.
pub open spec fn first_key_from(hs: Seq<(Seq<u8>, Seq<u8>)>, k: Seq<u8>, i: int) -> Option<int>
    decreases hs.len() - i,
{
    if i < 0 || i >= hs.len() {
        None
    } else if hs[i].0 == k {
        Some(i)
    } else {
        first_key_from(hs, k, i + 1)
    }
}

/// A response under construction: a status line, header pairs in insertion
/// order, and a body. Serialized once by `into_bytes`.
pub struct HttpResponse {
    pub status_line: Vec<u8>,
    pub headers: Vec<(Vec<u8>, Vec<u8>)>,
    pub body: Vec<u8>,
}

impl HttpResponse {
    /// The bytes `into_bytes` produces for this response.
    pub open spec fn spec_bytes(&self) -> Seq<u8> {
        resp_bytes(self.status_line@, hdr_views(self.headers@), self.body@)
    }

    /// A response with the given body, the default `200 OK` status line and
    /// a `Content-Type: text/html` header.
    pub fn new(body: &[u8]) -> (r: HttpResponse)
        ensures
            r.status_line@ == status_ok_line(),
            hdr_views(r.headers@) == seq![(content_type_key(), text_html_value())],
            r.body@ == body@,
    {
        let mut headers: Vec<(Vec<u8>, Vec<u8>)> = Vec::new();
        headers.push((content_type_vec(), text_html_vec()));
        let r = HttpResponse { status_line: status_ok_vec(), headers, body: vec_from(body) };
        proof {
            assert(hdr_views(r.headers@) =~= seq![(content_type_key(), text_html_value())]);
        }
        r
    }

    /// Replaces the status line.
    pub fn change_status_line(&mut self, status: &[u8])
        ensures
            final(self).status_line@ == status@,
            final(self).headers == old(self).headers,
            final(self).body == old(self).body,
    {
        self.status_line = vec_from(status);
    }

    /// Binds a header: overwrites the first pair with the same key in
    /// place, else appends a new pair.
    pub fn add_header(&mut self, key: &[u8], value: &[u8])
        ensures
            final(self).status_line == old(self).status_line,
            final(self).body == old(self).body,
            hdr_views(final(self).headers@) == match first_key_from(
                hdr_views(old(self).headers@),
                key@,
                0,
            ) {
                Some(i) => hdr_views(old(self).headers@).update(i, (key@, value@)),
                None => hdr_views(old(self).headers@).push((key@, value@)),
            },
    {
        let ghost hv = hdr_views(self.headers@);
        let n = self.headers.len();
        let mut i: usize = 0;
        while i < n
            invariant
                n == self.headers@.len(),
                i <= n,
                self.status_line == old(self).status_line,
                self.body == old(self).body,
                self.headers == old(self).headers,
                hv == hdr_views(self.headers@),
                forall|k: int| 0 <= k < i ==> hv[k].0 != key@,
                first_key_from(hv, key@, 0) == first_key_from(hv, key@, i as int),
            decreases n - i,
        {
            if bytes_eq(self.headers[i].0.as_slice(), key) {
                self.headers.set(i, (vec_from(key), vec_from(value)));
                proof {
                    assert(first_key_from(hv, key@, i as int) == Some(i as int));
                    assert(hdr_views(self.headers@) =~= hv.update(i as int, (key@, value@)));
                }
                return ;
            }
            i = i + 1;
        }
        self.headers.push((vec_from(key), vec_from(value)));
        proof {
            assert(hdr_views(self.headers@) =~= hv.push((key@, value@)));
        }
    }

    /// Serializes the response to its wire bytes.
    pub fn into_bytes(&self) -> (r: Vec<u8>)
        ensures
            r@ == self.spec_bytes(),
    {
        let ghost hv = hdr_views(self.headers@);
        let mut out: Vec<u8> = Vec::new();
        append_bytes(&mut out, self.status_line.as_slice());
        out.push(13);
        out.push(10);
        proof {
            assert(out@ =~= self.status_line@ + crlf());
            assert(join_headers(hv.take(0)) =~= Seq::<u8>::empty());
            assert(out@ =~= self.status_line@ + crlf() + join_headers(hv.take(0)));
        }
        let n = self.headers.len();
        let mut i: usize = 0;
        while i < n
            invariant
                n == self.headers@.len(),
                i <= n,
                hv == hdr_views(self.headers@),
                out@ == self.status_line@ + crlf() + join_headers(hv.take(i as int)),
            decreases n - i,
        {
            if i > 0 {
                out.push(13);
                out.push(10);
            }
            append_bytes(&mut out, self.headers[i].0.as_slice());
            out.push(58);
            out.push(32);
            append_bytes(&mut out, self.headers[i].1.as_slice());
            proof {
                assert(hv.take(i + 1).drop_last() =~= hv.take(i as int));
                assert(hv.take(i + 1).last() == hv[i as int]);
                if i == 0 {
                    assert(join_headers(hv.take(1)) == render_header(hv[0]));
                }
                assert(out@ =~= self.status_line@ + crlf() + join_headers(hv.take(i + 1)));
            }
            i = i + 1;
        }
        proof {
            assert(hv.take(n as int) =~= hv);
        }
        out.push(13);
        out.push(10);
        out.push(13);
        out.push(10);
        append_bytes(&mut out, self.body.as_slice());
        proof {
            assert(out@ =~= self.spec_bytes());
        }
        out
    }
}

impl Default for HttpResponse {
    /// The all-empty response: empty status line, no headers, empty body.
    fn default() -> (r: HttpResponse)
        ensures
            r.status_line@ == Seq::<u8>::empty(),
            r.headers@ == Seq::<(Vec<u8>, Vec<u8>)>::empty(),
            r.body@ == Seq::<u8>::empty(),
    {
        HttpResponse { status_line: Vec::new(), headers: Vec::new(), body: Vec::new() }
    }
}

/// Why a buffer fails to parse: not decodable text, or text without the
/// required request-line and blank-line structure.
#[derive(Clone, Copy, PartialEq, Eq, Debug)]
pub enum ParseError {
    InvalidEncoding,
    MalformedRequest,
}

/// The mathematical form of a parsed request.
pub struct ReqView {
    pub method: Seq<u8>,
    pub path: Seq<u8>,
    pub version: Seq<u8>,
    pub headers: Map<Seq<u8>, Seq<u8>>,
    pub body: Seq<u8>,
}

/// Whether a header line holds a colon separator.
pub open spec fn has_colon(l: Seq<u8>) -> bool {
    crate::bytes::first_at(l, 58) is Some
}

/// The trimmed text before a header line's first colon.
pub open spec fn hkey(l: Seq<u8>) -> Seq<u8> {
    match crate::bytes::first_at(l, 58) {
        Some(c) => crate::bytes::trim(l.take(c)),
        None => Seq::empty(),
    }
}

/// The trimmed text after a header line's first colon.
pub open spec fn hval(l: Seq<u8>) -> Seq<u8> {
    match crate::bytes::first_at(l, 58) {
        Some(c) => crate::bytes::trim(l.skip(c + 1)),
        None => Seq::empty(),
    }
}

/// The header map of a line sequence: keys and values split on the first
/// colon and trimmed, a later line overwriting an earlier one's key.
pub open spec fn headers_map(ls: Seq<Seq<u8>>) -> Map<Seq<u8>, Seq<u8>>
    decreases ls.len(),
{
    if ls.len() == 0 {
        Map::empty()
    } else {
        headers_map(ls.drop_last()).insert(hkey(ls.last()), hval(ls.last()))
    }
}

/// What parsing a raw buffer yields: the whitespace-split tokens of the
/// first line as method, path and version, the remaining lines before the
/// blank-line separator as headers, and everything after it as body.
pub open spec fn spec_parse(s: Seq<u8>) -> Result<ReqView, ParseError> {
    if !crate::bytes::is_utf8(s) {
        Err(ParseError::InvalidEncoding)
    } else {
        match crate::bytes::first_sep(s) {
            None => Err(ParseError::MalformedRequest),
            Some(sep) => {
                let lines = crate::bytes::split_lines(s.take(sep));
                if lines.len() == 0 {
                    Err(ParseError::MalformedRequest)
                } else {
                    let toks = crate::bytes::split_ws(lines[0]);
                    if toks.len() < 3 {
                        Err(ParseError::MalformedRequest)
                    } else if exists|j: int| 1 <= j < lines.len() && !has_colon(lines[j]) {
                        Err(ParseError::MalformedRequest)
                    } else {
                        Ok(
                            ReqView {
                                method: toks[0],
                                path: toks[1],
                                version: toks[2],
                                headers: headers_map(lines.skip(1)),
                                body: s.skip(sep + 4),
                            },
                        )
                    }
                }
            },
        }
    }
}

/// A parsed request, every field copied out of the buffer it came from.
pub struct HttpRequest {
    pub method: Vec<u8>,
    pub path: Vec<u8>,
    pub version: Vec<u8>,
    pub headers: ByteMap,
    pub body: Vec<u8>,
}

impl View for HttpRequest {
    type V = ReqView;

    open spec fn view(&self) -> ReqView {
        ReqView {
            method: self.method@,
            path: self.path@,
            version: self.version@,
            headers: self.headers@,
            body: self.body@,
        }
    }
}

impl HttpRequest {
    /// Internal invariant: the header table is well formed.
    pub open spec fn wf(&self) -> bool {
        self.headers.wf()
    }

    /// Parses a raw buffer, exactly as `spec_parse` describes.
    #[verifier::loop_isolation(false)]
    pub fn from(buf: &[u8]) -> (r: Result<HttpRequest, ParseError>)
        ensures
            match r {
                Ok(req) => spec_parse(buf@) == Ok::<ReqView, ParseError>(req@) && req.wf(),
                Err(e) => spec_parse(buf@) == Err::<ReqView, ParseError>(e),
            },
    {
        if !crate::bytes::utf8_check(buf) {
            return Err(ParseError::InvalidEncoding);
        }
        let sep = match crate::bytes::find_sep(buf) {
            Some(i) => i,
            None => {
                return Err(ParseError::MalformedRequest);
            },
        };
        let blen = buf.len();
        proof {
            crate::bytes::lemma_first_sep_bounds(buf@, 0);
            assert(sep as int + 4 <= blen as int);
        }
        let lines = crate::bytes::split_lines_exec(buf, sep);
        let ghost lv = lines.deep_view();
        if lines.len() == 0 {
            return Err(ParseError::MalformedRequest);
        }
        proof {
            assert(lv[0] == lines@[0]@);
        }
        let toks = crate::bytes::split_ws_exec(lines[0].as_slice());
        if toks.len() < 3 {
            return Err(ParseError::MalformedRequest);
        }
        let mut headers = ByteMap::new();
        proof {
            assert(lv.subrange(1, 1) =~= Seq::<Seq<u8>>::empty());
            assert(headers@ =~= headers_map(lv.subrange(1, 1)));
        }
        let n = lines.len();
        let mut h: usize = 1;
        while h < n
            invariant
                n == lines@.len(),
                1 <= h <= n,
                lv == lines.deep_view(),
                headers.wf(),
                forall|j: int| 1 <= j < h ==> has_colon(lv[j]),
                headers@ == headers_map(lv.subrange(1, h as int)),
            decreases n - h,
        {
            let line = &lines[h];
            proof {
                assert(lv[h as int] == line@);
            }
            match crate::bytes::find_byte_from(line.as_slice(), 0, line.len(), 58) {
                None => {
                    proof {
                        crate::bytes::lemma_first_at_from_none(line@, 58, 0);
                    }
                    return Err(ParseError::MalformedRequest);
                },
                Some(c) => {
                    proof {
                        crate::bytes::lemma_first_at_from_some(line@, 58, 0, c as int);
                        assert(line@.subrange(0, c as int) =~= line@.take(c as int));
                        assert(line@.subrange(c + 1, line@.len() as int) =~= line@.skip(c + 1));
                    }
                    let key = crate::bytes::trim_range(line.as_slice(), 0, c);
                    let val = crate::bytes::trim_range(line.as_slice(), c + 1, line.len());
                    headers.insert(key, val);
                    proof {
                        assert(lv.subrange(1, h + 1).drop_last() =~= lv.subrange(1, h as int));
                        assert(lv.subrange(1, h + 1).last() == lv[h as int]);
                    }
                },
            }
            h = h + 1;
        }
        let mut toks = toks;
        let ghost tv = toks.deep_view();
        proof {
            assert(tv[0] == toks@[0]@);
            assert(tv[1] == toks@[1]@);
            assert(tv[2] == toks@[2]@);
        }
        let method = toks.remove(0);
        let path = toks.remove(0);
        let version = toks.remove(0);
        let body = crate::bytes::vec_from_range(buf, sep + 4, blen);
        proof {
            assert(buf@.subrange(sep + 4, buf@.len() as int) =~= buf@.skip(sep + 4));
            assert(lv.subrange(1, n as int) =~= lv.skip(1));
        }
        let req = HttpRequest { method, path, version, headers, body };
        proof {
            let parsed = spec_parse(buf@);
            assert(parsed is Ok);
            assert(parsed->Ok_0 == req@);
        }
        Ok(req)
    }
}

/// For every text buffer holding the blank-line separator, whose first
/// line splits into at least three whitespace-separated tokens, and whose
/// remaining lines before the separator each hold a colon, parsing
/// succeeds, and the method, path and version are exactly the first
/// line's first three whitespace-split tokens.
pub proof fn lemma_parse_well_formed(s: Seq<u8>, sep: int)
    requires
        crate::bytes::is_utf8(s),
        crate::bytes::first_sep(s) == Some(sep),
        crate::bytes::split_lines(s.take(sep)).len() > 0,
        crate::bytes::split_ws(crate::bytes::split_lines(s.take(sep))[0]).len() >= 3,
        forall|j: int|
            1 <= j < crate::bytes::split_lines(s.take(sep)).len() ==> has_colon(
                crate::bytes::split_lines(s.take(sep))[j],
            ),
    ensures
        spec_parse(s) is Ok,
        spec_parse(s)->Ok_0.method == crate::bytes::split_ws(
            crate::bytes::split_lines(s.take(sep))[0],
        )[0],
        spec_parse(s)->Ok_0.path == crate::bytes::split_ws(
            crate::bytes::split_lines(s.take(sep))[0],
        )[1],
        spec_parse(s)->Ok_0.version == crate::bytes::split_ws(
            crate::bytes::split_lines(s.take(sep))[0],
        )[2],
        spec_parse(s)->Ok_0.headers == headers_map(crate::bytes::split_lines(s.take(sep)).skip(1)),
        spec_parse(s)->Ok_0.body == s.skip(sep + 4),
{
}

proof fn lemma_no_sep_from(s: Seq<u8>, i: int)
    requires
        forall|k: int| !crate::bytes::sep_at(s, k),
    ensures
        crate::bytes::first_sep_from(s, i) is None,
    decreases s.len() - i,
{
    if 0 <= i && i + 4 <= s.len() {
        lemma_no_sep_from(s, i + 1);
    }
}

/// Parsing any text buffer without the CR LF CR LF separator fails with
/// `MalformedRequest`. (A buffer that is not decodable text fails with
/// `InvalidEncoding` instead, separator or none.)
pub proof fn lemma_parse_no_separator(s: Seq<u8>)
    requires
        crate::bytes::is_utf8(s),
        forall|i: int| !crate::bytes::sep_at(s, i),
    ensures
        spec_parse(s) == Err::<ReqView, ParseError>(ParseError::MalformedRequest),
{
    lemma_no_sep_from(s, 0);
}

/// Where the separator exists in a text buffer but some line before it,
/// after the first, lacks a colon, parsing fails with `MalformedRequest`.
pub proof fn lemma_parse_header_without_colon(s: Seq<u8>, sep: int, j: int)
    requires
        crate::bytes::is_utf8(s),
        crate::bytes::first_sep(s) == Some(sep),
        1 <= j < crate::bytes::split_lines(s.take(sep)).len(),
        !has_colon(crate::bytes::split_lines(s.take(sep))[j]),
    ensures
        spec_parse(s) == Err::<ReqView, ParseError>(ParseError::MalformedRequest),
{
    let lines = crate::bytes::split_lines(s.take(sep));
    assert(exists|k: int| 1 <= k < lines.len() && !has_colon(lines[k])) by {
        assert(1 <= j < lines.len() && !has_colon(lines[j]));
    }
}

} // verus!
