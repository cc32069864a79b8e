//! HTTP requests: their parts and the parser that reads them from bytes.

use vstd::prelude::*;
use vstd::utf8::*;
use vstd::slice::slice_subrange;

use crate::http::headers::{headers_stage, lookup, parse_header_block, Fields, HeaderMap};
use crate::text::{
    no_char,
    decode_range, find_blank_line, find_blank_line_exec, lemma_ascii_bounded_piece,
    lemma_find_blank_line_from, lemma_scan_to, lemma_scan_to2, parse_unsigned,
    parse_unsigned_str, scan2_exec, scan_exec, scan_to, scan_to2, split_from, split_on,
    split_once, token_is, utf8_str, CR, SP,
};

verus! {

/// Why a request or a response could not be read.
#[derive(Debug, Clone, Copy, PartialEq, Eq, Structural)]
pub enum ParseError {
    UnexpectedEndOfRequest,
    InvalidUtf8,
    InvalidMethod,
    InvalidPath,
    InvalidVersion,
    InvalidHeader,
    MissingContentLength,
    InvalidContentLength,
    InvalidReason,
    InvalidStatusCode,
}

/// The request methods the server knows.
#[derive(Debug, Clone, Copy, PartialEq, Eq, Structural)]
pub enum Method {
    GET,
    POST,
    PUT,
    DELETE,
    PATCH,
    HEAD,
    OPTIONS,
}

/// The protocol versions the server speaks.
#[derive(Debug, Clone, Copy, PartialEq, Eq, Structural)]
pub enum Version {
    Http10,
    Http11,
}

/// The text of a version as it stands on the wire.
pub open spec fn version_text(v: Version) -> Seq<char> {
    match v {
        Version::Http10 => seq!['H', 'T', 'T', 'P', '/', '1', '.', '0'],
        Version::Http11 => seq!['H', 'T', 'T', 'P', '/', '1', '.', '1'],
    }
}

impl Version {
    pub fn as_str(&self) -> (s: &str)
        ensures
            s@ == version_text(*self),
    {
        match self {
            Version::Http10 => {
                proof { reveal_strlit("HTTP/1.0"); }
                "HTTP/1.0"
            },
            Version::Http11 => {
                proof { reveal_strlit("HTTP/1.1"); }
                "HTTP/1.1"
            },
        }
    }
}


broadcast use vstd::utf8::group_utf8_lib;

pub const QMARK: u8 = 0x3f;
pub const AMP: u8 = 0x26;
pub const EQ: u8 = 0x3d;

/// The token of a method as it stands on the wire.
pub open spec fn method_text(m: Method) -> Seq<char> {
    match m {
        Method::GET => seq!['G', 'E', 'T'],
        Method::POST => seq!['P', 'O', 'S', 'T'],
        Method::PUT => seq!['P', 'U', 'T'],
        Method::DELETE => seq!['D', 'E', 'L', 'E', 'T', 'E'],
        Method::PATCH => seq!['P', 'A', 'T', 'C', 'H'],
        Method::HEAD => seq!['H', 'E', 'A', 'D'],
        Method::OPTIONS => seq!['O', 'P', 'T', 'I', 'O', 'N', 'S'],
    }
}

/// The method whose token is `t`, if any.
pub open spec fn method_named(t: Seq<char>) -> Option<Method> {
    if t == method_text(Method::GET) {
        Some(Method::GET)
    } else if t == method_text(Method::POST) {
        Some(Method::POST)
    } else if t == method_text(Method::PUT) {
        Some(Method::PUT)
    } else if t == method_text(Method::DELETE) {
        Some(Method::DELETE)
    } else if t == method_text(Method::OPTIONS) {
        Some(Method::OPTIONS)
    } else if t == method_text(Method::HEAD) {
        Some(Method::HEAD)
    } else if t == method_text(Method::PATCH) {
        Some(Method::PATCH)
    } else {
        None
    }
}

/// The version whose text is `t`, if any.
pub open spec fn version_named(t: Seq<char>) -> Option<Version> {
    if t == version_text(Version::Http10) {
        Some(Version::Http10)
    } else if t == version_text(Version::Http11) {
        Some(Version::Http11)
    } else {
        None
    }
}

/// The name of the field that gives the length of the body.
pub open spec fn content_length_name() -> Seq<char> {
    seq!['C', 'o', 'n', 't', 'e', 'n', 't', '-', 'L', 'e', 'n', 'g', 't', 'h']
}

/// A query parameter as characters: its name and, when it has an `=`, its value.
pub type QueryParam = (Seq<char>, Option<Seq<char>>);

/// A request as values: what `Request` holds.
pub struct RequestView {
    pub method: Method,
    pub path: Seq<char>,
    pub query: Seq<QueryParam>,
    pub version: Version,
    pub headers: Fields,
    pub body: Seq<char>,
}

pub open spec fn opt_view(o: Option<String>) -> Option<Seq<char>> {
    match o {
        Some(s) => Some(s@),
        None => None,
    }
}

pub open spec fn param_view(p: (String, Option<String>)) -> QueryParam {
    (p.0@, opt_view(p.1))
}

/// The parameters held by a list of owned ones.
pub open spec fn params_view(ps: Seq<(String, Option<String>)>) -> Seq<QueryParam> {
    ps.map_values(|p: (String, Option<String>)| param_view(p))
}

/// The parameters that a list of query pieces stands for.
pub open spec fn pieces_params(pieces: Seq<Seq<u8>>) -> Seq<QueryParam> {
    pieces.map_values(|p: Seq<u8>| query_pair(p))
}

/// A parsed request.
pub struct Request {
    pub method: Method,
    pub path: String,
    pub query: Vec<(String, Option<String>)>,
    pub version: Version,
    pub headers: HeaderMap,
    pub body: String,
}

impl View for Request {
    type V = RequestView;

    open spec fn view(&self) -> RequestView {
        RequestView {
            method: self.method,
            path: self.path@,
            query: params_view(self.query@),
            version: self.version,
            headers: self.headers@,
            body: self.body@,
        }
    }
}

/// The method stage: the token runs from the start to the first space and
/// must be UTF-8 naming a known method. The cursor after it is one past
/// that space.
pub open spec fn method_stage(raw: Seq<u8>) -> Result<(Method, int), ParseError> {
    let e = scan_to(raw, 0, SP);
    let m = raw.subrange(0, e);
    if !valid_utf8(m) {
        Err(ParseError::InvalidUtf8)
    } else {
        match method_named(decode_utf8(m)) {
            Some(x) => Ok((x, e + 1)),
            None => Err(ParseError::InvalidMethod),
        }
    }
}

/// The path stage from cursor `c`: the path runs to the first `?` or space,
/// one of which must come; a `?` opens a query. The cursor after it is one
/// past that byte.
pub open spec fn path_stage(raw: Seq<u8>, c: int) -> Result<(Seq<char>, bool, int), ParseError> {
    let e = scan_to2(raw, c, QMARK, SP);
    if e >= raw.len() {
        Err(ParseError::InvalidPath)
    } else {
        let p = raw.subrange(c, e);
        if !valid_utf8(p) {
            Err(ParseError::InvalidUtf8)
        } else {
            Ok((decode_utf8(p), raw[e] == QMARK, e + 1))
        }
    }
}

/// A query parameter: the name runs to the first `=`, the value after it;
/// without `=` the whole piece is the name and there is no value.
pub open spec fn query_pair(piece: Seq<u8>) -> QueryParam {
    match split_once(piece, EQ) {
        Some((k, v)) => (decode_utf8(k), Some(decode_utf8(v))),
        None => (decode_utf8(piece), None),
    }
}

/// The parameters of a query, one per `&`-separated piece.
pub open spec fn query_params(q: Seq<u8>) -> Seq<QueryParam> {
    pieces_params(split_on(q, AMP))
}

/// The query stage from cursor `c`: the query runs to the next space (or the
/// end) and must be UTF-8. The cursor after it is one past that space.
pub open spec fn query_stage(raw: Seq<u8>, c: int) -> Result<(Seq<QueryParam>, int), ParseError> {
    let e = scan_to(raw, c, SP);
    let q = raw.subrange(c, e);
    if !valid_utf8(q) {
        Err(ParseError::InvalidUtf8)
    } else {
        Ok((query_params(q), e + 1))
    }
}

/// The version stage from cursor `c`: the version runs to the next `\r` (or
/// the end), must be UTF-8 and a known version. The cursor after it is two
/// past that `\r`. `None` when `c` is past the end, where slicing panics.
pub open spec fn version_stage(raw: Seq<u8>, c: int) -> Option<Result<(Version, int), ParseError>> {
    if c > raw.len() {
        None
    } else {
        let e = scan_to(raw, c, CR);
        let v = raw.subrange(c, e);
        if !valid_utf8(v) {
            Some(Err(ParseError::InvalidUtf8))
        } else {
            match version_named(decode_utf8(v)) {
                Some(x) => Some(Ok((x, e + 2))),
                None => Some(Err(ParseError::InvalidVersion)),
            }
        }
    }
}

/// The body length the fields announce: the `Content-Length` value read as
/// a `usize`, or 0 without that field. `None` when the value is no number.
pub open spec fn content_length(es: Fields) -> Option<nat> {
    match lookup(es, content_length_name()) {
        None => Some(0),
        Some(v) => parse_unsigned(v, usize::MAX as nat),
    }
}

/// The body stage from cursor `c` for `n > 0` bytes: they must all be there
/// and be UTF-8. `None` when `c + n` overflows, where the original panics.
pub open spec fn body_stage(raw: Seq<u8>, c: int, n: nat) -> Option<Result<Seq<char>, ParseError>> {
    if c + n > usize::MAX {
        None
    } else if raw.len() >= c + n {
        let b = raw.subrange(c, c + n);
        if valid_utf8(b) {
            Some(Ok(decode_utf8(b)))
        } else {
            Some(Err(ParseError::InvalidUtf8))
        }
    } else {
        Some(Err(ParseError::UnexpectedEndOfRequest))
    }
}

/// What reading `raw` as a request gives, stage by stage: method, path,
/// optional query, version, headers and, when `with_body`, the body of the
/// announced length. `None` marks the inputs on which reading panics.
pub open spec fn request_outcome(raw: Seq<u8>, with_body: bool) -> Option<Result<RequestView, ParseError>> {
    match method_stage(raw) {
        Err(e) => Some(Err(e)),
        Ok((method, c1)) => match path_stage(raw, c1) {
            Err(e) => Some(Err(e)),
            Ok((path, has_query, c2)) => {
                let q = if has_query {
                    query_stage(raw, c2)
                } else {
                    Ok((Seq::<QueryParam>::empty(), c2))
                };
                match q {
                    Err(e) => Some(Err(e)),
                    Ok((query, c3)) => match version_stage(raw, c3) {
                        None => None,
                        Some(Err(e)) => Some(Err(e)),
                        Some(Ok((version, c4))) => match headers_stage(raw, c4) {
                            None => None,
                            Some(Err(e)) => Some(Err(e)),
                            Some(Ok((headers, c5))) => {
                                let head = RequestView {
                                    method,
                                    path,
                                    query,
                                    version,
                                    headers,
                                    body: Seq::empty(),
                                };
                                if !with_body {
                                    Some(Ok(head))
                                } else {
                                    match content_length(headers) {
                                        None => Some(Err(ParseError::InvalidContentLength)),
                                        Some(n) => if n == 0 {
                                            Some(Ok(head))
                                        } else {
                                            match body_stage(raw, c5, n) {
                                                None => None,
                                                Some(Err(e)) => Some(Err(e)),
                                                Some(Ok(body)) => Some(Ok(RequestView { body, ..head })),
                                            }
                                        },
                                    }
                                }
                            },
                        },
                    },
                }
            },
        },
    }
}

pub proof fn lemma_method_text(m: Method)
    ensures
        is_ascii_chars(method_text(m)),
        no_char(method_text(m), ' '),
        no_char(method_text(m), '\r'),
        method_named(method_text(m)) == Some(m),
        method_text(m).len() > 0,
{
}

pub proof fn lemma_version_text(v: Version)
    ensures
        is_ascii_chars(version_text(v)),
        no_char(version_text(v), ' '),
        no_char(version_text(v), '\r'),
        version_named(version_text(v)) == Some(v),
{
}

/// The view of what a request parser hands back.
pub open spec fn request_result_view(r: Result<Request, ParseError>) -> Result<RequestView, ParseError> {
    match r {
        Ok(req) => Ok(req@),
        Err(e) => Err(e),
    }
}

fn parse_method(raw: &[u8]) -> (r: Result<(Method, usize), ParseError>)
    ensures
        match r {
            Ok((m, e)) => e <= raw@.len() && method_stage(raw@) == Ok::<(Method, int), ParseError>((m, e + 1)),
            Err(x) => method_stage(raw@) == Err::<(Method, int), ParseError>(x),
        },
{
    let e = scan_exec(raw, 0, 32);
    let tok = slice_subrange(raw, 0, e);
    if utf8_str(tok).is_none() {
        return Err(ParseError::InvalidUtf8);
    }
    proof {
        reveal_strlit("GET");
        reveal_strlit("POST");
        reveal_strlit("PUT");
        reveal_strlit("DELETE");
        reveal_strlit("OPTIONS");
        reveal_strlit("HEAD");
        reveal_strlit("PATCH");
        assert("GET"@ =~= method_text(Method::GET));
        assert("POST"@ =~= method_text(Method::POST));
        assert("PUT"@ =~= method_text(Method::PUT));
        assert("DELETE"@ =~= method_text(Method::DELETE));
        assert("OPTIONS"@ =~= method_text(Method::OPTIONS));
        assert("HEAD"@ =~= method_text(Method::HEAD));
        assert("PATCH"@ =~= method_text(Method::PATCH));
    }
    let method = if token_is(tok, "GET") {
        Method::GET
    } else if token_is(tok, "POST") {
        Method::POST
    } else if token_is(tok, "PUT") {
        Method::PUT
    } else if token_is(tok, "DELETE") {
        Method::DELETE
    } else if token_is(tok, "OPTIONS") {
        Method::OPTIONS
    } else if token_is(tok, "HEAD") {
        Method::HEAD
    } else if token_is(tok, "PATCH") {
        Method::PATCH
    } else {
        return Err(ParseError::InvalidMethod);
    };
    Ok((method, e))
}

fn parse_path(raw: &[u8], c: usize) -> (r: Result<(String, bool, usize), ParseError>)
    requires
        c <= raw@.len(),
    ensures
        match r {
            Ok((p, q, e)) => e < raw@.len() && path_stage(raw@, c as int) == Ok::<
                (Seq<char>, bool, int),
                ParseError,
            >((p@, q, e + 1)),
            Err(x) => path_stage(raw@, c as int) == Err::<(Seq<char>, bool, int), ParseError>(x),
        },
{
    let e = scan2_exec(raw, c, 63, 32);
    if e >= raw.len() {
        return Err(ParseError::InvalidPath);
    }
    match decode_range(raw, c, e) {
        None => Err(ParseError::InvalidUtf8),
        Some(path) => Ok((path, raw[e] == 63, e)),
    }
}

/// The parameter that `q[a..b]` stands for.
fn query_pair_exec(q: &[u8], a: usize, b: usize) -> (r: (String, Option<String>))
    requires
        a <= b <= q@.len(),
        valid_utf8(q@.subrange(a as int, b as int)),
    ensures
        param_view(r) == query_pair(q@.subrange(a as int, b as int)),
{
    let piece = slice_subrange(q, a, b);
    let ghost pb = piece@;
    let j = scan_exec(piece, 0, 61);
    proof {
        lemma_scan_to(pb, 0, EQ);
    }
    if j < piece.len() {
        proof {
            lemma_ascii_bounded_piece(pb, 0, j as int);
            lemma_ascii_bounded_piece(pb, j + 1, pb.len() as int);
        }
        let k = match decode_range(piece, 0, j) {
            Some(k) => k,
            None => {
                assert(false);
                String::new()
            },
        };
        let v = match decode_range(piece, j + 1, piece.len()) {
            Some(v) => v,
            None => {
                assert(false);
                String::new()
            },
        };
        (k, Some(v))
    } else {
        assert(pb.subrange(0, pb.len() as int) =~= pb);
        let k = match decode_range(piece, 0, piece.len()) {
            Some(k) => k,
            None => {
                assert(false);
                String::new()
            },
        };
        (k, None)
    }
}

fn parse_query(raw: &[u8], c: usize) -> (r: Result<(Vec<(String, Option<String>)>, usize), ParseError>)
    requires
        c <= raw@.len(),
    ensures
        match r {
            Ok((qs, e)) => e <= raw@.len() && query_stage(raw@, c as int) == Ok::<
                (Seq<QueryParam>, int),
                ParseError,
            >((params_view(qs@), e + 1)),
            Err(x) => query_stage(raw@, c as int) == Err::<(Seq<QueryParam>, int), ParseError>(x),
        },
{
    let e = scan_exec(raw, c, 32);
    let q = slice_subrange(raw, c, e);
    if utf8_str(q).is_none() {
        return Err(ParseError::InvalidUtf8);
    }
    let ghost qb = q@;
    let n = q.len();
    let mut params: Vec<(String, Option<String>)> = Vec::new();
    let mut pos: usize = 0;
    let ghost mut done: Seq<Seq<u8>> = Seq::empty();
    loop
        invariant
            qb == q@,
            c <= e <= raw@.len(),
            e == scan_to(raw@, c as int, SP),
            qb == raw@.subrange(c as int, e as int),
            n == qb.len(),
            valid_utf8(qb),
            pos <= n,
            pos == 0 || qb[pos - 1] == AMP,
            split_on(qb, AMP) == done + split_from(qb, pos as int, AMP),
            params_view(params@) == pieces_params(done),
            params@.len() == done.len(),
        decreases n - pos,
    {
        let i = scan_exec(q, pos, 38);
        proof {
            lemma_scan_to(qb, pos as int, AMP);
            lemma_ascii_bounded_piece(qb, pos as int, i as int);
        }
        let pair = query_pair_exec(q, pos, i);
        let ghost piece = qb.subrange(pos as int, i as int);
        let ghost before = params@;
        let ghost pv = param_view(pair);
        params.push(pair);
        proof {
            let nd = done.push(piece);
            assert(pv == query_pair(piece));
            assert(params@ =~= before.push(pair));
            assert forall|k: int| 0 <= k < nd.len() implies params_view(params@)[k] == pieces_params(nd)[k] by {
                if k < done.len() {
                    assert(params@[k] == before[k]);
                    assert(params_view(before)[k] == pieces_params(done)[k]);
                } else {
                    assert(params@[k] == pair);
                }
            }
            assert(params_view(params@) =~= pieces_params(nd));
            if i < n {
                assert(split_from(qb, pos as int, AMP) =~= seq![piece] + split_from(qb, i + 1, AMP));
                assert(split_on(qb, AMP) =~= nd + split_from(qb, i + 1, AMP));
            } else {
                assert(split_from(qb, pos as int, AMP) =~= seq![piece]);
                assert(split_on(qb, AMP) =~= nd);
            }
            done = nd;
        }
        if i >= n {
            proof {
                assert(split_on(qb, AMP) == done);
            }
            return Ok((params, e));
        }
        pos = i + 1;
    }
}

fn parse_version(raw: &[u8], c: usize) -> (r: Result<(Version, usize), ParseError>)
    requires
        c <= raw@.len(),
    ensures
        match r {
            Ok((v, e)) => e <= raw@.len() && version_stage(raw@, c as int) == Some(
                Ok::<(Version, int), ParseError>((v, e + 2)),
            ),
            Err(x) => version_stage(raw@, c as int) == Some(Err::<(Version, int), ParseError>(x)),
        },
{
    let e = scan_exec(raw, c, 13);
    let tok = slice_subrange(raw, c, e);
    if utf8_str(tok).is_none() {
        return Err(ParseError::InvalidUtf8);
    }
    proof {
        reveal_strlit("HTTP/1.0");
        reveal_strlit("HTTP/1.1");
        assert("HTTP/1.0"@ =~= version_text(Version::Http10));
        assert("HTTP/1.1"@ =~= version_text(Version::Http11));
    }
    if token_is(tok, "HTTP/1.0") {
        Ok((Version::Http10, e))
    } else if token_is(tok, "HTTP/1.1") {
        Ok((Version::Http11, e))
    } else {
        Err(ParseError::InvalidVersion)
    }
}

/// The length the `Content-Length` field gives, or 0 without it.
pub(crate) fn content_length_exec(headers: &HeaderMap) -> (r: Option<usize>)
    ensures
        match content_length(headers@) {
            Some(n) => r == Some(n as usize),
            None => r is None,
        },
{
    proof {
        reveal_strlit("Content-Length");
        assert("Content-Length"@ =~= content_length_name());
    }
    match headers.get("Content-Length") {
        None => Some(0),
        Some(v) => parse_unsigned_str(v.as_str(), usize::MAX),
    }
}

fn parse_body(raw: &[u8], c: usize, n: usize) -> (r: Option<Result<String, ParseError>>)
    requires
        c <= raw@.len(),
    ensures
        match body_stage(raw@, c as int, n as nat) {
            None => r is None,
            Some(Ok(b)) => r matches Some(Ok(s)) && s@ == b,
            Some(Err(e)) => r == Some(Err::<String, ParseError>(e)),
        },
{
    if n > usize::MAX - c {
        return None;
    }
    if raw.len() >= c + n {
        match decode_range(raw, c, c + n) {
            Some(s) => Some(Ok(s)),
            None => Some(Err(ParseError::InvalidUtf8)),
        }
    } else {
        Some(Err(ParseError::UnexpectedEndOfRequest))
    }
}

/// Reads a request, with its body or without; `None` on the inputs where
/// reading panics.
fn parse_request(raw: &[u8], with_body: bool) -> (r: Option<Result<Request, ParseError>>)
    ensures
        match r {
            Some(x) => request_outcome(raw@, with_body) == Some(request_result_view(x)),
            None => request_outcome(raw@, with_body) is None,
        },
{
    let (method, e1) = match parse_method(raw) {
        Ok(x) => x,
        Err(x) => return Some(Err(x)),
    };
    if e1 >= raw.len() {
        proof {
            lemma_scan_to2(raw@, e1 + 1, QMARK, SP);
        }
        return Some(Err(ParseError::InvalidPath));
    }
    let (path, has_query, e2) = match parse_path(raw, e1 + 1) {
        Ok(x) => x,
        Err(x) => return Some(Err(x)),
    };
    let c2 = e2 + 1;
    let (query, c3) = if has_query {
        let (qs, e3) = match parse_query(raw, c2) {
            Ok(x) => x,
            Err(x) => return Some(Err(x)),
        };
        if e3 >= raw.len() {
            return None;
        }
        (qs, e3 + 1)
    } else {
        let qs: Vec<(String, Option<String>)> = Vec::new();
        proof {
            assert(params_view(qs@) =~= Seq::<QueryParam>::empty());
        }
        (qs, c2)
    };
    let (version, e4) = match parse_version(raw, c3) {
        Ok(x) => x,
        Err(x) => return Some(Err(x)),
    };
    let p = match find_blank_line_exec(raw) {
        Some(p) => p,
        None => return Some(Err(ParseError::UnexpectedEndOfRequest)),
    };
    if e4 >= p || p - e4 < 2 {
        return None;
    }
    proof {
        lemma_find_blank_line_from(raw@, 0);
    }
    let headers = match parse_header_block(raw, e4 + 2, p) {
        Ok(m) => m,
        Err(x) => return Some(Err(x)),
    };
    let mut body = String::new();
    if with_body {
        let n = match content_length_exec(&headers) {
            Some(n) => n,
            None => return Some(Err(ParseError::InvalidContentLength)),
        };
        if n > 0 {
            body = match parse_body(raw, p + 4, n) {
                None => return None,
                Some(Err(x)) => return Some(Err(x)),
                Some(Ok(b)) => b,
            };
        }
    }
    Some(Ok(Request { method, path, query, version, headers, body }))
}

impl Request {
    /// Reads a whole request: head, then a body of the length that
    /// `Content-Length` announces (none without that field).
    pub fn parser(raw_bytes: &[u8]) -> (r: Result<Self, ParseError>)
        requires
            request_outcome(raw_bytes@, true) is Some,
        ensures
            request_outcome(raw_bytes@, true) == Some(request_result_view(r)),
    {
        match parse_request(raw_bytes, true) {
            Some(r) => r,
            None => {
                assert(false);
                Err(ParseError::UnexpectedEndOfRequest)
            },
        }
    }

    /// Reads the head of a request only; the body is left empty.
    pub fn header_parser(raw_bytes: &[u8]) -> (r: Result<Self, ParseError>)
        requires
            request_outcome(raw_bytes@, false) is Some,
        ensures
            request_outcome(raw_bytes@, false) == Some(request_result_view(r)),
    {
        match parse_request(raw_bytes, false) {
            Some(r) => r,
            None => {
                assert(false);
                Err(ParseError::UnexpectedEndOfRequest)
            },
        }
    }

    /// `parser` on any input: `None` exactly on the inputs where `parser`
    /// cannot run (its reading would panic).
    pub fn try_parser(raw_bytes: &[u8]) -> (r: Option<Result<Self, ParseError>>)
        ensures
            match r {
                Some(x) => request_outcome(raw_bytes@, true) == Some(request_result_view(x)),
                None => request_outcome(raw_bytes@, true) is None,
            },
    {
        parse_request(raw_bytes, true)
    }

    /// `header_parser` on any input: `None` exactly on the inputs where
    /// `header_parser` cannot run (its reading would panic).
    pub fn try_header_parser(raw_bytes: &[u8]) -> (r: Option<Result<Self, ParseError>>)
        ensures
            match r {
                Some(x) => request_outcome(raw_bytes@, false) == Some(request_result_view(x)),
                None => request_outcome(raw_bytes@, false) is None,
            },
    {
        parse_request(raw_bytes, false)
    }
}


/// `parser` and `header_parser` agree on the head: where `parser` reads a
/// request, `header_parser` reads the same one without its body; where
/// `header_parser` fails, `parser` fails the same way; and where
/// `header_parser` cannot run, neither can `parser`.
pub proof fn lemma_parser_extends_header_parser(raw: Seq<u8>)
    ensures
        request_outcome(raw, true) matches Some(Ok(r)) ==> request_outcome(raw, false) == Some(
            Ok::<RequestView, ParseError>(RequestView { body: Seq::empty(), ..r }),
        ),
        request_outcome(raw, false) matches Some(Err(e)) ==> request_outcome(raw, true) == Some(
            Err::<RequestView, ParseError>(e),
        ),
        request_outcome(raw, false) is None ==> request_outcome(raw, true) is None,
{
}

/// The body of a request is exactly the bytes its `Content-Length`
/// announces, read as UTF-8. Take a request whose head reads as `head`,
/// whose head ends with the first `\r\n\r\n` at `p`, and whose fields
/// announce `n` bytes, all of which follow the head. When those `n` bytes
/// are well-formed UTF-8, `Request::parser` succeeds with the same head and
/// the characters they encode as its body, whatever those characters are;
/// it fails with `InvalidUtf8` exactly when they are not well-formed.
pub proof fn lemma_body_is_announced_bytes(raw: Seq<u8>, head: RequestView, p: int, n: nat)
    requires
        raw.len() <= usize::MAX,
        request_outcome(raw, false) == Some(Ok::<RequestView, ParseError>(head)),
        find_blank_line(raw) == Some(p),
        content_length(head.headers) == Some(n),
        p + 4 + n <= raw.len(),
    ensures
        valid_utf8(raw.subrange(p + 4, p + 4 + n)) ==> request_outcome(raw, true) == Some(
            Ok::<RequestView, ParseError>(
                RequestView { body: decode_utf8(raw.subrange(p + 4, p + 4 + n)), ..head },
            ),
        ),
        !valid_utf8(raw.subrange(p + 4, p + 4 + n)) ==> request_outcome(raw, true) == Some(
            Err::<RequestView, ParseError>(ParseError::InvalidUtf8),
        ),
{
    lemma_find_blank_line_from(raw, 0);
    let b = raw.subrange(p + 4, p + 4 + n);
    if n == 0 {
        assert(b =~= Seq::<u8>::empty());
        assert(valid_utf8(b));
        assert(decode_utf8(b) =~= Seq::<char>::empty()) by {
            assert(encode_utf8(Seq::<char>::empty()) =~= Seq::<u8>::empty());
        }
        assert(head.body == Seq::<char>::empty());
        assert(RequestView { body: decode_utf8(b), ..head } == head);
    }
}

} // verus!
