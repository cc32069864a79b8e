//! HTTP responses: status codes, their parts, and the parser that reads them
//! from bytes.

use vstd::prelude::*;
use vstd::utf8::*;
use vstd::slice::slice_subrange;

use crate::http::headers::{field_lines, headers_stage, parse_header_block, push_field_lines, Fields, HeaderMap};
use crate::http::request::{
    content_length, content_length_name, version_named, version_text, ParseError, Version,
};
use crate::text::{
    find_blank_line, find_blank_line_exec, lemma_find_blank_line_from, parse_unsigned,
    parse_unsigned_str, scan_exec, scan_to, token_is, utf8_str, blank_line_at, CR, SP, LF,
    decimal_string, decimal_text, push_bytes, push_str,
};

verus! {

broadcast use vstd::utf8::group_utf8_lib;

/// The status of a response.
#[derive(Debug, Clone, Copy, PartialEq, Eq, Structural)]
pub enum StatusCode {
    OK,
    Created,
    MovedPermanently,
    BadRequest,
    Forbidden,
    NotFound,
    MethodNotAllowed,
    InternalServerError,
    BadGateway,
    ServiceUnavailable,
    Other(u16),
}

/// The number of a status.
pub open spec fn status_number(s: StatusCode) -> u16 {
    match s {
        StatusCode::OK => 200,
        StatusCode::Created => 201,
        StatusCode::MovedPermanently => 301,
        StatusCode::BadRequest => 400,
        StatusCode::Forbidden => 403,
        StatusCode::NotFound => 404,
        StatusCode::MethodNotAllowed => 405,
        StatusCode::InternalServerError => 500,
        StatusCode::BadGateway => 502,
        StatusCode::ServiceUnavailable => 503,
        StatusCode::Other(code) => code,
    }
}

/// The reason phrase of a status.
pub open spec fn reason_text(s: StatusCode) -> Seq<char> {
    match s {
        StatusCode::OK => seq!['O', 'K'],
        StatusCode::Created => seq!['C', 'r', 'e', 'a', 't', 'e', 'd'],
        StatusCode::MovedPermanently => seq![
            'M', 'o', 'v', 'e', 'd', ' ', 'P', 'e', 'r', 'm', 'a', 'n', 'e', 'n', 't', 'l', 'y',
        ],
        StatusCode::BadRequest => seq!['B', 'a', 'd', ' ', 'R', 'e', 'q', 'u', 'e', 's', 't'],
        StatusCode::Forbidden => seq!['F', 'o', 'r', 'b', 'i', 'd', 'd', 'e', 'n'],
        StatusCode::NotFound => seq!['N', 'o', 't', ' ', 'F', 'o', 'u', 'n', 'd'],
        StatusCode::MethodNotAllowed => seq![
            'M', 'e', 't', 'h', 'o', 'd', ' ', 'N', 'o', 't', ' ', 'A', 'l', 'l', 'o', 'w', 'e', 'd',
        ],
        StatusCode::InternalServerError => seq![
            'I', 'n', 't', 'e', 'r', 'n', 'a', 'l', ' ', 'S', 'e', 'r', 'v', 'e', 'r', ' ', 'E',
            'r', 'r', 'o', 'r',
        ],
        StatusCode::BadGateway => seq!['B', 'a', 'd', ' ', 'G', 'a', 't', 'e', 'w', 'a', 'y'],
        StatusCode::ServiceUnavailable => seq![
            'S', 'e', 'r', 'v', 'i', 'c', 'e', ' ', 'U', 'n', 'a', 'v', 'a', 'i', 'l', 'a', 'b',
            'l', 'e',
        ],
        StatusCode::Other(_) => seq!['U', 'n', 'k', 'n', 'o', 'w', 'n'],
    }
}

impl StatusCode {
    pub fn code(&self) -> (c: u16)
        ensures
            c == status_number(*self),
    {
        match self {
            StatusCode::OK => 200,
            StatusCode::Created => 201,
            StatusCode::MovedPermanently => 301,
            StatusCode::BadRequest => 400,
            StatusCode::Forbidden => 403,
            StatusCode::NotFound => 404,
            StatusCode::MethodNotAllowed => 405,
            StatusCode::InternalServerError => 500,
            StatusCode::BadGateway => 502,
            StatusCode::ServiceUnavailable => 503,
            StatusCode::Other(code) => *code,
        }
    }

    pub fn reason(&self) -> (r: &str)
        ensures
            r@ == reason_text(*self),
    {
        proof {
            reveal_strlit("OK");
            reveal_strlit("Created");
            reveal_strlit("Moved Permanently");
            reveal_strlit("Bad Request");
            reveal_strlit("Forbidden");
            reveal_strlit("Not Found");
            reveal_strlit("Method Not Allowed");
            reveal_strlit("Internal Server Error");
            reveal_strlit("Bad Gateway");
            reveal_strlit("Service Unavailable");
            reveal_strlit("Unknown");
        }
        let r = match self {
            StatusCode::OK => "OK",
            StatusCode::Created => "Created",
            StatusCode::MovedPermanently => "Moved Permanently",
            StatusCode::BadRequest => "Bad Request",
            StatusCode::Forbidden => "Forbidden",
            StatusCode::NotFound => "Not Found",
            StatusCode::MethodNotAllowed => "Method Not Allowed",
            StatusCode::InternalServerError => "Internal Server Error",
            StatusCode::BadGateway => "Bad Gateway",
            StatusCode::ServiceUnavailable => "Service Unavailable",
            StatusCode::Other(_) => "Unknown",
        };
        assert(r@ =~= reason_text(*self));
        r
    }
}

/// The three-digit text of each named status.
pub open spec fn code_text(s: StatusCode) -> Seq<char> {
    match s {
        StatusCode::OK => seq!['2', '0', '0'],
        StatusCode::Created => seq!['2', '0', '1'],
        StatusCode::MovedPermanently => seq!['3', '0', '1'],
        StatusCode::BadRequest => seq!['4', '0', '0'],
        StatusCode::Forbidden => seq!['4', '0', '3'],
        StatusCode::NotFound => seq!['4', '0', '4'],
        StatusCode::MethodNotAllowed => seq!['4', '0', '5'],
        StatusCode::InternalServerError => seq!['5', '0', '0'],
        StatusCode::BadGateway => seq!['5', '0', '2'],
        StatusCode::ServiceUnavailable => seq!['5', '0', '3'],
        StatusCode::Other(_) => Seq::empty(),
    }
}

/// The named status whose three-digit text is `t`, if any.
pub open spec fn status_named(t: Seq<char>) -> Option<StatusCode> {
    if t == code_text(StatusCode::OK) {
        Some(StatusCode::OK)
    } else if t == code_text(StatusCode::Created) {
        Some(StatusCode::Created)
    } else if t == code_text(StatusCode::MovedPermanently) {
        Some(StatusCode::MovedPermanently)
    } else if t == code_text(StatusCode::BadRequest) {
        Some(StatusCode::BadRequest)
    } else if t == code_text(StatusCode::Forbidden) {
        Some(StatusCode::Forbidden)
    } else if t == code_text(StatusCode::NotFound) {
        Some(StatusCode::NotFound)
    } else if t == code_text(StatusCode::MethodNotAllowed) {
        Some(StatusCode::MethodNotAllowed)
    } else if t == code_text(StatusCode::InternalServerError) {
        Some(StatusCode::InternalServerError)
    } else if t == code_text(StatusCode::BadGateway) {
        Some(StatusCode::BadGateway)
    } else if t == code_text(StatusCode::ServiceUnavailable) {
        Some(StatusCode::ServiceUnavailable)
    } else {
        None
    }
}

/// A response as values: what `Response` holds.
pub struct ResponseView {
    pub version: Version,
    pub status_code: StatusCode,
    pub reason: Seq<char>,
    pub headers: Fields,
    pub body: Seq<u8>,
}

/// A parsed response.
pub struct Response {
    pub version: Version,
    pub status_code: StatusCode,
    pub reason: String,
    pub headers: HeaderMap,
    pub body: Vec<u8>,
}

impl View for Response {
    type V = ResponseView;

    open spec fn view(&self) -> ResponseView {
        ResponseView {
            version: self.version,
            status_code: self.status_code,
            reason: self.reason@,
            headers: self.headers@,
            body: self.body@,
        }
    }
}

/// The version stage of a response: the version runs from the start to the
/// first space; bytes that are not UTF-8 or name no known version are an
/// `InvalidVersion`. The cursor after it is one past that space.
pub open spec fn response_version_stage(raw: Seq<u8>) -> Result<(Version, int), ParseError> {
    let e = scan_to(raw, 0, SP);
    let v = raw.subrange(0, e);
    if !valid_utf8(v) {
        Err(ParseError::InvalidVersion)
    } else {
        match version_named(decode_utf8(v)) {
            Some(x) => Ok((x, e + 1)),
            None => Err(ParseError::InvalidVersion),
        }
    }
}

/// The status stage from cursor `c`: the code runs to the next space (or the
/// end); bytes that are not UTF-8 give `InvalidMethod`; one of the named
/// three-digit codes gives its status, any other number that `u16` parsing
/// accepts gives `Other`, anything else `InvalidStatusCode`. The cursor after
/// it is one past that space. `None` when `c` is past the end, where
/// slicing panics.
pub open spec fn status_stage(raw: Seq<u8>, c: int) -> Option<Result<(StatusCode, int), ParseError>> {
    if c > raw.len() {
        None
    } else {
        let e = scan_to(raw, c, SP);
        let t = raw.subrange(c, e);
        if !valid_utf8(t) {
            Some(Err(ParseError::InvalidMethod))
        } else {
            match status_named(decode_utf8(t)) {
                Some(x) => Some(Ok((x, e + 1))),
                None => match parse_unsigned(decode_utf8(t), 65535) {
                    Some(n) => Some(Ok((StatusCode::Other(n as u16), e + 1))),
                    None => Some(Err(ParseError::InvalidStatusCode)),
                },
            }
        }
    }
}

/// The reason stage from cursor `c`: the phrase runs to the next `\r` (or the
/// end) and must be UTF-8. The cursor stays on that `\r` when it opens
/// `\r\n\r\n`, and moves two past it otherwise. `None` when `c` is past the
/// end or fewer than four bytes follow the phrase, where slicing panics.
pub open spec fn reason_stage(raw: Seq<u8>, c: int) -> Option<Result<(Seq<char>, int), ParseError>> {
    if c > raw.len() {
        None
    } else {
        let e = scan_to(raw, c, CR);
        let r = raw.subrange(c, e);
        if !valid_utf8(r) {
            Some(Err(ParseError::InvalidReason))
        } else if e + 4 > raw.len() {
            None
        } else if blank_line_at(raw, e) {
            Some(Ok((decode_utf8(r), e)))
        } else {
            Some(Ok((decode_utf8(r), e + 2)))
        }
    }
}

/// The body of a response from cursor `c`: the `n > 0` announced bytes when
/// they are all there, nothing otherwise. `None` when `c + n` overflows,
/// where the original panics.
pub open spec fn response_body_stage(raw: Seq<u8>, c: int, n: nat) -> Option<Seq<u8>> {
    if c + n > usize::MAX {
        None
    } else if raw.len() >= c + n {
        Some(raw.subrange(c, c + n))
    } else {
        Some(Seq::empty())
    }
}

/// What reading `raw` as a response gives, stage by stage: version, status,
/// reason, headers and, when `with_body`, the body of the announced length.
/// `None` marks the inputs on which reading panics.
pub open spec fn response_outcome(raw: Seq<u8>, with_body: bool) -> Option<Result<ResponseView, ParseError>> {
    match response_version_stage(raw) {
        Err(e) => Some(Err(e)),
        Ok((version, c1)) => match status_stage(raw, c1) {
            None => None,
            Some(Err(e)) => Some(Err(e)),
            Some(Ok((status_code, c2))) => match reason_stage(raw, c2) {
                None => None,
                Some(Err(e)) => Some(Err(e)),
                Some(Ok((reason, c3))) => match headers_stage(raw, c3) {
                    None => None,
                    Some(Err(e)) => Some(Err(e)),
                    Some(Ok((headers, c4))) => {
                        let head = ResponseView {
                            version,
                            status_code,
                            reason,
                            headers,
                            body: Seq::empty(),
                        };
                        if !with_body {
                            Some(Ok(head))
                        } else {
                            match content_length(headers) {
                                None => Some(Err(ParseError::InvalidContentLength)),
                                Some(n) => if n == 0 {
                                    Some(Ok(head))
                                } else {
                                    match response_body_stage(raw, c4, n) {
                                        None => None,
                                        Some(body) => Some(Ok(ResponseView { body, ..head })),
                                    }
                                },
                            }
                        }
                    },
                },
            },
        },
    }
}

/// The view of what a response parser hands back.
pub open spec fn response_result_view(r: Result<Response, ParseError>) -> Result<ResponseView, ParseError> {
    match r {
        Ok(resp) => Ok(resp@),
        Err(e) => Err(e),
    }
}

fn parse_version(raw: &[u8]) -> (r: Result<(Version, usize), ParseError>)
    ensures
        match r {
            Ok((v, e)) => e <= raw@.len() && response_version_stage(raw@) == Ok::<
                (Version, int),
                ParseError,
            >((v, e + 1)),
            Err(x) => response_version_stage(raw@) == Err::<(Version, int), ParseError>(x),
        },
{
    let e = scan_exec(raw, 0, 32);
    let tok = slice_subrange(raw, 0, e);
    if utf8_str(tok).is_none() {
        return Err(ParseError::InvalidVersion);
    }
    proof {
        reveal_strlit("HTTP/1.0");
        reveal_strlit("HTTP/1.1");
        assert("HTTP/1.0"@ =~= version_text(Version::Http10));
        assert("HTTP/1.1"@ =~= version_text(Version::Http11));
    }
    if token_is(tok, "HTTP/1.1") {
        Ok((Version::Http11, e))
    } else if token_is(tok, "HTTP/1.0") {
        Ok((Version::Http10, e))
    } else {
        Err(ParseError::InvalidVersion)
    }
}

/// The named status whose three-digit text `tok` holds.
fn named_status(tok: &[u8]) -> (r: Option<StatusCode>)
    requires
        valid_utf8(tok@),
    ensures
        r == status_named(decode_utf8(tok@)),
{
    proof {
        reveal_strlit("200");
        reveal_strlit("201");
        reveal_strlit("301");
        reveal_strlit("400");
        reveal_strlit("403");
        reveal_strlit("404");
        reveal_strlit("405");
        reveal_strlit("500");
        reveal_strlit("502");
        reveal_strlit("503");
        assert("200"@ =~= code_text(StatusCode::OK));
        assert("201"@ =~= code_text(StatusCode::Created));
        assert("301"@ =~= code_text(StatusCode::MovedPermanently));
        assert("400"@ =~= code_text(StatusCode::BadRequest));
        assert("403"@ =~= code_text(StatusCode::Forbidden));
        assert("404"@ =~= code_text(StatusCode::NotFound));
        assert("405"@ =~= code_text(StatusCode::MethodNotAllowed));
        assert("500"@ =~= code_text(StatusCode::InternalServerError));
        assert("502"@ =~= code_text(StatusCode::BadGateway));
        assert("503"@ =~= code_text(StatusCode::ServiceUnavailable));
    }
    if token_is(tok, "200") {
        Some(StatusCode::OK)
    } else if token_is(tok, "201") {
        Some(StatusCode::Created)
    } else if token_is(tok, "301") {
        Some(StatusCode::MovedPermanently)
    } else if token_is(tok, "400") {
        Some(StatusCode::BadRequest)
    } else if token_is(tok, "403") {
        Some(StatusCode::Forbidden)
    } else if token_is(tok, "404") {
        Some(StatusCode::NotFound)
    } else if token_is(tok, "405") {
        Some(StatusCode::MethodNotAllowed)
    } else if token_is(tok, "500") {
        Some(StatusCode::InternalServerError)
    } else if token_is(tok, "502") {
        Some(StatusCode::BadGateway)
    } else if token_is(tok, "503") {
        Some(StatusCode::ServiceUnavailable)
    } else {
        None
    }
}

fn parse_status_code(raw: &[u8], c: usize) -> (r: Result<(StatusCode, usize), ParseError>)
    requires
        c <= raw@.len(),
    ensures
        match r {
            Ok((s, e)) => e <= raw@.len() && status_stage(raw@, c as int) == Some(
                Ok::<(StatusCode, int), ParseError>((s, e + 1)),
            ),
            Err(x) => status_stage(raw@, c as int) == Some(Err::<(StatusCode, int), ParseError>(x)),
        },
{
    let e = scan_exec(raw, c, 32);
    let tok = slice_subrange(raw, c, e);
    let text = match utf8_str(tok) {
        Some(t) => t,
        None => return Err(ParseError::InvalidMethod),
    };
    match named_status(tok) {
        Some(s) => Ok((s, e)),
        None => match parse_unsigned_str(text, 65535) {
            Some(n) => Ok((StatusCode::Other(n as u16), e)),
            None => Err(ParseError::InvalidStatusCode),
        },
    }
}

fn parse_reason(raw: &[u8], c: usize) -> (r: Option<Result<(String, usize), ParseError>>)
    requires
        c <= raw@.len(),
    ensures
        match reason_stage(raw@, c as int) {
            None => r is None,
            Some(Ok((t, c2))) => r matches Some(Ok((s, e))) && s@ == t && e == c2,
            Some(Err(x)) => r == Some(Err::<(String, usize), ParseError>(x)),
        },
{
    let e = scan_exec(raw, c, 13);
    let reason = match crate::text::decode_range(raw, c, e) {
        Some(s) => s,
        None => return Some(Err(ParseError::InvalidReason)),
    };
    if e > raw.len() || raw.len() - e < 4 {
        return None;
    }
    if raw[e] == 13 && raw[e + 1] == 10 && raw[e + 2] == 13 && raw[e + 3] == 10 {
        Some(Ok((reason, e)))
    } else {
        Some(Ok((reason, e + 2)))
    }
}

fn parse_body(raw: &[u8], c: usize, n: usize) -> (r: Option<Vec<u8>>)
    requires
        c <= raw@.len(),
    ensures
        match response_body_stage(raw@, c as int, n as nat) {
            None => r is None,
            Some(b) => r matches Some(v) && v@ == b,
        },
{
    if n > usize::MAX - c {
        return None;
    }
    if raw.len() >= c + n {
        let piece = slice_subrange(raw, c, c + n);
        Some(vstd::slice::slice_to_vec(piece))
    } else {
        Some(Vec::new())
    }
}

/// The length the `Content-Length` field gives, or 0 without it.
fn content_length_exec(headers: &HeaderMap) -> (r: Option<usize>)
    ensures
        match content_length(headers@) {
            Some(n) => r == Some(n as usize),
            None => r is None,
        },
{
    proof {
        reveal_strlit("Content-Length");
        assert("Content-Length"@ =~= content_length_name());
    }
    match headers.get("Content-Length") {
        None => Some(0),
        Some(v) => parse_unsigned_str(v.as_str(), usize::MAX),
    }
}

/// Reads a response, with its body or without; `None` on the inputs where
/// reading panics.
fn parse_response(raw: &[u8], with_body: bool) -> (r: Option<Result<Response, ParseError>>)
    ensures
        match r {
            Some(x) => response_outcome(raw@, with_body) == Some(response_result_view(x)),
            None => response_outcome(raw@, with_body) is None,
        },
{
    let (version, e1) = match parse_version(raw) {
        Ok(x) => x,
        Err(x) => return Some(Err(x)),
    };
    if e1 >= raw.len() {
        return None;
    }
    let (status_code, e2) = match parse_status_code(raw, e1 + 1) {
        Ok(x) => x,
        Err(x) => return Some(Err(x)),
    };
    if e2 >= raw.len() {
        return None;
    }
    let (reason, c3) = match parse_reason(raw, e2 + 1) {
        None => return None,
        Some(Err(x)) => return Some(Err(x)),
        Some(Ok(x)) => x,
    };
    let p = match find_blank_line_exec(raw) {
        Some(p) => p,
        None => return Some(Err(ParseError::UnexpectedEndOfRequest)),
    };
    if c3 > p {
        return None;
    }
    proof {
        lemma_find_blank_line_from(raw@, 0);
    }
    let headers = match parse_header_block(raw, c3, p) {
        Ok(m) => m,
        Err(x) => return Some(Err(x)),
    };
    let mut body: Vec<u8> = Vec::new();
    if with_body {
        let n = match content_length_exec(&headers) {
            Some(n) => n,
            None => return Some(Err(ParseError::InvalidContentLength)),
        };
        if n > 0 {
            body = match parse_body(raw, p + 4, n) {
                None => return None,
                Some(b) => b,
            };
        }
    }
    Some(Ok(Response { version, status_code, reason, headers, body }))
}

impl Response {
    /// Reads a whole response: head, then the body when all the bytes that
    /// `Content-Length` announces are there.
    pub fn parser(raw_bytes: &[u8]) -> (r: Result<Self, ParseError>)
        requires
            response_outcome(raw_bytes@, true) is Some,
        ensures
            response_outcome(raw_bytes@, true) == Some(response_result_view(r)),
    {
        match parse_response(raw_bytes, true) {
            Some(r) => r,
            None => {
                assert(false);
                Err(ParseError::UnexpectedEndOfRequest)
            },
        }
    }

    /// Reads the head of a response only; the body is left empty.
    pub fn header_parser(raw_bytes: &[u8]) -> (r: Result<Self, ParseError>)
        requires
            response_outcome(raw_bytes@, false) is Some,
        ensures
            response_outcome(raw_bytes@, false) == Some(response_result_view(r)),
    {
        match parse_response(raw_bytes, false) {
            Some(r) => r,
            None => {
                assert(false);
                Err(ParseError::UnexpectedEndOfRequest)
            },
        }
    }

    /// `parser` on any input: `None` exactly on the inputs where `parser`
    /// cannot run (its reading would panic).
    pub fn try_parser(raw_bytes: &[u8]) -> (r: Option<Result<Self, ParseError>>)
        ensures
            match r {
                Some(x) => response_outcome(raw_bytes@, true) == Some(response_result_view(x)),
                None => response_outcome(raw_bytes@, true) is None,
            },
    {
        parse_response(raw_bytes, true)
    }

    /// `header_parser` on any input: `None` exactly on the inputs where
    /// `header_parser` cannot run (its reading would panic).
    pub fn try_header_parser(raw_bytes: &[u8]) -> (r: Option<Result<Self, ParseError>>)
        ensures
            match r {
                Some(x) => response_outcome(raw_bytes@, false) == Some(response_result_view(x)),
                None => response_outcome(raw_bytes@, false) is None,
            },
    {
        parse_response(raw_bytes, false)
    }
}


/// The bytes the server writes for a response: version, code and reason
/// separated by spaces (with no line end after the reason), one line per
/// header field, `\r\n`, then the body.
pub open spec fn response_bytes(r: ResponseView) -> Seq<u8> {
    encode_utf8(version_text(r.version)) + seq![SP] + encode_utf8(
        decimal_text(status_number(r.status_code) as nat),
    ) + seq![SP] + encode_utf8(r.reason) + field_lines(r.headers) + seq![CR, LF] + r.body
}

impl Response {
    /// The bytes the server writes for this response.
    pub fn to_bytes(&self) -> (out: Vec<u8>)
        ensures
            out@ == response_bytes(self@),
    {
        let mut out: Vec<u8> = Vec::new();
        push_str(&mut out, self.version.as_str());
        out.push(32);
        let code = decimal_string(self.status_code.code() as usize);
        push_str(&mut out, code.as_str());
        out.push(32);
        push_str(&mut out, self.reason.as_str());
        push_field_lines(&mut out, &self.headers);
        push_bytes(&mut out, &[13u8, 10u8]);
        push_bytes(&mut out, self.body.as_slice());
        assert(out@ =~= response_bytes(self@));
        out
    }
}


/// `parser` and `header_parser` agree on the head: where `parser` reads a
/// response, `header_parser` reads the same one without its body; where
/// `header_parser` fails, `parser` fails the same way; and where
/// `header_parser` cannot run, neither can `parser`.
pub proof fn lemma_parser_extends_header_parser(raw: Seq<u8>)
    ensures
        response_outcome(raw, true) matches Some(Ok(r)) ==> response_outcome(raw, false) == Some(
            Ok::<ResponseView, ParseError>(ResponseView { body: Seq::empty(), ..r }),
        ),
        response_outcome(raw, false) matches Some(Err(e)) ==> response_outcome(raw, true) == Some(
            Err::<ResponseView, ParseError>(e),
        ),
        response_outcome(raw, false) is None ==> response_outcome(raw, true) is None,
{
}

/// The body of a response is exactly the bytes its `Content-Length`
/// announces when they have all arrived, and empty when some are missing.
/// Take a response whose head reads as `head`, whose head ends with the
/// first `\r\n\r\n` at `p`, and whose fields announce `n` bytes:
/// `Response::parser` succeeds with the same head, and its body is
/// `raw[p + 4 .. p + 4 + n]` when `raw` holds that many bytes after the
/// head (a message that ends exactly there included), nothing otherwise
/// (short of a length so large that the cursor overflows, where reading
/// panics).
pub proof fn lemma_body_is_announced_bytes(raw: Seq<u8>, head: ResponseView, p: int, n: nat)
    requires
        raw.len() <= usize::MAX,
        response_outcome(raw, false) == Some(Ok::<ResponseView, ParseError>(head)),
        find_blank_line(raw) == Some(p),
        content_length(head.headers) == Some(n),
    ensures
        p + 4 + n <= raw.len() ==> response_outcome(raw, true) == Some(
            Ok::<ResponseView, ParseError>(
                ResponseView { body: raw.subrange(p + 4, p + 4 + n), ..head },
            ),
        ),
        raw.len() < p + 4 + n <= usize::MAX ==> response_outcome(raw, true) == Some(
            Ok::<ResponseView, ParseError>(head),
        ),
{
    lemma_find_blank_line_from(raw, 0);
    if n == 0 && p + 4 + n <= raw.len() {
        assert(raw.subrange(p + 4, p + 4 + n) =~= Seq::<u8>::empty());
        assert(ResponseView { body: raw.subrange(p + 4, p + 4 + n), ..head } == head);
    }
    if raw.len() < p + 4 + n {
        assert(head.body == Seq::<u8>::empty());
        assert(ResponseView { body: Seq::<u8>::empty(), ..head } == head);
    }
}

/// Each status has a reason phrase of its own: no two statuses share one,
/// so a reason phrase names the status it was written for. (The phrase of
/// every `Other` status is the same, `Unknown`, which no named status uses.)
pub proof fn lemma_reason_phrases_distinct(s1: StatusCode, s2: StatusCode)
    requires
        !(s1 is Other),
        reason_text(s1) == reason_text(s2),
    ensures
        s1 == s2,
{
    let t1 = reason_text(s1);
    let t2 = reason_text(s2);
    assert(t1.len() == t2.len());
    assert(t1[0] == t2[0]);
    if t1.len() > 4 {
        assert(t1[4] == t2[4]);
    }
}

} // verus!
