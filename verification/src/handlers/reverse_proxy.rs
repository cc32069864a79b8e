//! Forwarding requests upstream: the bytes a request is sent as.

use vstd::prelude::*;
use vstd::utf8::*;

use crate::http::headers::{field_lines, lemma_head_block, push_field_lines, wire_safe_fields};
use crate::http::request::{
    content_length, lemma_method_text, lemma_version_text, method_named, method_stage, method_text, path_stage, pieces_params,
    query_pair, query_params, query_stage, request_outcome, version_named, version_stage,
    version_text, Method, QueryParam, Request, RequestView, Version, AMP, EQ, QMARK,
};
use crate::text::{
    lemma_ascii_valid, lemma_encode_no_byte, lemma_scan_to2_at, lemma_scan_to_at,
    lemma_split_append, lemma_split_single, no_byte, no_char, push_bytes, push_str, split_on, CR,
    LF, SP,
};

verus! {

/// Why forwarding a request failed.
#[derive(Debug, Clone, Copy, PartialEq, Eq, Structural)]
pub enum ProxyError {
    ConnectionFailed,
    WriteFailed,
    ReadFailed,
    InvalidResponse,
}

/// Why a message could not be turned into bytes or text.
#[derive(Debug, Clone, Copy, PartialEq, Eq, Structural)]
pub enum ConversionError {
    ToRawBytesFailed,
    ToStringFailed,
}

/// One query parameter on the wire: the name, then `=` and the value when
/// there is one.
pub open spec fn param_bytes(p: QueryParam) -> Seq<u8> {
    encode_utf8(p.0) + match p.1 {
        Some(v) => seq![EQ] + encode_utf8(v),
        None => Seq::empty(),
    }
}

/// The query parameters on the wire, separated by `&`.
pub open spec fn params_bytes(q: Seq<QueryParam>) -> Seq<u8>
    decreases q.len(),
{
    if q.len() == 0 {
        Seq::empty()
    } else if q.len() == 1 {
        param_bytes(q[0])
    } else {
        params_bytes(q.drop_last()) + seq![AMP] + param_bytes(q.last())
    }
}

/// What follows the path: `?`, the parameters and a space when there are
/// parameters, a space alone otherwise.
pub open spec fn query_part(q: Seq<QueryParam>) -> Seq<u8> {
    if q.len() > 0 {
        seq![QMARK] + params_bytes(q) + seq![SP]
    } else {
        seq![SP]
    }
}

/// The bytes a request is forwarded as: the request line, one line per
/// header field, then `\r\n\r\n` and the body.
pub open spec fn request_bytes(r: RequestView) -> Seq<u8> {
    encode_utf8(method_text(r.method)) + seq![SP] + encode_utf8(r.path) + query_part(r.query)
        + encode_utf8(version_text(r.version)) + seq![CR, LF] + field_lines(r.headers) + seq![
        CR,
        LF,
        CR,
        LF,
    ] + encode_utf8(r.body)
}

pub fn request_to_bytes(request: &Request) -> (raw_request: Vec<u8>)
    ensures
        raw_request@ == request_bytes(request@),
{
    let mut raw_request: Vec<u8> = Vec::new();
    proof {
        reveal_strlit("GET");
        reveal_strlit("POST");
        reveal_strlit("PUT");
        reveal_strlit("DELETE");
        reveal_strlit("OPTIONS");
        reveal_strlit("HEAD");
        reveal_strlit("PATCH");
        reveal_strlit("HTTP/1.0");
        reveal_strlit("HTTP/1.1");
    }
    let method = match request.method {
        Method::GET => "GET",
        Method::POST => "POST",
        Method::PUT => "PUT",
        Method::DELETE => "DELETE",
        Method::OPTIONS => "OPTIONS",
        Method::HEAD => "HEAD",
        Method::PATCH => "PATCH",
    };
    assert(method@ =~= method_text(request.method));
    push_str(&mut raw_request, method);
    raw_request.push(32);
    push_str(&mut raw_request, request.path.as_str());
    let ghost line_start = raw_request@;
    let n = request.query.len();
    let ghost q = request@.query;
    if n > 0 {
        raw_request.push(63);
        let ghost after_mark = raw_request@;
        let mut i: usize = 0;
        while i < n
            invariant
                n == request.query@.len(),
                q == request@.query,
                q.len() == n,
                i <= n,
                raw_request@ == after_mark + params_bytes(q.take(i as int)),
            decreases n - i,
        {
            let (key, value) = &request.query[i];
            let ghost before = raw_request@;
            if i > 0 {
                raw_request.push(38);
            }
            push_str(&mut raw_request, key.as_str());
            match value {
                Some(v) => {
                    raw_request.push(61);
                    push_str(&mut raw_request, v.as_str());
                },
                None => {},
            }
            proof {
                let t = q.take(i + 1);
                assert(t.drop_last() =~= q.take(i as int));
                assert(t.last() == q[i as int]);
                assert(q[i as int] == crate::http::request::param_view(request.query@[i as int]));
                if i == 0 {
                    assert(t =~= seq![q[0]]);
                    assert(raw_request@ =~= after_mark + params_bytes(t));
                } else {
                    assert(raw_request@ =~= after_mark + params_bytes(t));
                }
            }
            i += 1;
        }
        assert(q.take(n as int) =~= q);
        raw_request.push(32);
    } else {
        raw_request.push(32);
    }
    assert(raw_request@ =~= line_start + query_part(q));
    let version = match request.version {
        Version::Http10 => "HTTP/1.0",
        Version::Http11 => "HTTP/1.1",
    };
    assert(version@ =~= version_text(request.version));
    push_str(&mut raw_request, version);
    push_bytes(&mut raw_request, &[13u8, 10u8]);
    push_field_lines(&mut raw_request, &request.headers);
    push_bytes(&mut raw_request, &[13u8, 10u8, 13u8, 10u8]);
    push_str(&mut raw_request, request.body.as_str());
    assert(raw_request@ =~= request_bytes(request@));
    raw_request
}


broadcast use vstd::utf8::group_utf8_lib;

/// A query parameter that reads back as itself: its name holds no `&`, `=`,
/// space or `\r`, its value no `&`, space or `\r`.
pub open spec fn wire_safe_param(p: QueryParam) -> bool {
    &&& no_char(p.0, '&')
    &&& no_char(p.0, '=')
    &&& no_char(p.0, ' ')
    &&& no_char(p.0, '\r')
    &&& match p.1 {
        Some(v) => no_char(v, '&') && no_char(v, ' ') && no_char(v, '\r'),
        None => true,
    }
}

/// A request whose bytes read back as itself (body aside): its path holds no
/// `?`, space or `\r`, every query parameter reads back as itself, and it
/// has at least one header field, all of which read back as themselves.
pub open spec fn wire_safe_request(r: RequestView) -> bool {
    &&& no_char(r.path, '?')
    &&& no_char(r.path, ' ')
    &&& no_char(r.path, '\r')
    &&& forall|i: int| 0 <= i < r.query.len() ==> wire_safe_param(#[trigger] r.query[i])
    &&& r.headers.len() > 0
    &&& wire_safe_fields(r.headers)
}

proof fn lemma_param(p: QueryParam)
    requires
        wire_safe_param(p),
    ensures
        no_byte(param_bytes(p), SP),
        no_byte(param_bytes(p), CR),
        no_byte(param_bytes(p), AMP),
        valid_utf8(param_bytes(p)),
        query_pair(param_bytes(p)) == p,
{
    let k = encode_utf8(p.0);
    lemma_encode_no_byte(p.0, ' ');
    lemma_encode_no_byte(p.0, '\r');
    lemma_encode_no_byte(p.0, '&');
    lemma_encode_no_byte(p.0, '=');
    let b = param_bytes(p);
    match p.1 {
        Some(v) => {
            let vb = encode_utf8(v);
            lemma_encode_no_byte(v, ' ');
            lemma_encode_no_byte(v, '\r');
            lemma_encode_no_byte(v, '&');
            assert(b =~= k + seq![EQ] + vb);
            lemma_ascii_valid(seq![EQ]);
            valid_utf8_concat(k, seq![EQ]);
            valid_utf8_concat(k + seq![EQ], vb);
            assert forall|i: int| 0 <= i < b.len() implies #[trigger] b[i] != SP && b[i] != CR
                && b[i] != AMP by {
                if i < k.len() {
                    assert(b[i] == k[i]);
                } else if i > k.len() {
                    assert(b[i] == vb[i - k.len() - 1]);
                }
            }
            lemma_scan_to_at(b, 0, EQ, k.len() as int);
            assert(b.subrange(0, k.len() as int) =~= k);
            assert(b.subrange(k.len() as int + 1, b.len() as int) =~= vb);
        },
        None => {
            assert(b =~= k);
            lemma_scan_to_at(b, 0, EQ, k.len() as int);
        },
    }
}

proof fn lemma_params(q: Seq<QueryParam>)
    requires
        q.len() > 0,
        forall|i: int| 0 <= i < q.len() ==> wire_safe_param(#[trigger] q[i]),
    ensures
        no_byte(params_bytes(q), SP),
        no_byte(params_bytes(q), CR),
        valid_utf8(params_bytes(q)),
        query_params(params_bytes(q)) == q,
    decreases q.len(),
{
    let b = params_bytes(q);
    let last = q.last();
    assert(wire_safe_param(q[q.len() - 1]));
    lemma_param(last);
    let lb = param_bytes(last);
    if q.len() == 1 {
        assert(q[0] == last);
        lemma_split_single(lb, AMP);
        let pieces = seq![lb];
        assert(pieces_params(pieces) =~= q);
    } else {
        let d = q.drop_last();
        assert forall|i: int| 0 <= i < d.len() implies wire_safe_param(#[trigger] d[i]) by {
            assert(d[i] == q[i]);
        }
        lemma_params(d);
        let db = params_bytes(d);
        assert(b == db + seq![AMP] + lb);
        lemma_ascii_valid(seq![AMP]);
        valid_utf8_concat(db, seq![AMP]);
        valid_utf8_concat(db + seq![AMP], lb);
        assert forall|i: int| 0 <= i < b.len() implies #[trigger] b[i] != SP && b[i] != CR by {
            if i < db.len() {
                assert(b[i] == db[i]);
            } else if i > db.len() {
                assert(b[i] == lb[i - db.len() - 1]);
            }
        }
        lemma_split_append(db, AMP, lb);
        assert(pieces_params(split_on(b, AMP)) =~= pieces_params(split_on(db, AMP)).push(
            query_pair(lb),
        ));
        assert(pieces_params(split_on(b, AMP)) =~= q);
    }
}

proof fn lemma_method_part(m: Method, rest: Seq<u8>)
    ensures
        method_stage(encode_utf8(method_text(m)) + seq![SP] + rest) == Ok::<
            (Method, int),
            crate::http::request::ParseError,
        >((m, encode_utf8(method_text(m)).len() as int + 1)),
{
    let mt = encode_utf8(method_text(m));
    let b = mt + seq![SP] + rest;
    lemma_method_text(m);
    lemma_encode_no_byte(method_text(m), ' ');
    assert(b[mt.len() as int] == SP);
    assert forall|j: int| 0 <= j < mt.len() implies b[j] != SP by {
        assert(b[j] == mt[j]);
    }
    lemma_scan_to_at(b, 0, SP, mt.len() as int);
    assert(b.subrange(0, mt.len() as int) =~= mt);
}

proof fn lemma_path_part(pre: Seq<u8>, path: Seq<char>, x: u8, rest: Seq<u8>)
    requires
        no_char(path, '?'),
        no_char(path, ' '),
        x == QMARK || x == SP,
    ensures
        path_stage(pre + encode_utf8(path) + seq![x] + rest, pre.len() as int) == Ok::<
            (Seq<char>, bool, int),
            crate::http::request::ParseError,
        >((path, x == QMARK, pre.len() as int + encode_utf8(path).len() + 1)),
{
    let pb = encode_utf8(path);
    let b = pre + pb + seq![x] + rest;
    lemma_encode_no_byte(path, '?');
    lemma_encode_no_byte(path, ' ');
    let e = pre.len() as int + pb.len();
    assert(b[e] == x);
    assert forall|j: int| pre.len() <= j < e implies b[j] != QMARK && b[j] != SP by {
        assert(b[j] == pb[j - pre.len()]);
    }
    lemma_scan_to2_at(b, pre.len() as int, QMARK, SP, e);
    assert(b.subrange(pre.len() as int, e) =~= pb);
}

proof fn lemma_query_part(pre: Seq<u8>, q: Seq<QueryParam>, rest: Seq<u8>)
    requires
        q.len() > 0,
        forall|i: int| 0 <= i < q.len() ==> wire_safe_param(#[trigger] q[i]),
    ensures
        query_stage(pre + params_bytes(q) + seq![SP] + rest, pre.len() as int) == Ok::<
            (Seq<QueryParam>, int),
            crate::http::request::ParseError,
        >((q, pre.len() as int + params_bytes(q).len() + 1)),
{
    lemma_params(q);
    let pr = params_bytes(q);
    let b = pre + pr + seq![SP] + rest;
    let e = pre.len() as int + pr.len();
    assert(b[e] == SP);
    assert forall|j: int| pre.len() <= j < e implies b[j] != SP by {
        assert(b[j] == pr[j - pre.len()]);
    }
    lemma_scan_to_at(b, pre.len() as int, SP, e);
    assert(b.subrange(pre.len() as int, e) =~= pr);
}

proof fn lemma_version_part(pre: Seq<u8>, v: Version, rest: Seq<u8>)
    ensures
        version_stage(pre + encode_utf8(version_text(v)) + seq![CR] + rest, pre.len() as int)
            == Some(
            Ok::<(Version, int), crate::http::request::ParseError>(
                (v, pre.len() as int + encode_utf8(version_text(v)).len() + 2),
            ),
        ),
{
    let vt = encode_utf8(version_text(v));
    let b = pre + vt + seq![CR] + rest;
    lemma_version_text(v);
    lemma_encode_no_byte(version_text(v), '\r');
    let e = pre.len() as int + vt.len();
    assert(b[e] == CR);
    assert forall|j: int| pre.len() <= j < e implies b[j] != CR by {
        assert(b[j] == vt[j - pre.len()]);
    }
    lemma_scan_to_at(b, pre.len() as int, CR, e);
    assert(b.subrange(pre.len() as int, e) =~= vt);
}

/// The request line: method, space, path, query part, version, `\r\n`.
pub open spec fn request_line_bytes(r: RequestView) -> Seq<u8> {
    encode_utf8(method_text(r.method)) + seq![SP] + encode_utf8(r.path) + query_part(r.query)
        + encode_utf8(version_text(r.version)) + seq![CR, LF]
}

proof fn lemma_request_line_no_cr(r: RequestView)
    requires
        wire_safe_request(r),
    ensures
        request_line_bytes(r).len() >= 2,
        request_line_bytes(r)[request_line_bytes(r).len() - 2] == CR,
        request_line_bytes(r)[request_line_bytes(r).len() - 1] == LF,
        forall|j: int| 0 <= j < request_line_bytes(r).len() - 2 ==> request_line_bytes(r)[j] != CR,
{
    let mt = encode_utf8(method_text(r.method));
    let pb = encode_utf8(r.path);
    let qp = query_part(r.query);
    let vt = encode_utf8(version_text(r.version));
    let a = request_line_bytes(r);
    let body = mt + seq![SP] + pb + qp + vt;
    assert(a =~= body + seq![CR, LF]);
    lemma_method_text(r.method);
    lemma_version_text(r.version);
    lemma_encode_no_byte(method_text(r.method), '\r');
    lemma_encode_no_byte(version_text(r.version), '\r');
    lemma_encode_no_byte(r.path, '\r');
    if r.query.len() > 0 {
        lemma_params(r.query);
    }
    assert forall|j: int| 0 <= j < body.len() implies body[j] != CR by {
        let c1 = mt.len() + 1;
        if j < mt.len() {
            assert(body[j] == mt[j]);
        } else if j == mt.len() {
        } else if j < c1 + pb.len() {
            assert(body[j] == pb[j - c1]);
        } else if j < c1 + pb.len() + qp.len() {
            let k = j - c1 - pb.len();
            assert(body[j] == qp[k]);
            if r.query.len() > 0 && 0 < k < qp.len() - 1 {
                assert(qp[k] == params_bytes(r.query)[k - 1]);
            }
        } else {
            assert(body[j] == vt[j - c1 - pb.len() - qp.len()]);
        }
    }
    assert forall|j: int| 0 <= j < a.len() - 2 implies a[j] != CR by {
        assert(a[j] == body[j]);
    }
}

proof fn lemma_read_back_method(r: RequestView)
    ensures
        method_stage(request_bytes(r)) == Ok::<(Method, int), crate::http::request::ParseError>(
            (r.method, encode_utf8(method_text(r.method)).len() as int + 1),
        ),
{
    let mt = encode_utf8(method_text(r.method));
    let after_method = encode_utf8(r.path) + query_part(r.query) + encode_utf8(version_text(r.version))
        + seq![CR, LF] + field_lines(r.headers) + seq![CR, LF, CR, LF] + encode_utf8(r.body);
    assert(request_bytes(r) =~= mt + seq![SP] + after_method);
    lemma_method_part(r.method, after_method);
}


proof fn lemma_read_back_path(r: RequestView)
    requires
        wire_safe_request(r),
    ensures
        path_stage(request_bytes(r), encode_utf8(method_text(r.method)).len() as int + 1) == Ok::<
            (Seq<char>, bool, int),
            crate::http::request::ParseError,
        >(
            (
                r.path,
                r.query.len() > 0,
                encode_utf8(method_text(r.method)).len() as int + 1 + encode_utf8(r.path).len() + 1,
            ),
        ),
{
    let mt = encode_utf8(method_text(r.method));
    let qp = query_part(r.query);
    let pre1 = mt + seq![SP];
    let after_path = qp.drop_first() + encode_utf8(version_text(r.version)) + seq![CR, LF]
        + field_lines(r.headers) + seq![CR, LF, CR, LF] + encode_utf8(r.body);
    assert(qp[0] == QMARK || qp[0] == SP);
    assert(qp =~= seq![qp[0]] + qp.drop_first());
    assert(request_bytes(r) =~= pre1 + encode_utf8(r.path) + seq![qp[0]] + after_path);
    lemma_path_part(pre1, r.path, qp[0], after_path);
}

proof fn lemma_read_back_query(r: RequestView)
    requires
        wire_safe_request(r),
        r.query.len() > 0,
    ensures
        query_stage(
            request_bytes(r),
            encode_utf8(method_text(r.method)).len() as int + 1 + encode_utf8(r.path).len() + 1,
        ) == Ok::<(Seq<QueryParam>, int), crate::http::request::ParseError>(
            (
                r.query,
                encode_utf8(method_text(r.method)).len() as int + 1 + encode_utf8(r.path).len()
                    + query_part(r.query).len(),
            ),
        ),
{
    let mt = encode_utf8(method_text(r.method));
    let pr = params_bytes(r.query);
    let pre2 = mt + seq![SP] + encode_utf8(r.path) + seq![QMARK];
    let after_query = encode_utf8(version_text(r.version)) + seq![CR, LF] + field_lines(r.headers)
        + seq![CR, LF, CR, LF] + encode_utf8(r.body);
    assert(query_part(r.query) =~= seq![QMARK] + pr + seq![SP]);
    assert(request_bytes(r) =~= pre2 + pr + seq![SP] + after_query);
    lemma_query_part(pre2, r.query, after_query);
}

proof fn lemma_read_back_version(r: RequestView)
    ensures
        version_stage(
            request_bytes(r),
            encode_utf8(method_text(r.method)).len() as int + 1 + encode_utf8(r.path).len()
                + query_part(r.query).len(),
        ) == Some(
            Ok::<(Version, int), crate::http::request::ParseError>(
                (r.version, request_line_bytes(r).len() as int),
            ),
        ),
{
    let pre3 = encode_utf8(method_text(r.method)) + seq![SP] + encode_utf8(r.path) + query_part(
        r.query,
    );
    let after_version = seq![LF] + field_lines(r.headers) + seq![CR, LF, CR, LF] + encode_utf8(
        r.body,
    );
    assert(request_bytes(r) =~= pre3 + encode_utf8(version_text(r.version)) + seq![CR]
        + after_version);
    lemma_version_part(pre3, r.version, after_version);
}

proof fn lemma_read_back_headers(r: RequestView)
    requires
        wire_safe_request(r),
    ensures
        crate::http::headers::headers_stage(request_bytes(r), request_line_bytes(r).len() as int)
            == Some(
            Ok::<(crate::http::headers::Fields, int), crate::http::request::ParseError>(
                (
                    r.headers,
                    (request_line_bytes(r).len() + field_lines(r.headers).len() + 2) as int,
                ),
            ),
        ),
{
    let a = request_line_bytes(r);
    let t = seq![CR, LF, CR, LF] + encode_utf8(r.body);
    assert(request_bytes(r) =~= a + field_lines(r.headers) + t);
    lemma_request_line_no_cr(r);
    lemma_head_block(a, r.headers, t);
}

/// What `request_to_bytes` sends reads back as the same request, body
/// aside, for every request whose parts hold none of the delimiters that
/// the request line and the header lines use: `Request::header_parser`
/// gives it back with an empty body, and so does `Request::parser` when its
/// fields announce no body. (The body itself does not read back: the bytes
/// sent put `\r\n` before it.)
pub proof fn lemma_request_bytes_read_back(r: RequestView)
    requires
        wire_safe_request(r),
    ensures
        request_outcome(request_bytes(r), false) == Some(
            Ok::<RequestView, crate::http::request::ParseError>(RequestView { body: Seq::empty(), ..r }),
        ),
        content_length(r.headers) == Some(0nat) ==> request_outcome(request_bytes(r), true) == Some(
            Ok::<RequestView, crate::http::request::ParseError>(RequestView { body: Seq::empty(), ..r }),
        ),
{
    lemma_read_back_method(r);
    lemma_read_back_path(r);
    if r.query.len() > 0 {
        lemma_read_back_query(r);
    } else {
        assert(query_part(r.query).len() == 1);
        assert(r.query =~= Seq::<QueryParam>::empty());
    }
    lemma_read_back_version(r);
    lemma_read_back_headers(r);
    assert(request_line_bytes(r).len() == encode_utf8(method_text(r.method)).len() + 1
        + encode_utf8(r.path).len() + query_part(r.query).len() + encode_utf8(
        version_text(r.version),
    ).len() + 2);
}

} // verus!
