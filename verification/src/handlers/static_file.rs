//! Static files: where they are read from, the fields and the status line
//! of their responses, and the response a file read turns into.

use vstd::prelude::*;
use vstd::string::StringExecFns;
use vstd::utf8::*;
use vstd::slice::slice_subrange;

use crate::http::headers::{
    field_lines, headers_stage, insert_field, lemma_head_block, wire_safe_fields, Fields, HeaderMap,
};
use crate::http::request::{lemma_version_text, version_named, version_text, ParseError, Version};
use crate::http::response::{
    code_text, reason_stage, reason_text, response_outcome, response_version_stage, status_named,
    status_number, status_stage, Response, ResponseView, StatusCode,
};
use crate::text::{
    all_digits, blank_line_at, decimal_string, digit_value, decimal_text, digits_value, is_digit,
    lemma_ascii_bounded_piece, lemma_decimal_text, lemma_encode_concat, lemma_encode_no_byte,
    lemma_parse_decimal_text, lemma_scan_to, lemma_scan_to_at, no_byte, no_char, parse_unsigned,
    scan_exec, split_from, split_on, token_is, CR, LF, SP,
};

verus! {

broadcast use vstd::utf8::group_utf8_lib;

/// Why a static response could not be built.
#[derive(Debug, Clone, Copy, PartialEq, Eq, Structural)]
pub enum StaticFileError {
    BodyResponseError,
    HeaderResponseError,
    StatusLineResponseError,
}

pub const DOT: u8 = 0x2e;

/// Where the file for `path` is read from: the path under `public`.
pub open spec fn public_path_text(path: Seq<char>) -> Seq<char> {
    seq!['p', 'u', 'b', 'l', 'i', 'c'] + path
}

/// The file name the server reads for a request path, as
/// `format!("public{}", path)` writes it.
pub fn public_path(path: &str) -> (r: String)
    ensures
        r@ == public_path_text(path@),
{
    let mut p = String::new();
    p.append("public");
    p.append(path);
    proof {
        reveal_strlit("public");
    }
    assert(p@ =~= public_path_text(path@));
    p
}

/// The pieces of a path between its `.`s, as `path.split(".")` gives them
/// (on the path's UTF-8 bytes).
pub open spec fn dot_pieces(path: Seq<char>) -> Seq<Seq<u8>> {
    split_on(encode_utf8(path), DOT)
}

/// The text between the first and the second `.` of a path.
pub open spec fn extension_of(path: Seq<char>) -> Seq<char> {
    decode_utf8(dot_pieces(path)[1])
}

/// The media type for a file extension.
pub open spec fn mime_for(ext: Seq<char>) -> Option<Seq<char>> {
    if ext == seq!['h', 't', 'm', 'l'] {
        Some(seq!['t', 'e', 'x', 't', '/', 'h', 't', 'm', 'l'])
    } else if ext == seq!['c', 's', 's'] {
        Some(seq!['t', 'e', 'x', 't', '/', 'c', 's', 's'])
    } else if ext == seq!['j', 's'] {
        Some(
            seq![
                'a', 'p', 'p', 'l', 'i', 'c', 'a', 't', 'i', 'o', 'n', '/', 'j', 'a', 'v', 'a',
                's', 'c', 'r', 'i', 'p', 't',
            ],
        )
    } else if ext == seq!['j', 's', 'o', 'n'] {
        Some(
            seq!['a', 'p', 'p', 'l', 'i', 'c', 'a', 't', 'i', 'o', 'n', '/', 'j', 's', 'o', 'n'],
        )
    } else if ext == seq!['p', 'n', 'g'] {
        Some(seq!['i', 'm', 'a', 'g', 'e', '/', 'p', 'n', 'g'])
    } else if ext == seq!['j', 'p', 'g'] || ext == seq!['j', 'p', 'e', 'g'] {
        Some(seq!['i', 'm', 'a', 'g', 'e', '/', 'j', 'p', 'e', 'g'])
    } else if ext == seq!['s', 'v', 'g'] {
        Some(seq!['i', 'm', 'a', 'g', 'e', '/', 's', 'v', 'g', '+', 'x', 'm', 'l'])
    } else if ext == seq!['i', 'c', 'o'] {
        Some(seq!['i', 'm', 'a', 'g', 'e', '/', 'x', '-', 'i', 'c', 'o', 'n'])
    } else if ext == seq!['t', 'x', 't'] {
        Some(seq!['t', 'e', 'x', 't', '/', 'p', 'l', 'a', 'i', 'n'])
    } else {
        None
    }
}

pub open spec fn content_type_name() -> Seq<char> {
    seq!['C', 'o', 'n', 't', 'e', 'n', 't', '-', 'T', 'y', 'p', 'e']
}

pub open spec fn connection_name() -> Seq<char> {
    seq!['C', 'o', 'n', 'n', 'e', 'c', 't', 'i', 'o', 'n']
}

pub open spec fn server_name() -> Seq<char> {
    seq!['S', 'e', 'r', 'v', 'e', 'r']
}

/// The length announced for a file read: the number of bytes read, or 0
/// when the read failed.
pub open spec fn length_text(body: Result<Vec<u8>, StaticFileError>) -> Seq<char> {
    match body {
        Ok(b) => decimal_text(b@.len()),
        Err(_) => seq!['0'],
    }
}

/// The fields of a static response, in the order they are set.
pub open spec fn static_fields(mime: Seq<char>, length: Seq<char>) -> Fields {
    seq![
        (content_type_name(), mime),
        (crate::http::request::content_length_name(), length),
        (connection_name(), seq!['c', 'l', 'o', 's', 'e']),
        (server_name(), seq!['R', 'u', 's', 't', 'i', 'n', 'x']),
    ]
}

/// The media type of the text in `piece`.
fn mime_of(piece: &[u8]) -> (r: Option<&'static str>)
    requires
        valid_utf8(piece@),
    ensures
        match mime_for(decode_utf8(piece@)) {
            Some(m) => r matches Some(s) && s@ == m,
            None => r is None,
        },
{
    proof {
        reveal_strlit("html");
        reveal_strlit("css");
        reveal_strlit("js");
        reveal_strlit("json");
        reveal_strlit("png");
        reveal_strlit("jpg");
        reveal_strlit("jpeg");
        reveal_strlit("svg");
        reveal_strlit("ico");
        reveal_strlit("txt");
        reveal_strlit("text/html");
        reveal_strlit("text/css");
        reveal_strlit("application/javascript");
        reveal_strlit("application/json");
        reveal_strlit("image/png");
        reveal_strlit("image/jpeg");
        reveal_strlit("image/svg+xml");
        reveal_strlit("image/x-icon");
        reveal_strlit("text/plain");
        assert("html"@ =~= seq!['h', 't', 'm', 'l']);
        assert("css"@ =~= seq!['c', 's', 's']);
        assert("js"@ =~= seq!['j', 's']);
        assert("json"@ =~= seq!['j', 's', 'o', 'n']);
        assert("png"@ =~= seq!['p', 'n', 'g']);
        assert("jpg"@ =~= seq!['j', 'p', 'g']);
        assert("jpeg"@ =~= seq!['j', 'p', 'e', 'g']);
        assert("svg"@ =~= seq!['s', 'v', 'g']);
        assert("ico"@ =~= seq!['i', 'c', 'o']);
        assert("txt"@ =~= seq!['t', 'x', 't']);
    }
    let m = if token_is(piece, "html") {
        "text/html"
    } else if token_is(piece, "css") {
        "text/css"
    } else if token_is(piece, "js") {
        "application/javascript"
    } else if token_is(piece, "json") {
        "application/json"
    } else if token_is(piece, "png") {
        "image/png"
    } else if token_is(piece, "jpg") || token_is(piece, "jpeg") {
        "image/jpeg"
    } else if token_is(piece, "svg") {
        "image/svg+xml"
    } else if token_is(piece, "ico") {
        "image/x-icon"
    } else if token_is(piece, "txt") {
        "text/plain"
    } else {
        return None;
    };
    assert(m@ =~= mime_for(decode_utf8(piece@)).unwrap());
    Some(m)
}

/// The fields of the response for the file at `path`: its media type (from
/// the text between the path's first and second `.`), the length of what was
/// read (0 when the read failed), `Connection: close` and `Server: Rustinx`.
/// An unknown extension is a `HeaderResponseError`.
pub fn headers(path: &str, body: &Result<Vec<u8>, StaticFileError>) -> (r: Result<HeaderMap, StaticFileError>)
    requires
        dot_pieces(path@).len() >= 2,
    ensures
        match mime_for(extension_of(path@)) {
            Some(m) => r matches Ok(h) && h@ == static_fields(m, length_text(*body)),
            None => r == Err::<HeaderMap, StaticFileError>(StaticFileError::HeaderResponseError),
        },
{
    let b = path.as_bytes();
    let ghost bb = b@;
    let i = scan_exec(b, 0, 46);
    proof {
        lemma_scan_to(bb, 0, DOT);
        assert(bb == encode_utf8(path@));
        if i >= b.len() {
            assert(split_on(bb, DOT) =~= seq![bb.subrange(0, bb.len() as int)]);
        }
    }
    let j = scan_exec(b, i + 1, 46);
    proof {
        lemma_scan_to(bb, i + 1, DOT);
        assert(split_on(bb, DOT) =~= seq![bb.subrange(0, i as int)] + split_from(bb, i + 1, DOT));
        assert(split_from(bb, i + 1, DOT)[0] == bb.subrange(i + 1, j as int));
        lemma_ascii_bounded_piece(bb, i + 1, j as int);
    }
    let piece = slice_subrange(b, i + 1, j);
    let mime = match mime_of(piece) {
        Some(m) => m,
        None => return Err(StaticFileError::HeaderResponseError),
    };
    let length = match body {
        Ok(bytes) => decimal_string(bytes.len()),
        Err(_) => {
            proof {
                reveal_strlit("0");
                assert("0"@ =~= seq!['0']);
            }
            "0".to_owned()
        },
    };
    proof {
        reveal_strlit("Content-Type");
        reveal_strlit("Content-Length");
        reveal_strlit("Connection");
        reveal_strlit("close");
        reveal_strlit("Server");
        reveal_strlit("Rustinx");
        assert("Content-Type"@ =~= content_type_name());
        assert("Content-Length"@ =~= crate::http::request::content_length_name());
        assert("Connection"@ =~= connection_name());
        assert("Server"@ =~= server_name());
        assert("close"@ =~= seq!['c', 'l', 'o', 's', 'e']);
        assert("Rustinx"@ =~= seq!['R', 'u', 's', 't', 'i', 'n', 'x']);
    }
    let mut h = HeaderMap::new();
    h.insert("Content-Type".to_owned(), mime.to_owned());
    let ghost h1 = h@;
    h.insert("Content-Length".to_owned(), length);
    let ghost h2 = h@;
    h.insert("Connection".to_owned(), "close".to_owned());
    let ghost h3 = h@;
    h.insert("Server".to_owned(), "Rustinx".to_owned());
    proof {
        let m = mime@;
        let l = length_text(*body);
        let e0 = Seq::<(Seq<char>, Seq<char>)>::empty();
        assert(!crate::http::headers::has_name(e0, content_type_name()));
        assert(h1 =~= seq![(content_type_name(), m)]);
        assert(!crate::http::headers::has_name(h1, crate::http::request::content_length_name())) by {
            assert forall|k: int| 0 <= k < h1.len() implies (#[trigger] h1[k]).0
                != crate::http::request::content_length_name() by {
                assert(h1[k].0.len() != crate::http::request::content_length_name().len());
            }
        }
        assert(h2 =~= seq![(content_type_name(), m), (crate::http::request::content_length_name(), l)]);
        assert(!crate::http::headers::has_name(h2, connection_name())) by {
            assert forall|k: int| 0 <= k < h2.len() implies (#[trigger] h2[k]).0
                != connection_name() by {
                assert(h2[k].0.len() != connection_name().len());
            }
        }
        assert(h3 =~= static_fields(m, l).take(3));
        assert(!crate::http::headers::has_name(h3, server_name())) by {
            assert forall|k: int| 0 <= k < h3.len() implies (#[trigger] h3[k]).0
                != server_name() by {
                assert(h3[k].0.len() != server_name().len());
            }
        }
        assert(h@ =~= static_fields(m, l));
    }
    Ok(h)
}

/// The status line of a response: version, code and reason phrase separated
/// by spaces and ended by `\r\n`.
pub open spec fn status_line_text(v: Version, s: StatusCode) -> Seq<char> {
    version_text(v) + seq![' '] + decimal_text(status_number(s) as nat) + seq![' '] + reason_text(s) + seq!['\r', '\n']
}

pub fn status_line(version: &Version, status: StatusCode) -> (r: String)
    ensures
        r@ == status_line_text(*version, status),
{
    let mut line = String::new();
    line.append(version.as_str());
    line.append(" ");
    let code = decimal_string(status.code() as usize);
    line.append(code.as_str());
    line.append(" ");
    line.append(status.reason());
    line.append("\r\n");
    proof {
        reveal_strlit(" ");
        reveal_strlit("\r\n");
    }
    assert(line@ =~= status_line_text(*version, status));
    line
}

/// The status a file read answers with: `200` when it succeeded, `404`
/// otherwise.
pub open spec fn read_status(body: Result<Vec<u8>, StaticFileError>) -> StatusCode {
    match body {
        Ok(_) => StatusCode::OK,
        Err(_) => StatusCode::NotFound,
    }
}

/// The response to a static-file request whose file read gave `body`: the
/// request's version, the read's status (held as its bare number), its
/// reason phrase, the fields of `headers` and the bytes read (none when the
/// read failed). A `HeaderResponseError` when the extension is unknown.
pub fn static_response(version: Version, path: &str, body: Result<Vec<u8>, StaticFileError>) -> (r: Result<Response, StaticFileError>)
    requires
        dot_pieces(path@).len() >= 2,
    ensures
        match mime_for(extension_of(path@)) {
            Some(m) => r matches Ok(resp) && resp@ == (ResponseView {
                version,
                status_code: StatusCode::Other(status_number(read_status(body))),
                reason: reason_text(read_status(body)),
                headers: static_fields(m, length_text(body)),
                body: match body {
                    Ok(b) => b@,
                    Err(_) => Seq::empty(),
                },
            }),
            None => r == Err::<Response, StaticFileError>(StaticFileError::HeaderResponseError),
        },
{
    let headers = match headers(path, &body) {
        Ok(h) => h,
        Err(e) => return Err(e),
    };
    let status = match &body {
        Ok(_) => StatusCode::OK,
        Err(_) => StatusCode::NotFound,
    };
    let reason = status.reason().to_owned();
    let bytes = match body {
        Ok(b) => b,
        Err(_) => Vec::new(),
    };
    Ok(Response { version, status_code: StatusCode::Other(status.code()), reason, headers, body: bytes })
}


proof fn lemma_reason_text(s: StatusCode)
    ensures
        no_char(reason_text(s), '\r'),
{
}

proof fn lemma_code_text_value(x: StatusCode)
    requires
        !(x is Other),
    ensures
        digits_value(code_text(x)) == status_number(x),
        status_named(code_text(x)) == Some(x),
{
    let t = code_text(x);
    let t1 = t.drop_last();
    let t2 = t1.drop_last();
    let t3 = t2.drop_last();
    assert(t3 =~= Seq::<char>::empty());
    assert(digits_value(t3) == 0);
    assert(digits_value(t2) == digit_value(t2.last()));
    assert(digits_value(t1) == digits_value(t2) * 10 + digit_value(t1.last()));
    assert(digits_value(t) == digits_value(t1) * 10 + digit_value(t.last()));
}

/// The status text of the number `n` names a status with that number: a
/// named status when `n` is the number of one, `Other(n)` otherwise.
proof fn lemma_status_of_code(n: u16)
    ensures
        match status_named(decimal_text(n as nat)) {
            Some(x) => status_number(x) == n && !(x is Other),
            None => parse_unsigned(decimal_text(n as nat), 65535) == Some(n as nat),
        },
        status_named(decimal_text(n as nat)) is None ==> (forall|x: StatusCode|
            !(x is Other) ==> status_number(x) != n),
{
    lemma_decimal_text(n as nat);
    lemma_parse_decimal_text(n as nat, 65535);
    let d = decimal_text(n as nat);
    match status_named(d) {
        Some(x) => {
            lemma_code_text_value(x);
            assert(d == code_text(x));
        },
        None => {
            assert forall|x: StatusCode| !(x is Other) implies status_number(x) != n by {
                lemma_code_text_value(x);
                if status_number(x) == n {
                    assert(d == decimal_text(status_number(x) as nat));
                    reveal_with_fuel(decimal_text, 4);
                    assert(decimal_text(status_number(x) as nat) =~= code_text(x));
                }
            }
        },
    }
}

proof fn lemma_status_line_version(v: Version, rest: Seq<u8>)
    ensures
        response_version_stage(encode_utf8(version_text(v)) + seq![SP] + rest) == Ok::<
            (Version, int),
            ParseError,
        >((v, encode_utf8(version_text(v)).len() as int + 1)),
{
    let vt = encode_utf8(version_text(v));
    let b = vt + seq![SP] + rest;
    lemma_version_text(v);
    lemma_encode_no_byte(version_text(v), ' ');
    assert(b[vt.len() as int] == SP);
    assert forall|j: int| 0 <= j < vt.len() implies b[j] != SP by {
        assert(b[j] == vt[j]);
    }
    lemma_scan_to_at(b, 0, SP, vt.len() as int);
    assert(b.subrange(0, vt.len() as int) =~= vt);
}

/// The status number and what it reads back as.
pub open spec fn status_read_back(n: u16) -> StatusCode {
    match status_named(decimal_text(n as nat)) {
        Some(x) => x,
        None => StatusCode::Other(n),
    }
}

proof fn lemma_status_line_code(pre: Seq<u8>, n: u16, rest: Seq<u8>)
    ensures
        status_stage(pre + encode_utf8(decimal_text(n as nat)) + seq![SP] + rest, pre.len() as int)
            == Some(
            Ok::<(StatusCode, int), ParseError>(
                (status_read_back(n), pre.len() as int + encode_utf8(decimal_text(n as nat)).len() + 1),
            ),
        ),
{
    let d = decimal_text(n as nat);
    let db = encode_utf8(d);
    let b = pre + db + seq![SP] + rest;
    lemma_decimal_text(n as nat);
    assert(no_char(d, ' ')) by {
        assert forall|i: int| 0 <= i < d.len() implies #[trigger] d[i] != ' ' by {
            assert(is_digit(d[i]));
        }
    }
    lemma_encode_no_byte(d, ' ');
    let e = pre.len() as int + db.len();
    assert(b[e] == SP);
    assert forall|j: int| pre.len() <= j < e implies b[j] != SP by {
        assert(b[j] == db[j - pre.len()]);
    }
    lemma_scan_to_at(b, pre.len() as int, SP, e);
    assert(b.subrange(pre.len() as int, e) =~= db);
    lemma_status_of_code(n);
}

proof fn lemma_status_line_reason(pre: Seq<u8>, s: StatusCode, es: Fields, rest: Seq<u8>)
    requires
        wire_safe_fields(es),
        es.len() > 0,
    ensures
        reason_stage(
            pre + encode_utf8(reason_text(s)) + seq![CR, LF] + field_lines(es) + seq![CR, LF] + rest,
            pre.len() as int,
        ) == Some(
            Ok::<(Seq<char>, int), ParseError>(
                (reason_text(s), pre.len() as int + encode_utf8(reason_text(s)).len() + 2),
            ),
        ),
{
    let rb = encode_utf8(reason_text(s));
    let f = field_lines(es);
    let b = pre + rb + seq![CR, LF] + f + seq![CR, LF] + rest;
    lemma_reason_text(s);
    lemma_encode_no_byte(reason_text(s), '\r');
    let e = pre.len() as int + rb.len();
    assert(b[e] == CR);
    assert forall|j: int| pre.len() <= j < e implies b[j] != CR by {
        assert(b[j] == rb[j - pre.len()]);
    }
    lemma_scan_to_at(b, pre.len() as int, CR, e);
    assert(b.subrange(pre.len() as int, e) =~= rb);
    lemma_head_block(seq![CR, LF], es, seq![CR, LF] + rest);
    let hb = seq![CR, LF] + f + (seq![CR, LF] + rest);
    assert(crate::text::find_blank_line(hb) == Some((2 + f.len() - 2) as int));
    crate::text::lemma_find_blank_line_from(hb, 0);
    assert(!blank_line_at(hb, 0));
    assert(b.subrange(e, b.len() as int) =~= hb);
    assert(b[e + 2] == hb[2]);
    assert(b[e + 1] == LF);
    assert(b[e + 3] == hb[3]);
    assert(!blank_line_at(b, e));
}

/// The bytes `status_line` writes, in pieces.
proof fn lemma_status_line_bytes(v: Version, s: StatusCode)
    ensures
        encode_utf8(status_line_text(v, s)) == encode_utf8(version_text(v)) + seq![SP] + encode_utf8(
            decimal_text(status_number(s) as nat),
        ) + seq![SP] + encode_utf8(reason_text(s)) + seq![CR, LF],
{
    let n = status_number(s);
    let sp = seq![' '];
    let nl = seq!['\r', '\n'];
    is_ascii_chars_encode_utf8(sp);
    is_ascii_chars_encode_utf8(nl);
    assert(encode_utf8(sp) =~= seq![SP]);
    assert(encode_utf8(nl) =~= seq![CR, LF]);
    lemma_encode_concat(version_text(v), sp);
    lemma_encode_concat(version_text(v) + sp, decimal_text(n as nat));
    lemma_encode_concat(version_text(v) + sp + decimal_text(n as nat), sp);
    lemma_encode_concat(version_text(v) + sp + decimal_text(n as nat) + sp, reason_text(s));
    lemma_encode_concat(version_text(v) + sp + decimal_text(n as nat) + sp + reason_text(s), nl);
}

/// The bytes of a status line and the lengths of its pieces.
pub open spec fn status_line_bytes(v: Version, s: StatusCode) -> Seq<u8> {
    encode_utf8(version_text(v)) + seq![SP] + encode_utf8(decimal_text(status_number(s) as nat))
        + seq![SP] + encode_utf8(reason_text(s)) + seq![CR, LF]
}

proof fn lemma_line_version(v: Version, s: StatusCode, tail: Seq<u8>)
    ensures
        response_version_stage(status_line_bytes(v, s) + tail) == Ok::<(Version, int), ParseError>(
            (v, encode_utf8(version_text(v)).len() as int + 1),
        ),
{
    let after = encode_utf8(decimal_text(status_number(s) as nat)) + seq![SP] + encode_utf8(
        reason_text(s),
    ) + seq![CR, LF] + tail;
    assert(status_line_bytes(v, s) + tail =~= encode_utf8(version_text(v)) + seq![SP] + after);
    lemma_status_line_version(v, after);
}

proof fn lemma_line_code(v: Version, s: StatusCode, tail: Seq<u8>)
    ensures
        status_stage(status_line_bytes(v, s) + tail, encode_utf8(version_text(v)).len() as int + 1)
            == Some(
            Ok::<(StatusCode, int), ParseError>(
                (
                    status_read_back(status_number(s)),
                    encode_utf8(version_text(v)).len() as int + 1 + encode_utf8(
                        decimal_text(status_number(s) as nat),
                    ).len() + 1,
                ),
            ),
        ),
{
    let pre = encode_utf8(version_text(v)) + seq![SP];
    let after = encode_utf8(reason_text(s)) + seq![CR, LF] + tail;
    assert(status_line_bytes(v, s) + tail =~= pre + encode_utf8(
        decimal_text(status_number(s) as nat),
    ) + seq![SP] + after);
    lemma_status_line_code(pre, status_number(s), after);
}

proof fn lemma_line_reason(v: Version, s: StatusCode, es: Fields, rest: Seq<u8>)
    requires
        wire_safe_fields(es),
        es.len() > 0,
    ensures
        reason_stage(
            status_line_bytes(v, s) + field_lines(es) + seq![CR, LF] + rest,
            encode_utf8(version_text(v)).len() as int + 1 + encode_utf8(
                decimal_text(status_number(s) as nat),
            ).len() + 1,
        ) == Some(
            Ok::<(Seq<char>, int), ParseError>(
                (reason_text(s), status_line_bytes(v, s).len() as int),
            ),
        ),
{
    let pre = encode_utf8(version_text(v)) + seq![SP] + encode_utf8(
        decimal_text(status_number(s) as nat),
    ) + seq![SP];
    assert(status_line_bytes(v, s) + field_lines(es) + seq![CR, LF] + rest =~= pre + encode_utf8(
        reason_text(s),
    ) + seq![CR, LF] + field_lines(es) + seq![CR, LF] + rest);
    lemma_status_line_reason(pre, s, es, rest);
}

proof fn lemma_line_no_cr(v: Version, s: StatusCode)
    ensures
        forall|j: int|
            0 <= j < status_line_bytes(v, s).len() - 2 ==> status_line_bytes(v, s)[j] != CR,
        status_line_bytes(v, s).len() >= 2,
        status_line_bytes(v, s)[status_line_bytes(v, s).len() - 2] == CR,
        status_line_bytes(v, s)[status_line_bytes(v, s).len() - 1] == LF,
{
    let n = status_number(s);
    let vt = encode_utf8(version_text(v));
    let db = encode_utf8(decimal_text(n as nat));
    let rb = encode_utf8(reason_text(s));
    let line = status_line_bytes(v, s);
    lemma_version_text(v);
    lemma_encode_no_byte(version_text(v), '\r');
    lemma_decimal_text(n as nat);
    let d = decimal_text(n as nat);
    assert(no_char(d, '\r')) by {
        assert forall|i: int| 0 <= i < d.len() implies #[trigger] d[i] != '\r' by {
            assert(is_digit(d[i]));
        }
    }
    lemma_encode_no_byte(d, '\r');
    lemma_reason_text(s);
    lemma_encode_no_byte(reason_text(s), '\r');
    let c1 = vt.len() + 1;
    let c2 = c1 + db.len() + 1;
    assert forall|j: int| 0 <= j < line.len() - 2 implies line[j] != CR by {
        if j < vt.len() {
            assert(line[j] == vt[j]);
        } else if j == vt.len() {
        } else if j < c1 + db.len() {
            assert(line[j] == db[j - c1]);
        } else if j == c1 + db.len() {
        } else {
            assert(line[j] == rb[j - c2]);
        }
    }
}

proof fn lemma_line_headers(v: Version, s: StatusCode, es: Fields, rest: Seq<u8>)
    requires
        wire_safe_fields(es),
        es.len() > 0,
    ensures
        headers_stage(
            status_line_bytes(v, s) + field_lines(es) + seq![CR, LF] + rest,
            status_line_bytes(v, s).len() as int,
        ) == Some(
            Ok::<(Fields, int), ParseError>(
                (es, (status_line_bytes(v, s).len() + field_lines(es).len() + 2) as int),
            ),
        ),
{
    lemma_line_no_cr(v, s);
    lemma_head_block(status_line_bytes(v, s), es, seq![CR, LF] + rest);
    assert(status_line_bytes(v, s) + field_lines(es) + seq![CR, LF] + rest =~= status_line_bytes(
        v,
        s,
    ) + field_lines(es) + (seq![CR, LF] + rest));
}

/// A response head written as `status_line` writes it, followed by header
/// lines and `\r\n`, reads back through `Response::header_parser`: the
/// same version, a status with the same number (the same status when it is
/// a named one), the reason phrase of the status written, and the same
/// fields, whenever the fields read back as themselves.
pub proof fn lemma_status_line_read_back(v: Version, s: StatusCode, es: Fields, rest: Seq<u8>)
    requires
        wire_safe_fields(es),
        es.len() > 0,
    ensures
        response_outcome(
            encode_utf8(status_line_text(v, s)) + field_lines(es) + seq![CR, LF] + rest,
            false,
        ) == Some(
            Ok::<ResponseView, ParseError>(
                ResponseView {
                    version: v,
                    status_code: status_read_back(status_number(s)),
                    reason: reason_text(s),
                    headers: es,
                    body: Seq::empty(),
                },
            ),
        ),
        status_number(status_read_back(status_number(s))) == status_number(s),
        !(s is Other) ==> status_read_back(status_number(s)) == s,
{
    lemma_status_line_bytes(v, s);
    let tail = field_lines(es) + seq![CR, LF] + rest;
    assert(status_line_bytes(v, s) + field_lines(es) + seq![CR, LF] + rest =~= status_line_bytes(
        v,
        s,
    ) + tail);
    lemma_line_version(v, s, tail);
    lemma_line_code(v, s, tail);
    lemma_line_reason(v, s, es, rest);
    lemma_line_headers(v, s, es, rest);
    let n = status_number(s);
    lemma_status_of_code(n);
    if !(s is Other) {
        lemma_code_text_value(s);
        reveal_with_fuel(decimal_text, 4);
        assert(decimal_text(n as nat) =~= code_text(s));
    }
}


/// The length a static response announces reads back, through the same
/// `Content-Length` reading the parsers use, as the number of bytes read
/// (0 when the read failed).
pub proof fn lemma_static_length_reads_back(m: Seq<char>, body: Result<Vec<u8>, StaticFileError>)
    ensures
        crate::http::request::content_length(static_fields(m, length_text(body))) == Some(
            match body {
                Ok(b) => b@.len(),
                Err(_) => 0nat,
            },
        ),
{
    let es = static_fields(m, length_text(body));
    let k = crate::http::request::content_length_name();
    assert(crate::http::headers::names_distinct(es)) by {
        assert forall|i: int, j: int| 0 <= i < j < es.len() implies (#[trigger] es[i]).0 != (
        #[trigger] es[j]).0 by {
            assert(es[i].0.len() != es[j].0.len());
        }
    }
    crate::http::headers::lemma_name_index(es, k, 1);
    match body {
        Ok(b) => {
            vstd::std_specs::vec::axiom_spec_len(&b);
            assert(b@.len() == b.len());
            lemma_parse_decimal_text(b@.len(), usize::MAX as nat);
        },
        Err(_) => {
            let z = seq!['0'];
            assert(digits_value(z.drop_last()) == 0) by {
                assert(z.drop_last() =~= Seq::<char>::empty());
            }
            assert(all_digits(z));
        },
    }
}

} // verus!
