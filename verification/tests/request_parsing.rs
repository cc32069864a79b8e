use lib::http::request::{Method, ParseError, Request, Version};

fn header<'a>(r: &'a Request, name: &str) -> Option<&'a String> {
    r.headers.get(name)
}

#[test]
fn parses_simple_get() {
    let raw = b"GET /index.html HTTP/1.1\r\nHost: example.com\r\nAccept: */*\r\n\r\n";
    let r = Request::parser(raw).unwrap();
    assert_eq!(r.method, Method::GET);
    assert_eq!(r.path, "/index.html");
    assert!(r.query.is_empty());
    assert_eq!(r.version, Version::Http11);
    assert_eq!(r.headers.len(), 2);
    assert_eq!(header(&r, "Host").unwrap(), "example.com");
    assert_eq!(header(&r, "Accept").unwrap(), "*/*");
    assert_eq!(r.body, "");
}

#[test]
fn parses_every_method() {
    let cases = [
        ("GET", Method::GET),
        ("POST", Method::POST),
        ("PUT", Method::PUT),
        ("DELETE", Method::DELETE),
        ("PATCH", Method::PATCH),
        ("HEAD", Method::HEAD),
        ("OPTIONS", Method::OPTIONS),
    ];
    for (text, m) in cases {
        let raw = format!("{} / HTTP/1.0\r\nA: b\r\n\r\n", text);
        let r = Request::parser(raw.as_bytes()).unwrap();
        assert_eq!(r.method, m);
        assert_eq!(r.version, Version::Http10);
    }
}

#[test]
fn parses_query_parameters() {
    let raw = b"GET /search?q=rust&page=2&flag&x=a=b&&empty= HTTP/1.1\r\nHost: h\r\n\r\n";
    let r = Request::parser(raw).unwrap();
    assert_eq!(r.path, "/search");
    let expected: Vec<(String, Option<String>)> = vec![
        ("q".to_string(), Some("rust".to_string())),
        ("page".to_string(), Some("2".to_string())),
        ("flag".to_string(), None),
        ("x".to_string(), Some("a=b".to_string())),
        ("".to_string(), None),
        ("empty".to_string(), Some("".to_string())),
    ];
    assert_eq!(r.query, expected);
}

#[test]
fn empty_query_gives_one_empty_parameter() {
    let raw = b"GET /a? HTTP/1.1\r\nHost: h\r\n\r\n";
    let r = Request::parser(raw).unwrap();
    assert_eq!(r.path, "/a");
    assert_eq!(r.query, vec![("".to_string(), None)]);
}

#[test]
fn header_values_are_trimmed_names_are_not() {
    let raw = "GET / HTTP/1.1\r\nHost:   example.com \t\r\n X-Name :\u{a0}v\u{3000}\r\n\r\n";
    let r = Request::parser(raw.as_bytes()).unwrap();
    assert_eq!(header(&r, "Host").unwrap(), "example.com");
    assert_eq!(header(&r, " X-Name ").unwrap(), "v");
    assert!(header(&r, "X-Name").is_none());
}

#[test]
fn later_header_replaces_earlier() {
    let raw = b"GET / HTTP/1.1\r\nA: 1\r\nB: 2\r\nA: 3\r\n\r\n";
    let r = Request::parser(raw).unwrap();
    assert_eq!(r.headers.len(), 2);
    let (k0, v0) = r.headers.entry(0);
    assert_eq!((k0.as_str(), v0.as_str()), ("A", "3"));
    let (k1, v1) = r.headers.entry(1);
    assert_eq!((k1.as_str(), v1.as_str()), ("B", "2"));
}

#[test]
fn header_value_keeps_later_colons() {
    let raw = b"GET / HTTP/1.1\r\nHost: localhost:8080\r\n\r\n";
    let r = Request::parser(raw).unwrap();
    assert_eq!(header(&r, "Host").unwrap(), "localhost:8080");
}

#[test]
fn reads_body_of_announced_length() {
    let raw = b"POST /api/x HTTP/1.1\r\nContent-Length: 5\r\n\r\nhello world";
    let r = Request::parser(raw).unwrap();
    assert_eq!(r.body, "hello");
    let h = Request::header_parser(raw).unwrap();
    assert_eq!(h.body, "");
    assert_eq!(h.path, "/api/x");
}

#[test]
fn content_length_with_plus_sign() {
    let raw = b"POST / HTTP/1.1\r\nContent-Length: +3\r\n\r\nabcdef";
    let r = Request::parser(raw).unwrap();
    assert_eq!(r.body, "abc");
}

#[test]
fn zero_content_length_reads_no_body() {
    let raw = b"POST / HTTP/1.1\r\nContent-Length: 0\r\n\r\nignored";
    let r = Request::parser(raw).unwrap();
    assert_eq!(r.body, "");
}

#[test]
fn short_body_is_unexpected_end() {
    let raw = b"POST / HTTP/1.1\r\nContent-Length: 10\r\n\r\nabc";
    assert_eq!(Request::parser(raw).err(), Some(ParseError::UnexpectedEndOfRequest));
    assert!(Request::header_parser(raw).is_ok());
}

#[test]
fn bad_content_length() {
    for v in ["abc", "-1", "", "+", "1 2", "99999999999999999999999"] {
        let raw = format!("POST / HTTP/1.1\r\nContent-Length: {}\r\n\r\n", v);
        assert_eq!(
            Request::parser(raw.as_bytes()).err(),
            Some(ParseError::InvalidContentLength),
            "value {:?}",
            v
        );
    }
}

#[test]
fn body_not_utf8() {
    let mut raw = b"POST / HTTP/1.1\r\nContent-Length: 2\r\n\r\n".to_vec();
    raw.extend_from_slice(&[0xff, 0xfe]);
    assert_eq!(Request::parser(&raw).err(), Some(ParseError::InvalidUtf8));
}

#[test]
fn unknown_method() {
    let raw = b"FETCH / HTTP/1.1\r\nA: b\r\n\r\n";
    assert_eq!(Request::parser(raw).err(), Some(ParseError::InvalidMethod));
    let raw = b"get / HTTP/1.1\r\nA: b\r\n\r\n";
    assert_eq!(Request::parser(raw).err(), Some(ParseError::InvalidMethod));
}

#[test]
fn method_not_utf8() {
    let raw = b"G\xffT / HTTP/1.1\r\nA: b\r\n\r\n";
    assert_eq!(Request::parser(raw).err(), Some(ParseError::InvalidUtf8));
}

#[test]
fn missing_path_end() {
    assert_eq!(Request::parser(b"GET").err(), Some(ParseError::InvalidPath));
    assert_eq!(Request::parser(b"GET /index.html").err(), Some(ParseError::InvalidPath));
    assert_eq!(Request::parser(b"").err(), Some(ParseError::InvalidMethod));
}

#[test]
fn path_not_utf8() {
    let raw = b"GET /\xc3 HTTP/1.1\r\nA: b\r\n\r\n";
    assert_eq!(Request::parser(raw).err(), Some(ParseError::InvalidUtf8));
}

#[test]
fn unknown_version() {
    let raw = b"GET / HTTP/2.0\r\nA: b\r\n\r\n";
    assert_eq!(Request::parser(raw).err(), Some(ParseError::InvalidVersion));
}

#[test]
fn header_without_colon() {
    let raw = b"GET / HTTP/1.1\r\nHost example.com\r\n\r\n";
    assert_eq!(Request::parser(raw).err(), Some(ParseError::InvalidHeader));
}

#[test]
fn header_block_not_utf8_comes_before_missing_colon() {
    let raw = b"GET / HTTP/1.1\r\nno colon\r\nA: \xff\r\n\r\n";
    assert_eq!(Request::parser(raw).err(), Some(ParseError::InvalidUtf8));
}

#[test]
fn no_blank_line_is_unexpected_end() {
    let raw = b"GET / HTTP/1.1\r\nHost: h\r\n";
    assert_eq!(Request::parser(raw).err(), Some(ParseError::UnexpectedEndOfRequest));
}

#[test]
fn request_without_headers_cannot_be_read() {
    // The header block would start after its own end.
    let raw = b"GET / HTTP/1.1\r\n\r\n";
    assert!(Request::try_parser(raw).is_none());
    assert!(Request::try_header_parser(raw).is_none());
}

#[test]
fn query_running_to_the_end_cannot_be_read() {
    let raw = b"GET /?a=b";
    assert!(Request::try_parser(raw).is_none());
}

#[test]
fn huge_content_length_cannot_be_read() {
    let raw = format!("POST / HTTP/1.1\r\nContent-Length: {}\r\n\r\n", usize::MAX);
    assert!(Request::try_parser(raw.as_bytes()).is_none());
    assert!(Request::try_header_parser(raw.as_bytes()).unwrap().is_ok());
}

#[test]
fn try_parser_agrees_with_parser() {
    let raw = b"PUT /x?y HTTP/1.0\r\nContent-Length: 2\r\n\r\nok";
    let a = Request::try_parser(raw).unwrap().unwrap();
    let b = Request::parser(raw).unwrap();
    assert_eq!(a.body, b.body);
    assert_eq!(a.body, "ok");
    assert_eq!(a.query, vec![("y".to_string(), None)]);
}

#[test]
fn version_text() {
    assert_eq!(Version::Http10.as_str(), "HTTP/1.0");
    assert_eq!(Version::Http11.as_str(), "HTTP/1.1");
}
