use lib::handlers::reverse_proxy::request_to_bytes;
use lib::handlers::static_file::{
    headers, public_path, static_response, status_line, StaticFileError,
};
use lib::http::headers::HeaderMap;
use lib::http::request::{Method, Request, Version};
use lib::http::response::{Response, StatusCode};
use lib::router::route::{route_resolver, RouteError, RouteTarget};
use lib::server::read::{next_read_action, ReadAction, ReadError, ReadPhase};

fn fields(m: &HeaderMap) -> Vec<(String, String)> {
    (0..m.len()).map(|i| { let (k, v) = m.entry(i); (k.clone(), v.clone()) }).collect()
}

#[test]
fn header_map_store_and_read() {
    let mut m = HeaderMap::new();
    assert!(m.is_empty());
    m.insert("A".to_string(), "1".to_string());
    m.insert("B".to_string(), "2".to_string());
    m.insert("A".to_string(), "3".to_string());
    assert_eq!(m.len(), 2);
    assert_eq!(m.get("A").unwrap(), "3");
    assert_eq!(m.get("B").unwrap(), "2");
    assert!(m.get("a").is_none());
    assert_eq!(fields(&m), vec![("A".into(), "3".into()), ("B".into(), "2".into())]);
}

#[test]
fn request_bytes_exact() {
    let mut h = HeaderMap::new();
    h.insert("Host".to_string(), "example.com".to_string());
    h.insert("X".to_string(), "y".to_string());
    let r = Request {
        method: Method::POST,
        path: "/api/items".to_string(),
        query: vec![("a".to_string(), Some("1".to_string())), ("b".to_string(), None)],
        version: Version::Http11,
        headers: h,
        body: "hi".to_string(),
    };
    let bytes = request_to_bytes(&r);
    assert_eq!(
        bytes,
        b"POST /api/items?a=1&b HTTP/1.1\r\nHost: example.com\r\nX: y\r\n\r\n\r\nhi".to_vec()
    );
}

#[test]
fn request_bytes_without_query() {
    let r = Request {
        method: Method::GET,
        path: "/".to_string(),
        query: vec![],
        version: Version::Http10,
        headers: HeaderMap::new(),
        body: String::new(),
    };
    assert_eq!(request_to_bytes(&r), b"GET / HTTP/1.0\r\n\r\n\r\n".to_vec());
}

#[test]
fn request_bytes_read_back_without_body() {
    let raw = b"DELETE /api/x?k=v&flag HTTP/1.1\r\nHost: h\r\nAccept: text/html\r\n\r\n";
    let r = Request::parser(raw).unwrap();
    let bytes = request_to_bytes(&r);
    let back = Request::header_parser(&bytes).unwrap();
    assert_eq!(back.method, r.method);
    assert_eq!(back.path, r.path);
    assert_eq!(back.query, r.query);
    assert_eq!(back.version, r.version);
    assert_eq!(fields(&back.headers), fields(&r.headers));
    let full = Request::parser(&bytes).unwrap();
    assert_eq!(full.body, "");
}

#[test]
fn forwarded_body_gains_a_line_end() {
    let raw = b"POST /api HTTP/1.1\r\nContent-Length: 4\r\n\r\nabcd";
    let r = Request::parser(raw).unwrap();
    let back = Request::parser(&request_to_bytes(&r)).unwrap();
    assert_eq!(back.body, "\r\nab");
}

#[test]
fn status_line_text() {
    assert_eq!(status_line(&Version::Http11, StatusCode::OK), "HTTP/1.1 200 OK\r\n");
    assert_eq!(status_line(&Version::Http10, StatusCode::NotFound), "HTTP/1.0 404 Not Found\r\n");
    assert_eq!(status_line(&Version::Http11, StatusCode::Other(7)), "HTTP/1.1 7 Unknown\r\n");
}

#[test]
fn status_line_reads_back() {
    for s in [StatusCode::OK, StatusCode::BadGateway, StatusCode::Other(299), StatusCode::Other(404)] {
        let mut raw = status_line(&Version::Http10, s).into_bytes();
        raw.extend_from_slice(b"Server: Rustinx\r\n\r\n");
        let r = Response::header_parser(&raw).unwrap();
        assert_eq!(r.version, Version::Http10);
        assert_eq!(r.status_code.code(), s.code());
        assert_eq!(r.reason, s.reason());
        assert_eq!(r.headers.get("Server").unwrap(), "Rustinx");
    }
}

#[test]
fn static_headers_for_html() {
    let body: Result<Vec<u8>, StaticFileError> = Ok(b"<p>hello</p>".to_vec());
    let h = headers("/index.html", &body).unwrap();
    assert_eq!(
        fields(&h),
        vec![
            ("Content-Type".into(), "text/html".into()),
            ("Content-Length".into(), "12".into()),
            ("Connection".into(), "close".into()),
            ("Server".into(), "Rustinx".into()),
        ]
    );
}

#[test]
fn static_headers_mime_types() {
    let body: Result<Vec<u8>, StaticFileError> = Ok(vec![]);
    let cases = [
        ("/a.css", "text/css"),
        ("/a.js", "application/javascript"),
        ("/a.json", "application/json"),
        ("/a.png", "image/png"),
        ("/a.jpg", "image/jpeg"),
        ("/a.jpeg", "image/jpeg"),
        ("/a.svg", "image/svg+xml"),
        ("/a.ico", "image/x-icon"),
        ("/a.txt", "text/plain"),
        ("/a.txt.gz", "text/plain"),
    ];
    for (p, mime) in cases {
        let h = headers(p, &body).unwrap();
        assert_eq!(h.get("Content-Type").unwrap(), mime, "path {}", p);
        assert_eq!(h.get("Content-Length").unwrap(), "0");
    }
}

#[test]
fn static_headers_failed_read_and_unknown_type() {
    let failed: Result<Vec<u8>, StaticFileError> = Err(StaticFileError::BodyResponseError);
    let h = headers("/missing.html", &failed).unwrap();
    assert_eq!(h.get("Content-Length").unwrap(), "0");
    assert_eq!(headers("/a.gz", &failed).err(), Some(StaticFileError::HeaderResponseError));
    assert_eq!(headers("/a.b.html", &failed).err(), Some(StaticFileError::HeaderResponseError));
    assert_eq!(headers("/a.", &failed).err(), Some(StaticFileError::HeaderResponseError));
}

#[test]
fn static_response_bytes() {
    let r = static_response(Version::Http11, "/hi.txt", Ok(b"hey".to_vec())).unwrap();
    assert_eq!(r.status_code, StatusCode::Other(200));
    assert_eq!(r.reason, "OK");
    assert_eq!(
        r.to_bytes(),
        b"HTTP/1.1 200 OKContent-Type: text/plain\r\nContent-Length: 3\r\nConnection: close\r\nServer: Rustinx\r\n\r\nhey".to_vec()
    );
    let nf = static_response(Version::Http10, "/no.html", Err(StaticFileError::BodyResponseError)).unwrap();
    assert_eq!(nf.status_code, StatusCode::Other(404));
    assert_eq!(nf.reason, "Not Found");
    assert!(nf.body.is_empty());
    assert_eq!(
        static_response(Version::Http10, "/x.exe", Ok(vec![1])).err(),
        Some(StaticFileError::HeaderResponseError)
    );
}

#[test]
fn public_paths() {
    assert_eq!(public_path("/index.html"), "public/index.html");
    assert_eq!(public_path(""), "public");
}

#[test]
fn routing() {
    assert_eq!(route_resolver("/api"), Ok(RouteTarget::Proxy));
    assert_eq!(route_resolver("/api/users"), Ok(RouteTarget::Proxy));
    assert_eq!(route_resolver("/apix"), Ok(RouteTarget::Proxy));
    assert_eq!(route_resolver("/ap"), Ok(RouteTarget::Static));
    assert_eq!(route_resolver("/"), Ok(RouteTarget::Static));
    assert_eq!(route_resolver("/é"), Ok(RouteTarget::Static));
    assert_eq!(route_resolver(""), Err(RouteError::InvalidPath));
    assert_eq!(route_resolver("api"), Err(RouteError::InvalidPath));
    assert_eq!(route_resolver("é/api"), Err(RouteError::InvalidPath));
}

#[test]
fn read_steps_head_then_body() {
    let part = b"POST / HTTP/1.1\r\nContent-Le";
    assert_eq!(
        next_read_action(ReadPhase::Head, part, Some(part.len())),
        ReadAction::Continue(ReadPhase::Head)
    );
    let head = b"POST / HTTP/1.1\r\nContent-Length: 5\r\n\r\nab";
    let phase = ReadPhase::Body { header_end: 38, content_length: 5 };
    assert_eq!(next_read_action(ReadPhase::Head, head, Some(10)), ReadAction::Continue(phase));
    let more = b"POST / HTTP/1.1\r\nContent-Length: 5\r\n\r\nabcd";
    assert_eq!(next_read_action(phase, more, Some(2)), ReadAction::Continue(phase));
    let all = b"POST / HTTP/1.1\r\nContent-Length: 5\r\n\r\nabcde";
    assert_eq!(next_read_action(phase, all, Some(1)), ReadAction::Done);
    assert_eq!(next_read_action(phase, more, Some(0)), ReadAction::Fail(ReadError::InvalidRequest));
}

#[test]
fn read_steps_edge_cases() {
    assert_eq!(
        next_read_action(ReadPhase::Head, b"", Some(0)),
        ReadAction::Fail(ReadError::ConnectionClosed)
    );
    assert_eq!(
        next_read_action(ReadPhase::Head, b"GET", None),
        ReadAction::Fail(ReadError::InvalidRequest)
    );
    let done = b"GET / HTTP/1.1\r\nHost: h\r\n\r\n";
    assert_eq!(next_read_action(ReadPhase::Head, done, Some(done.len())), ReadAction::Done);
    let bad = b"GET / HTTP/1.1\r\nHost h\r\n\r\n";
    assert_eq!(
        next_read_action(ReadPhase::Head, bad, Some(bad.len())),
        ReadAction::Fail(ReadError::InvalidRequest)
    );
    let bad_len = b"GET / HTTP/1.1\r\nContent-Length: z\r\n\r\n";
    assert_eq!(
        next_read_action(ReadPhase::Head, bad_len, Some(3)),
        ReadAction::Fail(ReadError::InvalidRequest)
    );
}
