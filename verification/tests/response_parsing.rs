use lib::http::request::{ParseError, Version};
use lib::http::response::{Response, StatusCode};

#[test]
fn parses_response_with_body() {
    let raw = b"HTTP/1.1 200 OK\r\nContent-Length: 4\r\nServer: x\r\n\r\nbodyextra";
    let r = Response::parser(raw).unwrap();
    assert_eq!(r.version, Version::Http11);
    assert_eq!(r.status_code, StatusCode::OK);
    assert_eq!(r.reason, "OK");
    assert_eq!(r.headers.len(), 2);
    assert_eq!(r.headers.get("Server").unwrap(), "x");
    assert_eq!(r.body, b"body".to_vec());
    let h = Response::header_parser(raw).unwrap();
    assert!(h.body.is_empty());
}

#[test]
fn named_and_other_status_codes() {
    let cases = [
        ("200", StatusCode::OK),
        ("201", StatusCode::Created),
        ("301", StatusCode::MovedPermanently),
        ("400", StatusCode::BadRequest),
        ("403", StatusCode::Forbidden),
        ("404", StatusCode::NotFound),
        ("405", StatusCode::MethodNotAllowed),
        ("500", StatusCode::InternalServerError),
        ("502", StatusCode::BadGateway),
        ("503", StatusCode::ServiceUnavailable),
        ("418", StatusCode::Other(418)),
        ("0200", StatusCode::Other(200)),
        ("+404", StatusCode::Other(404)),
        ("65535", StatusCode::Other(65535)),
    ];
    for (text, s) in cases {
        let raw = format!("HTTP/1.0 {} Whatever\r\nA: b\r\n\r\n", text);
        let r = Response::parser(raw.as_bytes()).unwrap();
        assert_eq!(r.status_code, s, "status {}", text);
        assert_eq!(r.version, Version::Http10);
    }
}

#[test]
fn bad_status_codes() {
    for text in ["abc", "65536", "-1", ""] {
        let raw = format!("HTTP/1.1 {} X\r\nA: b\r\n\r\n", text);
        assert_eq!(
            Response::parser(raw.as_bytes()).err(),
            Some(ParseError::InvalidStatusCode),
            "status {:?}",
            text
        );
    }
}

#[test]
fn status_not_utf8_is_invalid_method() {
    let raw = b"HTTP/1.1 2\xff0 X\r\nA: b\r\n\r\n";
    assert_eq!(Response::parser(raw).err(), Some(ParseError::InvalidMethod));
}

#[test]
fn bad_version() {
    assert_eq!(
        Response::parser(b"HTTP/3 200 OK\r\nA: b\r\n\r\n").err(),
        Some(ParseError::InvalidVersion)
    );
    assert_eq!(
        Response::parser(b"HTTP/1.\xff 200 OK\r\nA: b\r\n\r\n").err(),
        Some(ParseError::InvalidVersion)
    );
}

#[test]
fn reason_not_utf8() {
    let raw = b"HTTP/1.1 200 O\xffK\r\nA: b\r\n\r\n";
    assert_eq!(Response::parser(raw).err(), Some(ParseError::InvalidReason));
}

#[test]
fn reason_may_hold_spaces() {
    let raw = b"HTTP/1.1 404 Not Found Here\r\nA: b\r\n\r\n";
    let r = Response::parser(raw).unwrap();
    assert_eq!(r.reason, "Not Found Here");
    assert_eq!(r.status_code, StatusCode::NotFound);
}

#[test]
fn short_body_is_left_empty() {
    let raw = b"HTTP/1.1 200 OK\r\nContent-Length: 100\r\n\r\nabc";
    let r = Response::parser(raw).unwrap();
    assert!(r.body.is_empty());
}

#[test]
fn invalid_content_length() {
    let raw = b"HTTP/1.1 200 OK\r\nContent-Length: x\r\n\r\nabc";
    assert_eq!(Response::parser(raw).err(), Some(ParseError::InvalidContentLength));
}

#[test]
fn response_without_headers_is_invalid_header() {
    let raw = b"HTTP/1.1 204 No Content\r\n\r\n";
    assert_eq!(Response::parser(raw).err(), Some(ParseError::InvalidHeader));
}

#[test]
fn missing_blank_line() {
    let raw = b"HTTP/1.1 200 OK\r\nA: b\r\nxx";
    assert_eq!(Response::parser(raw).err(), Some(ParseError::UnexpectedEndOfRequest));
}

#[test]
fn inputs_that_cannot_be_read() {
    assert!(Response::try_parser(b"HTTP/1.1").is_none());
    assert!(Response::try_parser(b"HTTP/1.1 200").is_none());
    assert!(Response::try_header_parser(b"HTTP/1.1 200 OK\r\n").is_none());
}

#[test]
fn status_code_numbers_and_reasons() {
    assert_eq!(StatusCode::OK.code(), 200);
    assert_eq!(StatusCode::Created.code(), 201);
    assert_eq!(StatusCode::MovedPermanently.code(), 301);
    assert_eq!(StatusCode::BadRequest.code(), 400);
    assert_eq!(StatusCode::Forbidden.code(), 403);
    assert_eq!(StatusCode::NotFound.code(), 404);
    assert_eq!(StatusCode::MethodNotAllowed.code(), 405);
    assert_eq!(StatusCode::InternalServerError.code(), 500);
    assert_eq!(StatusCode::BadGateway.code(), 502);
    assert_eq!(StatusCode::ServiceUnavailable.code(), 503);
    assert_eq!(StatusCode::Other(299).code(), 299);
    assert_eq!(StatusCode::OK.reason(), "OK");
    assert_eq!(StatusCode::MovedPermanently.reason(), "Moved Permanently");
    assert_eq!(StatusCode::MethodNotAllowed.reason(), "Method Not Allowed");
    assert_eq!(StatusCode::InternalServerError.reason(), "Internal Server Error");
    assert_eq!(StatusCode::ServiceUnavailable.reason(), "Service Unavailable");
    assert_eq!(StatusCode::Other(299).reason(), "Unknown");
}
