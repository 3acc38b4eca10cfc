use localhost::request::{percent_decode, ParseError, RequestParser};

#[test]
fn parses_simple_get() {
    let mut p = RequestParser::new();
    let mut buf = b"GET /index.html HTTP/1.1\r\nHost: localhost\r\n\r\n".to_vec();
    let done = p.feed(&mut buf, 8192, 1024).unwrap();
    assert!(done);
    let req = p.into_request();
    assert_eq!(req.method, "GET");
    assert_eq!(req.path, "/index.html");
    assert_eq!(req.header("host"), Some("localhost"));
}

#[test]
fn parses_partial_then_complete() {
    let mut p = RequestParser::new();
    let mut buf = b"GET / HTTP/1.1\r\nHost: loc".to_vec();
    assert_eq!(p.feed(&mut buf, 8192, 1024).unwrap(), false);
    buf.extend_from_slice(b"alhost\r\n\r\n");
    assert_eq!(p.feed(&mut buf, 8192, 1024).unwrap(), true);
}

#[test]
fn parses_content_length_body() {
    let mut p = RequestParser::new();
    let mut buf = b"POST /x HTTP/1.1\r\nContent-Length: 5\r\n\r\nhello".to_vec();
    assert!(p.feed(&mut buf, 8192, 1024).unwrap());
    let req = p.into_request();
    assert_eq!(req.body, b"hello");
}

#[test]
fn parses_chunked_body() {
    let mut p = RequestParser::new();
    let mut buf = b"POST /x HTTP/1.1\r\nTransfer-Encoding: chunked\r\n\r\n4\r\nWiki\r\n5\r\npedia\r\n0\r\n\r\n".to_vec();
    assert!(p.feed(&mut buf, 8192, 1024).unwrap());
    let req = p.into_request();
    assert_eq!(req.body, b"Wikipedia");
}

#[test]
fn rejects_payload_too_large() {
    let mut p = RequestParser::new();
    let mut buf = b"POST /x HTTP/1.1\r\nContent-Length: 100\r\n\r\n".to_vec();
    let err = p.feed(&mut buf, 8192, 10).unwrap_err();
    assert_eq!(err, ParseError::PayloadTooLarge);
}

#[test]
fn decodes_percent_encoding() {
    assert_eq!(percent_decode("/a%20b"), "/a b");
    assert_eq!(percent_decode("/100%25"), "/100%");
}
