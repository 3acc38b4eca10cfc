use localhost::request::{percent_decode, ParseError, Request, RequestParser};

fn parse(bytes: &[u8], max_header: usize, max_body: usize) -> Result<Request, ParseError> {
    let mut p = RequestParser::new();
    let mut buf = bytes.to_vec();
    match p.feed(&mut buf, max_header, max_body) {
        Ok(true) => Ok(p.into_request()),
        Ok(false) => panic!("incomplete"),
        Err(e) => Err(e),
    }
}

#[test]
fn splits_query_and_reads_cookies() {
    let req = parse(b"GET /a%2Fb?x=1&y=2 HTTP/1.0\r\nCookie: a=1; session_id = abc ;b=2\r\nConnection: Close\r\n\r\n", 8192, 10).unwrap();
    assert_eq!(req.path, "/a/b");
    assert_eq!(req.query, "x=1&y=2");
    assert_eq!(req.target, "/a%2Fb?x=1&y=2");
    assert_eq!(req.cookie("session_id"), Some("abc".to_string()));
    assert_eq!(req.cookie("missing"), None);
    assert!(!req.keep_alive());
}

#[test]
fn keep_alive_defaults_by_version() {
    let a = parse(b"GET / HTTP/1.1\r\n\r\n", 8192, 10).unwrap();
    assert!(a.keep_alive());
    let b = parse(b"GET / HTTP/1.0\r\n\r\n", 8192, 10).unwrap();
    assert!(!b.keep_alive());
}

#[test]
fn error_variants_and_status_codes() {
    assert_eq!(parse(b"GET /\r\n\r\n", 8192, 10).unwrap_err(), ParseError::BadRequest);
    assert_eq!(parse(b"get / HTTP/1.1\r\n\r\n", 8192, 10).unwrap_err(), ParseError::BadRequest);
    assert_eq!(parse(b"GET / HTTP/3\r\n\r\n", 8192, 10).unwrap_err(), ParseError::VersionNotSupported);
    assert_eq!(parse(b"GET / HTTP/1.1\r\nX: aaaaaaaaaaaaaaaaaaaa\r\n\r\n", 20, 10).unwrap_err(), ParseError::HeaderTooLarge);
    assert_eq!(parse(b"POST / HTTP/1.1\r\nTransfer-Encoding: gzip\r\n\r\n", 8192, 10).unwrap_err(), ParseError::NotImplemented);
    assert_eq!(ParseError::BadRequest.status_code(), 400);
    assert_eq!(ParseError::HeaderTooLarge.status_code(), 431);
    assert_eq!(ParseError::UriTooLong.status_code(), 414);
    assert_eq!(ParseError::PayloadTooLarge.status_code(), 413);
    assert_eq!(ParseError::NotImplemented.status_code(), 501);
    assert_eq!(ParseError::VersionNotSupported.status_code(), 505);
}

#[test]
fn header_lookup_ignores_case() {
    let req = parse(b"GET / HTTP/1.1\r\nX-Token:  v1 \r\n\r\n", 8192, 10).unwrap();
    assert_eq!(req.header("x-token"), Some("v1"));
    assert_eq!(req.header("x-other"), None);
}

#[test]
fn percent_decoding_edge_cases() {
    assert_eq!(percent_decode("/%zz"), "/%zz");
    assert_eq!(percent_decode("/%4"), "/%4");
    assert_eq!(percent_decode("/%C3%A9"), "/\u{e9}");
    assert_eq!(percent_decode("/%FF"), "/\u{fffd}");
    assert_eq!(percent_decode("a+b"), "a+b");
    assert_eq!(percent_decode("/%+5"), "/%+5");
    assert_eq!(percent_decode("/%-5x"), "/%-5x");
}

#[test]
fn fully_escaped_text_decodes_back() {
    for s in ["/caf\u{e9} au lait", "a+b%c", "", "\u{1f600}/x"] {
        let escaped: String = s.bytes().map(|b| format!("%{:02X}", b)).collect();
        assert_eq!(percent_decode(&escaped), s);
    }
}

#[test]
fn chunked_body_stays_within_limit_across_feeds() {
    let all: &[u8] = b"POST /up HTTP/1.1\r\nTransfer-Encoding: chunked\r\n\r\n4\r\nabcd\r\n3\r\nefg\r\n0\r\n\r\n";
    let mut p = RequestParser::new();
    let mut rest = Vec::new();
    let mut result = Ok(false);
    for b in all {
        rest.push(*b);
        result = p.feed(&mut rest, 8192, 6);
        if result != Ok(false) {
            break;
        }
    }
    assert_eq!(result, Err(ParseError::PayloadTooLarge));
    let mut ok = RequestParser::new();
    let mut buf = all.to_vec();
    assert_eq!(ok.feed(&mut buf, 8192, 7), Ok(true));
    assert_eq!(ok.into_request().body, b"abcdefg");
}

#[test]
fn feeding_in_pieces_equals_feeding_at_once() {
    let all: &[u8] = b"POST /up HTTP/1.1\r\nTransfer-Encoding: chunked\r\n\r\n3\r\nabc\r\n2\r\nde\r\n0\r\n\r\nNEXT";
    let mut whole = RequestParser::new();
    let mut buf = all.to_vec();
    assert!(whole.feed(&mut buf, 8192, 1024).unwrap());
    let expected_rest = buf.clone();
    let expected = whole.into_request();

    let mut p = RequestParser::new();
    let mut rest = Vec::new();
    let mut done = false;
    for b in all {
        rest.push(*b);
        if p.feed(&mut rest, 8192, 1024).unwrap() {
            done = true;
            break;
        }
    }
    assert!(done);
    let req = p.into_request();
    assert_eq!(req.body, expected.body);
    assert_eq!(req.body, b"abcde");
    assert_eq!(req.path, expected.path);
    assert_eq!(expected_rest, b"NEXT");
}
