use localhost::connection::Connection;
use localhost::request::{
    asks_to_close, content_length_state, percent_decode, transfer_encoding_state, ParseError, RequestParser, State,
};
use localhost::server::cgi_head;

#[test]
fn transfer_encoding_framing_from_lowercased_value() {
    assert_eq!(transfer_encoding_state("gzip, chunked"), Ok(State::BodyChunkedSize));
    assert_eq!(transfer_encoding_state("gzip"), Err(ParseError::NotImplemented));
    assert_eq!(transfer_encoding_state("CHUNKED"), Err(ParseError::NotImplemented));
}

#[test]
fn content_length_framing_by_value() {
    assert_eq!(content_length_state(" 12 ", 100), Ok(State::BodyContentLength(12)));
    assert_eq!(content_length_state("0", 100), Ok(State::Done));
    assert_eq!(content_length_state("101", 100), Err(ParseError::PayloadTooLarge));
    assert_eq!(content_length_state("12a", 100), Err(ParseError::BadRequest));
    assert_eq!(content_length_state("", 100), Err(ParseError::BadRequest));
}

#[test]
fn connection_value_close() {
    assert!(asks_to_close("keep-alive, close"));
    assert!(!asks_to_close("keep-alive"));
    assert!(!asks_to_close("CLOSE"));
}

#[test]
fn request_and_header_lines_from_text() {
    let mut p = RequestParser::new();
    assert_eq!(p.parse_request_line("GET  /a?b=1 HTTP/1.0"), Ok(()));
    assert_eq!(p.parse_header_line("Content-Length:  3 "), Ok(()));
    assert_eq!(p.compute_body_state(10), Ok(State::BodyContentLength(3)));
    assert_eq!(p.parse_header_line("Bad Name: x"), Err(ParseError::BadRequest));
    assert_eq!(p.parse_header_line("no colon"), Err(ParseError::BadRequest));
    let req = p.into_request();
    assert_eq!(req.method, "GET");
    assert_eq!(req.path, "/a");
    assert_eq!(req.query, "b=1");
    assert_eq!(req.version, "HTTP/1.0");
    assert_eq!(req.headers, vec![("Content-Length".to_string(), "3".to_string())]);

    let mut q = RequestParser::new();
    assert_eq!(q.parse_request_line("get / HTTP/1.1"), Err(ParseError::BadRequest));
    let mut v = RequestParser::new();
    assert_eq!(v.parse_request_line("GET / HTTP/2.0"), Err(ParseError::VersionNotSupported));
}

#[test]
fn cgi_head_from_text() {
    let (status, headers) = cgi_head("Status: 404 Not Found\r\nContent-Type: text/plain\r\nno colon line\r\nX-A: 1");
    assert_eq!(status, 404);
    assert_eq!(
        headers,
        vec![
            ("Content-Type".to_string(), "text/plain".to_string()),
            ("X-A".to_string(), "1".to_string()),
        ]
    );
    let (status, headers) = cgi_head("Status: abc");
    assert_eq!(status, 200);
    assert!(headers.is_empty());
}

#[test]
fn text_without_percent_decodes_as_itself() {
    for t in ["/caf\u{e9}+x", "", "/a/b c"] {
        assert_eq!(percent_decode(t), t);
    }
}

#[test]
fn connection_steps_leave_other_fields() {
    let mut c = Connection::new("1.2.3.4".to_string(), 8080, vec![0, 2], 100);
    c.cgi_keep_alive = true;
    c.cgi_server_idx = 2;
    c.record_read(b"GET", 150);
    assert_eq!(c.server_indices, vec![0, 2]);
    assert!(!c.should_close_after_write);
    assert!(c.cgi_keep_alive);
    assert_eq!(c.cgi_server_idx, 2);
    assert_eq!(c.peer_addr, "1.2.3.4");
    c.queue_response(b"HTTP/1.1 200 OK\r\n\r\n".to_vec(), false);
    assert_eq!(c.read_buf, b"GET");
    assert_eq!(c.last_active, 150);
    assert!(c.record_written(19, 160));
    assert_eq!(c.read_buf, b"GET");
    assert!(c.cgi_keep_alive);
}
