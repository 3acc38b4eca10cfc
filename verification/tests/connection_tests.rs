use localhost::connection::{AfterWrite, Connection, ParseStep};

fn conn() -> Connection {
    Connection::new("1.2.3.4".to_string(), 8080, vec![0], 100)
}

#[test]
fn parses_a_request_from_buffered_bytes() {
    let mut c = conn();
    c.record_read(b"GET /a HTTP/1.1\r\nHost: x\r\n\r\nGET /b", 200);
    assert!(c.has_partial_request);
    assert_eq!(c.last_active, 200);
    assert_eq!(c.parse_step(8192, 1024), ParseStep::Complete);
    let req = c.take_request().unwrap();
    assert_eq!(req.path, "/a");
    assert_eq!(c.read_buf, b"GET /b");
}

#[test]
fn incomplete_and_failed_parses() {
    let mut c = conn();
    c.record_read(b"GET / HTTP/1.1\r\n", 1);
    assert_eq!(c.parse_step(8192, 1024), ParseStep::Incomplete);
    let mut d = conn();
    d.record_read(b"GET / HTTP/2.0\r\n\r\n", 1);
    assert_eq!(d.parse_step(8192, 1024), ParseStep::Failed(505));
}

#[test]
fn undecodable_path_is_dropped() {
    let mut c = conn();
    c.record_read("GET /%a\u{e9} HTTP/1.1\r\n\r\n".as_bytes(), 1);
    assert_eq!(c.parse_step(8192, 1024), ParseStep::Complete);
    assert!(c.take_request().is_none());
    let mut d = conn();
    d.record_read("GET /%41\u{e9} HTTP/1.1\r\n\r\n".as_bytes(), 1);
    assert_eq!(d.parse_step(8192, 1024), ParseStep::Complete);
    assert_eq!(d.take_request().unwrap().path, "/A\u{e9}");
}

#[test]
fn writes_then_continues_with_leftover() {
    let mut c = conn();
    c.record_read(b"GET /b", 1);
    c.queue_response(b"HTTP/1.1 200 OK\r\n\r\n".to_vec(), false);
    assert!(c.awaiting_write);
    assert_eq!(c.write_remaining(), 19);
    assert!(!c.record_written(10, 5));
    assert_eq!(c.write_remaining(), 9);
    assert!(c.record_written(9, 6));
    assert_eq!(c.after_response(), AfterWrite::Continue { leftover: true });
    assert!(!c.awaiting_write);
    assert_eq!(c.write_pos, 0);
}

#[test]
fn closes_after_write_when_asked() {
    let mut c = conn();
    c.queue_response(b"x".to_vec(), true);
    assert!(c.record_written(1, 5));
    assert_eq!(c.after_response(), AfterWrite::Close);
}

#[test]
fn peer_close_waits_for_pending_response() {
    let mut c = conn();
    assert!(c.peer_closed());
    c.queue_response(b"x".to_vec(), false);
    assert!(!c.peer_closed());
    assert!(c.should_close_after_write);
}
