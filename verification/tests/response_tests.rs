use localhost::response::{reason_phrase, Response};

#[test]
fn serializes_with_default_headers() {
    let mut r = Response::text(200, "hi");
    let out = r.serialize(true);
    assert_eq!(
        out,
        b"HTTP/1.1 200 OK\r\nContent-Type: text/plain; charset=utf-8\r\nContent-Length: 2\r\nConnection: keep-alive\r\nServer: localhost/0.1\r\n\r\nhi"
            .to_vec()
    );
}

#[test]
fn serialize_keeps_given_headers() {
    let mut r = Response::new(204).with_header("connection", "upgrade").with_header("Content-Length", "0");
    let out = String::from_utf8(r.serialize(false)).unwrap();
    assert_eq!(
        out,
        "HTTP/1.1 204 No Content\r\nconnection: upgrade\r\nContent-Length: 0\r\nServer: localhost/0.1\r\n\r\n"
    );
}

#[test]
fn set_header_replaces_case_insensitively() {
    let mut r = Response::new(200).with_header("X-Thing", "a");
    r.set_header("x-thing", "b");
    assert_eq!(r.headers, vec![("X-Thing".to_string(), "b".to_string())]);
    assert!(r.has_header("X-THING"));
    assert!(!r.has_header("Other"));
}

#[test]
fn reason_phrases() {
    assert_eq!(reason_phrase(404), "Not Found");
    assert_eq!(reason_phrase(505), "HTTP Version Not Supported");
    assert_eq!(reason_phrase(299), "Unknown");
}

#[test]
fn serializing_twice_gives_the_same_bytes() {
    let mut r = Response::html(404, b"<p>x</p>".to_vec());
    let first = r.serialize(false);
    let second = r.serialize(false);
    assert_eq!(first, second);
    assert_eq!(r.headers.len(), 4);
}
