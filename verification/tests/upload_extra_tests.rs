use localhost::upload::{extract_boundary, header_filename, parse_multipart, sanitize_filename};

#[test]
fn boundary_is_taken_from_content_type() {
    assert_eq!(
        extract_boundary("multipart/form-data; boundary=\"abc\""),
        Some("abc".to_string())
    );
    assert_eq!(extract_boundary("multipart/form-data;boundary=x y"), Some("x y".to_string()));
    assert_eq!(extract_boundary("multipart/form-data"), None);
}

#[test]
fn last_filename_wins_and_case_is_ignored() {
    let h = "content-disposition: form-data; filename=\"a\"; filename=b\r\nX-Other: filename=c";
    assert_eq!(header_filename(h), "b");
    assert_eq!(header_filename("Content-Type: text/plain"), "");
}

#[test]
fn parts_without_name_or_blank_line_are_skipped() {
    let body = b"--q\r\nContent-Disposition: form-data; name=\"x\"\r\n\r\nv\r\n--q\r\nContent-Disposition: form-data; filename=\"one\"\r\n\r\n1\r\n--q\r\nno blank line--q\r\nContent-Disposition: form-data; filename=\"two\"\r\n\r\n22--q--";
    let files = parse_multipart(body, "q");
    assert_eq!(files.len(), 2);
    assert_eq!(files[0].filename, "one");
    assert_eq!(files[0].data, b"1");
    assert_eq!(files[1].filename, "two");
    assert_eq!(files[1].data, b"22");
}

#[test]
fn part_headers_are_decoded_lossily() {
    let body = b"--z\r\nContent-Disposition: form-data; filename=\"\xff.txt\"\r\n\r\nd\r\n--z--";
    let files = parse_multipart(body, "z");
    assert_eq!(files.len(), 1);
    assert_eq!(files[0].filename, "\u{fffd}.txt");
}

#[test]
fn sanitized_names_are_plain() {
    for name in ["", ".", "..", "a/..", "/", "x\\", " . "] {
        let s = sanitize_filename(name);
        assert!(!s.is_empty() && s != "." && s != "..");
        assert!(!s.contains('/') && !s.contains('\\'));
    }
    assert_eq!(sanitize_filename("dir/ file.txt "), "file.txt");
}

#[test]
fn sanitizing_twice_changes_nothing() {
    for name in ["../../etc/passwd", "..\\a\\ b .txt", "..", "  x  ", "dir/"] {
        let once = sanitize_filename(name);
        assert_eq!(sanitize_filename(&once), once);
    }
}
