use localhost::upload::{parse_multipart, sanitize_filename};

#[test]
fn parses_single_file_part() {
    let body = b"------b\r\nContent-Disposition: form-data; name=\"file\"; filename=\"a.txt\"\r\nContent-Type: text/plain\r\n\r\nhello\r\n------b--\r\n";
    let files = parse_multipart(body, "----b");
    assert_eq!(files.len(), 1);
    assert_eq!(files[0].filename, "a.txt");
    assert_eq!(files[0].data, b"hello");
}

#[test]
fn sanitizes_traversal() {
    assert_eq!(sanitize_filename("../../etc/passwd"), "passwd");
    assert_eq!(sanitize_filename("..\\..\\evil.exe"), "evil.exe");
    assert_eq!(sanitize_filename(".."), "upload.bin");
}
