use localhost::config::{Method, Route, ServerConfig};
use localhost::handler::{
    add_session_cookie, build_cgi_request, cgi_interpreter_for, handle_request,
    interpreter_for_extension, resume, script_dir, FileKind, FsAnswer, FsQuery, HandlerResult, RemoveOutcome,
    Step,
};
use localhost::request::Request;
use localhost::response::Response;
use localhost::session::SessionStore;

/// Random bytes for a new session id, all equal to `b`.
fn id_bytes(b: u8) -> [u8; 16] {
    [b; 16]
}

/// The session id made of [`id_bytes`]`(b)`.
fn id_of(b: u8) -> String {
    format!("{:02x}", b).repeat(16)
}

fn request(method: &str, path: &str, headers: &[(&str, &str)], body: &[u8]) -> Request {
    Request {
        method: method.to_string(),
        target: path.to_string(),
        path: path.to_string(),
        query: String::new(),
        version: "HTTP/1.1".to_string(),
        headers: headers
            .iter()
            .map(|(k, v)| (k.to_string(), v.to_string()))
            .collect(),
        body: body.to_vec(),
    }
}

fn server() -> ServerConfig {
    let mut s = ServerConfig::default();
    let mut root = Route::new("/".to_string());
    root.root = Some("./www".to_string());
    root.methods = vec![Method::Get, Method::Post, Method::Delete];
    root.autoindex = true;
    root.cgi = vec![(".py".to_string(), "/usr/bin/python3".to_string())];
    let mut old = Route::new("/old".to_string());
    old.redirect = Some((301, "/new".to_string()));
    let mut ro = Route::new("/ro".to_string());
    ro.root = Some("./www/ro".to_string());
    let mut up = Route::new("/uploads".to_string());
    up.root = Some("./www/uploads".to_string());
    up.methods = vec![Method::Post];
    up.upload_store = Some("./store".to_string());
    s.routes = vec![root, old, ro, up];
    s
}

fn header<'a>(resp: &'a Response, name: &str) -> Option<&'a str> {
    resp.headers
        .iter()
        .find(|(k, _)| k.eq_ignore_ascii_case(name))
        .map(|(_, v)| v.as_str())
}

fn done_response(step: Step) -> Response {
    match step {
        Step::Done(HandlerResult::Response(r)) => r,
        _ => panic!("expected a finished response"),
    }
}

#[test]
fn serves_a_file_after_stat_and_read() {
    let srv = server();
    let mut sessions = SessionStore::new();
    let req = request("GET", "/index.html", &[], b"");
    let step = handle_request(&req, &srv, &mut sessions, &id_bytes(0x11), 0);
    let pending = match step {
        Step::Ask(FsQuery::Stat(p), pending) => {
            assert_eq!(p, "./www/index.html");
            pending
        }
        _ => panic!("expected a stat query"),
    };
    let step = resume(pending, FsAnswer::Kind(FileKind::File), &req, &srv, 8080, "1.2.3.4", 7);
    let pending = match step {
        Step::Ask(FsQuery::Read(p), pending) => {
            assert_eq!(p, "./www/index.html");
            pending
        }
        _ => panic!("expected a read query"),
    };
    let step = resume(pending, FsAnswer::Data(Some(b"<p>hi</p>".to_vec())), &req, &srv, 8080, "1.2.3.4", 7);
    let resp = done_response(step);
    assert_eq!(resp.status, 200);
    assert_eq!(resp.body, b"<p>hi</p>");
    assert_eq!(header(&resp, "Content-Type"), Some("text/html; charset=utf-8"));
    assert_eq!(
        header(&resp, "Set-Cookie"),
        Some(format!("session_id={}; Path=/; HttpOnly", id_of(0x11)).as_str())
    );
}

#[test]
fn known_session_gets_no_cookie() {
    let srv = server();
    let mut sessions = SessionStore::new();
    let first = request("GET", "/nope.txt", &[], b"");
    let _ = handle_request(&first, &srv, &mut sessions, &id_bytes(0xab), 0);
    let again = request("GET", "/old", &[("Cookie", format!("theme=dark; session_id={}", id_of(0xab)).as_str())], b"");
    let resp = done_response(handle_request(&again, &srv, &mut sessions, &id_bytes(0x0e), 5));
    assert_eq!(resp.status, 301);
    assert_eq!(header(&resp, "Location"), Some("/new"));
    assert_eq!(header(&resp, "Set-Cookie"), None);
}

#[test]
fn missing_route_is_404_with_default_page() {
    let mut srv = server();
    srv.routes.retain(|r| r.path != "/");
    let mut sessions = SessionStore::new();
    let req = request("GET", "/elsewhere", &[], b"");
    let resp = done_response(handle_request(&req, &srv, &mut sessions, &id_bytes(0x05), 0));
    assert_eq!(resp.status, 404);
    let body = String::from_utf8(resp.body.clone()).unwrap();
    assert!(body.contains("<title>404 Not Found</title>"));
    assert!(body.contains("The requested resource could not be found on this server."));
}

#[test]
fn custom_error_page_is_read() {
    let mut srv = server();
    srv.error_pages.insert(403, "./errors/403.html".to_string());
    let mut sessions = SessionStore::new();
    let req = request("GET", "/../secret", &[], b"");
    let step = handle_request(&req, &srv, &mut sessions, &id_bytes(0x05), 0);
    let pending = match step {
        Step::Ask(FsQuery::Read(p), pending) => {
            assert_eq!(p, "./errors/403.html");
            pending
        }
        _ => panic!("expected the custom page to be read"),
    };
    let resp = done_response(resume(pending, FsAnswer::Data(Some(b"custom".to_vec())), &req, &srv, 80, "", 0));
    assert_eq!(resp.status, 403);
    assert_eq!(resp.body, b"custom");
}

#[test]
fn unreadable_custom_page_falls_back_to_default() {
    let mut srv = server();
    srv.error_pages.insert(403, "./errors/403.html".to_string());
    let mut sessions = SessionStore::new();
    let req = request("GET", "/../secret", &[], b"");
    let pending = match handle_request(&req, &srv, &mut sessions, &id_bytes(0x05), 0) {
        Step::Ask(_, pending) => pending,
        _ => panic!("expected a query"),
    };
    let resp = done_response(resume(pending, FsAnswer::Data(None), &req, &srv, 80, "", 0));
    assert_eq!(resp.status, 403);
    assert_eq!(resp.body, localhost::errors::default_error_page(403));
}

#[test]
fn disallowed_method_lists_allowed_ones() {
    let srv = server();
    let mut sessions = SessionStore::new();
    let req = request("DELETE", "/ro/a.txt", &[], b"");
    let resp = done_response(handle_request(&req, &srv, &mut sessions, &id_bytes(0x05), 0));
    assert_eq!(resp.status, 405);
    assert_eq!(header(&resp, "Allow"), Some("GET"));
}

#[test]
fn unknown_method_is_501() {
    let srv = server();
    let mut sessions = SessionStore::new();
    let req = request("PATCH", "/index.html", &[], b"");
    let resp = done_response(handle_request(&req, &srv, &mut sessions, &id_bytes(0x05), 0));
    assert_eq!(resp.status, 501);
}

#[test]
fn traversal_is_forbidden() {
    let srv = server();
    let mut sessions = SessionStore::new();
    let req = request("GET", "/a/../../etc/passwd", &[], b"");
    let resp = done_response(handle_request(&req, &srv, &mut sessions, &id_bytes(0x05), 0));
    assert_eq!(resp.status, 403);
}

#[test]
fn directory_without_slash_redirects() {
    let srv = server();
    let mut sessions = SessionStore::new();
    let req = request("GET", "/docs", &[], b"");
    let pending = match handle_request(&req, &srv, &mut sessions, &id_bytes(0x05), 0) {
        Step::Ask(FsQuery::Stat(_), pending) => pending,
        _ => panic!("expected a stat query"),
    };
    let resp = done_response(resume(pending, FsAnswer::Kind(FileKind::Dir), &req, &srv, 80, "", 0));
    assert_eq!(resp.status, 301);
    assert_eq!(header(&resp, "Location"), Some("/docs/"));
}

#[test]
fn directory_listing_is_sorted_case_insensitively() {
    let srv = server();
    let mut sessions = SessionStore::new();
    let req = request("GET", "/docs/", &[], b"");
    let pending = match handle_request(&req, &srv, &mut sessions, &id_bytes(0x05), 0) {
        Step::Ask(FsQuery::Stat(_), pending) => pending,
        _ => panic!("expected a stat query"),
    };
    let pending = match resume(pending, FsAnswer::Kind(FileKind::Dir), &req, &srv, 80, "", 0) {
        Step::Ask(FsQuery::List(p), pending) => {
            assert_eq!(p, "./www/docs");
            pending
        }
        _ => panic!("expected a listing query"),
    };
    let entries = vec![
        ("b.txt".to_string(), false),
        ("A<dir>".to_string(), true),
        ("a.txt".to_string(), false),
    ];
    let resp = done_response(resume(pending, FsAnswer::Entries(Some(entries)), &req, &srv, 80, "", 0));
    assert_eq!(resp.status, 200);
    let html = String::from_utf8(resp.body.clone()).unwrap();
    let first = html.find(">a.txt<").unwrap();
    let second = html.find(">A&lt;dir&gt;/<").unwrap();
    let third = html.find(">b.txt<").unwrap();
    assert!(first < second && second < third);
    assert!(html.contains("<td class=\"kind\">Directory</td>"));
    assert!(html.contains("<a href=\"../\">..</a>"));
}

#[test]
fn deletes_a_file() {
    let srv = server();
    let mut sessions = SessionStore::new();
    let req = request("DELETE", "/old.txt", &[], b"");
    let pending = match handle_request(&req, &srv, &mut sessions, &id_bytes(0x05), 0) {
        Step::Ask(FsQuery::Stat(_), pending) => pending,
        _ => panic!("expected a stat query"),
    };
    let pending = match resume(pending, FsAnswer::Kind(FileKind::File), &req, &srv, 80, "", 0) {
        Step::Ask(FsQuery::Remove(p), pending) => {
            assert_eq!(p, "./www/old.txt");
            pending
        }
        _ => panic!("expected a remove query"),
    };
    let resp = done_response(resume(pending, FsAnswer::Removal(RemoveOutcome::Removed), &req, &srv, 80, "", 0));
    assert_eq!(resp.status, 204);
    assert!(resp.body.is_empty());
}

#[test]
fn delete_denied_is_403_and_missing_is_404() {
    let srv = server();
    let mut sessions = SessionStore::new();
    let req = request("DELETE", "/old.txt", &[], b"");
    let pending = match handle_request(&req, &srv, &mut sessions, &id_bytes(0x05), 0) {
        Step::Ask(_, pending) => pending,
        _ => panic!("expected a query"),
    };
    let pending = match resume(pending, FsAnswer::Kind(FileKind::File), &req, &srv, 80, "", 0) {
        Step::Ask(_, pending) => pending,
        _ => panic!("expected a query"),
    };
    let resp = done_response(resume(pending, FsAnswer::Removal(RemoveOutcome::PermissionDenied), &req, &srv, 80, "", 0));
    assert_eq!(resp.status, 403);

    let pending = match handle_request(&req, &srv, &mut sessions, &id_bytes(0x05), 0) {
        Step::Ask(_, pending) => pending,
        _ => panic!("expected a query"),
    };
    let resp = done_response(resume(pending, FsAnswer::Kind(FileKind::Missing), &req, &srv, 80, "", 0));
    assert_eq!(resp.status, 404);
}

#[test]
fn multipart_upload_is_stored_under_sanitized_names() {
    let srv = server();
    let mut sessions = SessionStore::new();
    let body = b"--XyZ\r\nCONTENT-DISPOSITION: form-data; name=\"f\"; filename=\"../evil.txt\"\r\n\r\nabc\r\n--XyZ--\r\n";
    let req = request(
        "POST",
        "/uploads/",
        &[("Content-Type", "multipart/form-data; boundary=XyZ")],
        body,
    );
    let pending = match handle_request(&req, &srv, &mut sessions, &id_bytes(0x05), 0) {
        Step::Ask(FsQuery::Stat(p), pending) => {
            assert_eq!(p, "./www/uploads");
            pending
        }
        _ => panic!("expected a stat query"),
    };
    let pending = match resume(pending, FsAnswer::Kind(FileKind::Dir), &req, &srv, 80, "", 0) {
        Step::Ask(FsQuery::CreateDirs(d), pending) => {
            assert_eq!(d, "./store");
            pending
        }
        _ => panic!("expected the store to be created"),
    };
    let pending = match resume(pending, FsAnswer::Done(true), &req, &srv, 80, "", 0) {
        Step::Ask(FsQuery::Write(p, data), pending) => {
            assert_eq!(p, "./store/evil.txt");
            assert_eq!(data, b"abc");
            pending
        }
        _ => panic!("expected a write"),
    };
    let resp = done_response(resume(pending, FsAnswer::Done(true), &req, &srv, 80, "", 0));
    assert_eq!(resp.status, 201);
    assert_eq!(resp.body, b"Uploaded 1 file(s): evil.txt\n");
}

#[test]
fn multipart_without_files_is_400() {
    let srv = server();
    let mut sessions = SessionStore::new();
    let body = b"--B\r\nContent-Disposition: form-data; name=\"field\"\r\n\r\nvalue\r\n--B--\r\n";
    let req = request("POST", "/uploads/", &[("Content-Type", "multipart/form-data; boundary=B")], body);
    let pending = match handle_request(&req, &srv, &mut sessions, &id_bytes(0x05), 0) {
        Step::Ask(_, pending) => pending,
        _ => panic!("expected a query"),
    };
    let resp = done_response(resume(pending, FsAnswer::Kind(FileKind::Dir), &req, &srv, 80, "", 0));
    assert_eq!(resp.status, 400);
    assert_eq!(resp.body, b"No file part found in upload\n");
}

#[test]
fn raw_upload_into_directory_names_the_file() {
    let srv = server();
    let mut sessions = SessionStore::new();
    let req = request("POST", "/uploads/", &[], b"hello");
    let pending = match handle_request(&req, &srv, &mut sessions, &id_bytes(0x05), 0) {
        Step::Ask(_, pending) => pending,
        _ => panic!("expected a query"),
    };
    let pending = match resume(pending, FsAnswer::Kind(FileKind::Dir), &req, &srv, 80, "", 42) {
        Step::Ask(FsQuery::CreateDirs(d), pending) => {
            assert_eq!(d, "./www");
            pending
        }
        _ => panic!("expected the parent to be created"),
    };
    let pending = match resume(pending, FsAnswer::Done(true), &req, &srv, 80, "", 42) {
        Step::Ask(FsQuery::Stat(t), pending) => {
            assert_eq!(t, "./www/uploads/upload-42.bin");
            pending
        }
        _ => panic!("expected the target to be examined"),
    };
    let pending = match resume(pending, FsAnswer::Kind(FileKind::Missing), &req, &srv, 80, "", 42) {
        Step::Ask(FsQuery::Write(t, data), pending) => {
            assert_eq!(t, "./www/uploads/upload-42.bin");
            assert_eq!(data, b"hello");
            pending
        }
        _ => panic!("expected a write"),
    };
    let resp = done_response(resume(pending, FsAnswer::Done(true), &req, &srv, 80, "", 42));
    assert_eq!(resp.status, 201);
    assert_eq!(resp.body, b"Saved 5 bytes to ./www/uploads/upload-42.bin\n");
}

#[test]
fn failed_write_is_500() {
    let srv = server();
    let mut sessions = SessionStore::new();
    let req = request("POST", "/notes.txt", &[], b"x");
    let pending = match handle_request(&req, &srv, &mut sessions, &id_bytes(0x05), 0) {
        Step::Ask(_, pending) => pending,
        _ => panic!("expected a query"),
    };
    let pending = match resume(pending, FsAnswer::Kind(FileKind::Missing), &req, &srv, 80, "", 0) {
        Step::Ask(FsQuery::CreateDirs(_), pending) => pending,
        _ => panic!("expected the parent to be created"),
    };
    let pending = match resume(pending, FsAnswer::Done(true), &req, &srv, 80, "", 0) {
        Step::Ask(FsQuery::Stat(p), pending) => {
            assert_eq!(p, "./www/notes.txt");
            pending
        }
        _ => panic!("expected a stat"),
    };
    let pending = match resume(pending, FsAnswer::Kind(FileKind::File), &req, &srv, 80, "", 0) {
        Step::Ask(FsQuery::Stat(_), pending) => pending,
        _ => panic!("expected a stat"),
    };
    let pending = match resume(pending, FsAnswer::Kind(FileKind::File), &req, &srv, 80, "", 0) {
        Step::Ask(FsQuery::Write(_, _), pending) => pending,
        _ => panic!("expected a write"),
    };
    let resp = done_response(resume(pending, FsAnswer::Done(false), &req, &srv, 80, "", 0));
    assert_eq!(resp.status, 500);
}

#[test]
fn cgi_script_is_handed_off_with_its_environment() {
    let srv = server();
    let mut sessions = SessionStore::new();
    let req = request(
        "GET",
        "/app.py",
        &[("Host", "example.com:8080"), ("X-Custom-Thing", "yes"), ("Content-Type", "text/plain")],
        b"",
    );
    let pending = match handle_request(&req, &srv, &mut sessions, &id_bytes(0x19), 0) {
        Step::Ask(_, pending) => pending,
        _ => panic!("expected a query"),
    };
    let pending = match resume(pending, FsAnswer::Kind(FileKind::File), &req, &srv, 8080, "9.9.9.9", 0) {
        Step::Ask(FsQuery::Canonicalize(p), pending) => {
            assert_eq!(p, "./www/app.py");
            pending
        }
        _ => panic!("expected the script path to be made absolute"),
    };
    let step = resume(pending, FsAnswer::Path(Some("/srv/www/app.py".to_string())), &req, &srv, 8080, "9.9.9.9", 0);
    let cgi = match step {
        Step::Done(HandlerResult::Cgi(c)) => c,
        _ => panic!("expected a CGI invocation"),
    };
    assert_eq!(cgi.interpreter, "/usr/bin/python3");
    assert_eq!(cgi.script_path, "/srv/www/app.py");
    assert_eq!(cgi.cwd, "/srv/www");
    assert_eq!(cgi.session_id, id_of(0x19));
    assert!(cgi.new_session);
    let env = |k: &str| {
        cgi.env
            .iter()
            .find(|(n, _)| n == k)
            .map(|(_, v)| v.clone())
    };
    assert_eq!(env("SERVER_NAME"), Some("example.com".to_string()));
    assert_eq!(env("SERVER_PORT"), Some("8080".to_string()));
    assert_eq!(env("REMOTE_ADDR"), Some("9.9.9.9".to_string()));
    assert_eq!(env("HTTP_X_CUSTOM_THING"), Some("yes".to_string()));
    assert_eq!(env("CONTENT_TYPE"), Some("text/plain".to_string()));
    assert_eq!(env("CONTENT_LENGTH"), Some("0".to_string()));
    assert_eq!(env("HTTP_CONTENT_TYPE"), None);
    assert_eq!(cgi.env[0], ("GATEWAY_INTERFACE".to_string(), "CGI/1.1".to_string()));
}

#[test]
fn build_cgi_request_defaults() {
    let req = request("POST", "/x.py", &[], b"abc");
    let cgi = build_cgi_request(&req, "x.py".to_string(), "perl".to_string(), 80, "::1");
    assert_eq!(cgi.cwd, "/");
    assert_eq!(cgi.body, b"abc");
    let name = cgi.env.iter().find(|(k, _)| k == "SERVER_NAME").unwrap();
    assert_eq!(name.1, "localhost");
    let len = cgi.env.iter().find(|(k, _)| k == "CONTENT_LENGTH").unwrap();
    assert_eq!(len.1, "3");
}

#[test]
fn cgi_interpreter_goes_by_extension() {
    let srv = server();
    let root = &srv.routes[0];
    assert_eq!(cgi_interpreter_for(root, "./www/a.py"), Some("/usr/bin/python3".to_string()));
    assert_eq!(cgi_interpreter_for(root, "./www/a.pyc"), None);
    assert_eq!(cgi_interpreter_for(root, "./www/.py"), None);
    assert_eq!(interpreter_for_extension(root, Some("py".to_string())), Some("/usr/bin/python3".to_string()));
    assert_eq!(interpreter_for_extension(root, None), None);
}

#[test]
fn session_page_counts_visits() {
    let srv = server();
    let mut sessions = SessionStore::new();
    let req = request("GET", "/session", &[], b"");
    let resp = done_response(handle_request(&req, &srv, &mut sessions, &id_bytes(0x01), 0));
    let html = String::from_utf8(resp.body.clone()).unwrap();
    assert!(html.contains(&format!("<code>{}</code>", id_of(0x01))));
    assert!(html.contains("<strong>1</strong>"));
    let again = request("GET", "/session", &[("Cookie", format!("session_id={}", id_of(0x01)).as_str())], b"");
    let resp = done_response(handle_request(&again, &srv, &mut sessions, &id_bytes(0x02), 1));
    let html = String::from_utf8(resp.body.clone()).unwrap();
    assert!(html.contains("<strong>2</strong>"));
    assert_eq!(header(&resp, "Set-Cookie"), None);
}

#[test]
fn cookie_is_added_only_for_new_sessions() {
    let mut a = Response::new(200);
    add_session_cookie(&mut a, "zz", true);
    assert_eq!(a.headers, vec![("Set-Cookie".to_string(), "session_id=zz; Path=/; HttpOnly".to_string())]);
    let mut b = Response::new(200);
    add_session_cookie(&mut b, "zz", false);
    assert!(b.headers.is_empty());
}

#[test]
fn script_dir_defaults_to_root() {
    assert_eq!(script_dir(Some("/srv/cgi".to_string())), "/srv/cgi");
    assert_eq!(script_dir(Some(String::new())), "/");
    assert_eq!(script_dir(None), "/");
}
