use localhost::dirlisting::{escape_html, render};
use localhost::errors::{default_error_page, description, error_page_path, error_response};
use localhost::config::ServerConfig;
use localhost::mime::mime_type;

#[test]
fn default_error_page_names_code_and_reason() {
    let page = String::from_utf8(default_error_page(404)).unwrap();
    assert!(page.starts_with("<!DOCTYPE html>\n<html lang=\"en\">"));
    assert!(page.contains("<title>404 Not Found</title>"));
    assert!(page.contains("<h1>404</h1>\n    <h2>Not Found</h2>"));
    assert!(page.contains("<p>The requested resource could not be found on this server.</p>"));
    assert!(page.ends_with("</body>\n</html>\n"));
}

#[test]
fn every_default_error_page_names_its_error() {
    for code in [200u16, 400, 413, 431, 505, 599, 999] {
        let page = String::from_utf8(default_error_page(code)).unwrap();
        let reason = localhost::response::reason_phrase(code);
        assert!(page.starts_with("<!DOCTYPE html>"));
        assert!(page.contains(&format!("<title>{} {}</title>", code, reason)));
        assert!(page.contains(&format!("<h1>{}</h1>", code)));
        assert!(page.contains(&format!("<h2>{}</h2>", reason)));
    }
}

#[test]
fn unknown_code_has_generic_description() {
    assert_eq!(description(418), "An error occurred while processing the request.");
    let page = String::from_utf8(default_error_page(504)).unwrap();
    assert!(page.contains("An upstream resource (CGI) took too long to respond."));
}

#[test]
fn error_response_prefers_custom_page() {
    let r = error_response(500, Some(b"oops".to_vec()));
    assert_eq!(r.status, 500);
    assert_eq!(r.body, b"oops");
    let d = error_response(500, None);
    assert_eq!(d.body, default_error_page(500));
    assert_eq!(d.headers, vec![("Content-Type".to_string(), "text/html; charset=utf-8".to_string())]);
}

#[test]
fn error_page_paths_come_from_config() {
    let mut s = ServerConfig::default();
    s.error_pages.insert(404, "/e/404.html".to_string());
    assert_eq!(error_page_path(&s, 404), Some("/e/404.html".to_string()));
    assert_eq!(error_page_path(&s, 500), None);
}

#[test]
fn escapes_html() {
    assert_eq!(escape_html("a&b<c>\"d'"), "a&amp;b&lt;c&gt;&quot;d'");
    assert_eq!(escape_html("&amp;"), "&amp;amp;");
}

#[test]
fn listing_of_root_has_no_parent_link() {
    let html = String::from_utf8(render(vec![("x".to_string(), false)], "/")).unwrap();
    assert!(!html.contains("href=\"../\""));
    assert!(html.contains("<title>Index of /</title>"));
    assert!(html.contains("<tr><td><a href=\"x\">x</a></td><td class=\"kind\">File</td></tr>\n"));
}

#[test]
fn listing_escapes_the_path() {
    let html = String::from_utf8(render(Vec::new(), "/a<b>/")).unwrap();
    assert!(html.contains("<h1>Index of /a&lt;b&gt;/</h1>"));
    assert!(html.contains("<a href=\"../\">..</a>"));
}

#[test]
fn listing_sort_is_stable() {
    let entries = vec![
        ("B".to_string(), false),
        ("b".to_string(), true),
        ("a".to_string(), false),
    ];
    let html = String::from_utf8(render(entries, "/")).unwrap();
    let a = html.find(">a<").unwrap();
    let upper = html.find(">B<").unwrap();
    let lower = html.find(">b/<").unwrap();
    assert!(a < upper && upper < lower);
}

#[test]
fn content_types_by_extension() {
    assert_eq!(mime_type("./www/index.html"), "text/html; charset=utf-8");
    assert_eq!(mime_type("./www/IMG.PNG"), "image/png");
    assert_eq!(mime_type("./www/a.b/readme"), "application/octet-stream");
    assert_eq!(mime_type("./www/.css"), "application/octet-stream");
    assert_eq!(mime_type("style.css"), "text/css; charset=utf-8");
}
