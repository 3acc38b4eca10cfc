use std::path::PathBuf;

use localhost::config::Route;
use localhost::path_resolve::resolve;

fn route(path: &str, root: &str) -> Route {
    let mut r = Route::new(path.to_string());
    r.root = Some(root.to_string());
    r
}

#[test]
fn resolves_simple_path() {
    let r = route("/", "./www/html");
    assert_eq!(
        resolve(&r, "/index.html").map(PathBuf::from),
        Some(PathBuf::from("./www/html/index.html"))
    );
}

#[test]
fn resolves_prefixed_route() {
    let r = route("/uploads", "./www/uploads");
    assert_eq!(
        resolve(&r, "/uploads/a.txt").map(PathBuf::from),
        Some(PathBuf::from("./www/uploads/a.txt"))
    );
}

#[test]
fn rejects_path_traversal() {
    let r = route("/", "./www/html");
    assert_eq!(resolve(&r, "/../../etc/passwd"), None);
    assert_eq!(resolve(&r, "/foo/../../etc/passwd"), None);
}
