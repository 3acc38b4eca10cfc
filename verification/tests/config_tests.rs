use localhost::config::{Method, Route, ServerConfig};
use localhost::config_parser::{parse_config, parse_str, ConfigFailure};

#[test]
fn longest_route_prefix_wins() {
    let mut s = ServerConfig::default();
    s.routes = vec![
        Route::new("/".to_string()),
        Route::new("/images".to_string()),
        Route::new("/images/icons".to_string()),
    ];
    assert_eq!(s.match_route("/images/icons/a.png").unwrap().path, "/images/icons");
    assert_eq!(s.match_route("/images/b.png").unwrap().path, "/images");
    assert_eq!(s.match_route("/imagesx").unwrap().path, "/");
    assert_eq!(s.match_route("/images").unwrap().path, "/images");
}

#[test]
fn no_route_without_prefix() {
    let mut s = ServerConfig::default();
    s.routes = vec![Route::new("/api".to_string())];
    assert!(s.match_route("/other").is_none());
}

#[test]
fn method_names_round_trip() {
    for m in [Method::Get, Method::Post, Method::Delete] {
        assert_eq!(Method::from_str(m.as_str()), Some(m));
    }
    assert_eq!(Method::from_str("get"), None);
}

#[test]
fn defaults() {
    let s = ServerConfig::default();
    assert_eq!(s.host, "0.0.0.0");
    assert_eq!(s.client_max_body_size, 1024 * 1024);
    let r = Route::new("/x".to_string());
    assert_eq!(r.methods, vec![Method::Get]);
    assert!(r.root.is_none());
}

#[test]
fn size_suffixes_and_overflow() {
    let cfg = parse_str("server {\n listen 80\n client_max_body_size 2k\n}\n").unwrap();
    assert_eq!(cfg.servers[0].client_max_body_size, 2048);
    match parse_config("server {\n listen 80\n client_max_body_size 99999999999999999999G\n}\n") {
        Err(ConfigFailure::Message(m)) => assert!(m.contains("invalid size value"), "{}", m),
        _ => panic!("expected a message"),
    }
    match parse_config("server {\n listen 80\n client_max_body_size 18014398509481984G\n}\n") {
        Err(ConfigFailure::SizeOverflow) => {}
        _ => panic!("expected an overflow"),
    }
}

#[test]
fn empty_config_is_refused() {
    let err = parse_str("# nothing here\n").unwrap_err();
    assert!(err.contains("at least one 'server' block"));
}
