use localhost::config_parser::parse_str;

#[test]
fn parses_minimal_config() {
    let cfg = parse_str(
        r#"
            server {
                listen 8080
                location / {
                    root ./www/html
                    index index.html
                    methods GET POST DELETE
                    autoindex on
                }
            }
            "#,
    )
    .unwrap();
    assert_eq!(cfg.servers.len(), 1);
    let s = &cfg.servers[0];
    assert_eq!(s.ports, vec![8080]);
    assert_eq!(s.routes.len(), 1);
    assert_eq!(s.routes[0].root, Some("./www/html".to_string()));
    assert!(s.routes[0].autoindex);
}

#[test]
fn parses_multiple_servers_and_redirects() {
    let cfg = parse_str(
        r#"
            server {
                listen 127.0.0.1:8080
                server_name example.com
                client_max_body_size 10M
                error_page 404 /errors/404.html

                location /old {
                    return 301 /new
                }
            }
            server {
                listen 8081
                location / {
                    root ./www
                }
            }
            "#,
    )
    .unwrap();
    assert_eq!(cfg.servers.len(), 2);
    assert_eq!(cfg.servers[0].host, "127.0.0.1");
    assert_eq!(cfg.servers[0].client_max_body_size, 10 * 1024 * 1024);
    assert_eq!(
        cfg.servers[0].routes[0].redirect,
        Some((301, "/new".to_string()))
    );
}

#[test]
fn rejects_unknown_directive() {
    let err = parse_str(
        r#"
            server {
                bogus value
            }
            "#,
    )
    .unwrap_err();
    assert!(err.contains("unknown directive"));
}

#[test]
fn rejects_duplicate_listen_in_same_server() {
    let err = parse_str(
        r#"
            server {
                listen 127.0.0.1:8080
                listen 127.0.0.1:8080
            }
            "#,
    )
    .unwrap_err();
    assert!(err.contains("duplicate listen directive"));
}

#[test]
fn allows_shared_listener_for_distinct_server_names() {
    let cfg = parse_str(
        r#"
            server {
                listen 127.0.0.1:8080
                server_name one.test
            }
            server {
                listen 127.0.0.1:8080
                server_name two.test
            }
            "#,
    )
    .unwrap();
    assert_eq!(cfg.servers.len(), 2);
}

#[test]
fn rejects_shared_listener_without_distinct_names() {
    let err = parse_str(
        r#"
            server {
                listen 127.0.0.1:8080
            }
            server {
                listen 127.0.0.1:8080
            }
            "#,
    )
    .unwrap_err();
    assert!(err.contains("duplicate listen endpoint"));
}
