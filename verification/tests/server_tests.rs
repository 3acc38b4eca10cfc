use localhost::config::{Config, ServerConfig};
use localhost::config_parser::listener_groups;
use localhost::request::Request;
use localhost::server::{
    build_cgi_response, client_event_plan, ipv4_text, parse_ipv4, select_server, timeout_action,
    EventPlan, TimeoutAction,
};

fn req_with_host(host: Option<&str>) -> Request {
    Request {
        method: "GET".to_string(),
        target: "/".to_string(),
        path: "/".to_string(),
        query: String::new(),
        version: "HTTP/1.1".to_string(),
        headers: host
            .map(|h| vec![("Host".to_string(), h.to_string())])
            .unwrap_or_default(),
        body: Vec::new(),
    }
}

fn config() -> Config {
    let mut a = ServerConfig::default();
    a.server_names = vec!["one.test".to_string()];
    a.ports = vec![8080];
    let mut b = ServerConfig::default();
    b.server_names = vec!["two.test".to_string(), "alias.test".to_string()];
    b.ports = vec![8080, 9090];
    Config { servers: vec![a, b] }
}

#[test]
fn selects_server_by_host_name() {
    let cfg = config();
    assert_eq!(select_server(&cfg, &[0, 1], &req_with_host(Some("alias.test:8080"))), 1);
    assert_eq!(select_server(&cfg, &[0, 1], &req_with_host(Some("one.test"))), 0);
}

#[test]
fn falls_back_to_first_server() {
    let cfg = config();
    assert_eq!(select_server(&cfg, &[1, 0], &req_with_host(Some("nobody.test"))), 1);
    assert_eq!(select_server(&cfg, &[1, 0], &req_with_host(None)), 1);
    assert_eq!(select_server(&cfg, &[1], &req_with_host(Some("one.test"))), 1);
}

#[test]
fn cgi_output_with_status_header() {
    let out = b"Status: 404 Not Found\r\nContent-Type: text/plain\r\n\r\nmissing";
    let resp = build_cgi_response(out).unwrap();
    assert_eq!(resp.status, 404);
    assert_eq!(resp.headers, vec![("Content-Type".to_string(), "text/plain".to_string())]);
    assert_eq!(resp.body, b"missing");
}

#[test]
fn cgi_output_with_bare_newlines() {
    let out = b"X-A: 1\nx-a: 2\nnot a header\n\nbody";
    let resp = build_cgi_response(out).unwrap();
    assert_eq!(resp.status, 200);
    assert_eq!(resp.headers, vec![("X-A".to_string(), "2".to_string())]);
    assert_eq!(resp.body, b"body");
}

#[test]
fn cgi_output_with_bad_status_is_200() {
    let resp = build_cgi_response(b"Status: abc\r\n\r\n").unwrap();
    assert_eq!(resp.status, 200);
    assert!(resp.body.is_empty());
}

#[test]
fn cgi_output_without_headers_is_plain_text() {
    let resp = build_cgi_response(b"just text").unwrap();
    assert_eq!(resp.status, 200);
    assert_eq!(
        resp.headers,
        vec![("Content-Type".to_string(), "text/plain; charset=utf-8".to_string())]
    );
    assert_eq!(resp.body, b"just text");
}

#[test]
fn empty_cgi_output_is_a_failure() {
    assert!(build_cgi_response(b"").is_none());
}

#[test]
fn parses_listen_addresses() {
    assert_eq!(parse_ipv4("*"), Some(0));
    assert_eq!(parse_ipv4("0.0.0.0"), Some(0));
    assert_eq!(parse_ipv4("localhost"), Some(u32::from_le_bytes([127, 0, 0, 1])));
    assert_eq!(parse_ipv4("10.1.2.3"), Some(u32::from_le_bytes([10, 1, 2, 3])));
    assert_eq!(parse_ipv4("1.2.3"), None);
    assert_eq!(parse_ipv4("256.0.0.1"), None);
    assert_eq!(parse_ipv4("a.b.c.d"), None);
}

#[test]
fn timeouts() {
    assert_eq!(timeout_action(true, false, false, 15_000_000_001), TimeoutAction::GatewayTimeout);
    assert_eq!(timeout_action(true, false, false, 15_000_000_000), TimeoutAction::Wait);
    assert_eq!(timeout_action(false, false, true, 60_000_000_001), TimeoutAction::RequestTimeout);
    assert_eq!(timeout_action(false, true, true, 60_000_000_001), TimeoutAction::Close);
    assert_eq!(timeout_action(false, false, false, 60_000_000_001), TimeoutAction::Close);
    assert_eq!(timeout_action(false, false, true, 59_000_000_000), TimeoutAction::Wait);
}

#[test]
fn groups_listeners_by_endpoint() {
    let cfg = config();
    let groups = listener_groups(&cfg.servers);
    assert_eq!(groups.len(), 2);
    assert_eq!(groups[0], ("0.0.0.0".to_string(), 8080, vec![0, 1]));
    assert_eq!(groups[1], ("0.0.0.0".to_string(), 9090, vec![1]));
}

#[test]
fn peer_addresses_are_dotted() {
    assert_eq!(ipv4_text(u32::from_le_bytes([192, 168, 0, 254])), "192.168.0.254");
    assert_eq!(ipv4_text(0), "0.0.0.0");
    let a = u32::from_le_bytes([10, 20, 30, 40]);
    assert_eq!(parse_ipv4(&ipv4_text(a)), Some(a));
}

#[test]
fn client_events() {
    assert_eq!(client_event_plan(true, false, true), EventPlan::Close);
    assert_eq!(client_event_plan(true, true, false), EventPlan::Serve { read: true, write: false });
    assert_eq!(client_event_plan(false, false, true), EventPlan::Serve { read: false, write: true });
}
