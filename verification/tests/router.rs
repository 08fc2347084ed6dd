use localhost::config::{RouteConfig, ServerConfig};
use localhost::request::{Method, Request};
use localhost::router::{match_route, match_server};
use localhost::string_map::StringMap;
use std::collections::HashMap;

fn make_server(port: u16, routes: Vec<RouteConfig>) -> ServerConfig {
    ServerConfig {
        host: "0.0.0.0".to_string(),
        ports: vec![port],
        server_names: vec!["localhost".to_string()],
        error_pages: HashMap::new(),
        client_max_body_size: 1024 * 1024,
        routes,
    }
}

fn make_route(path: &str) -> RouteConfig {
    RouteConfig {
        path: path.to_string(),
        allowed_methods: vec!["GET".to_string()],
        redirect: None,
        root: Some("/var/www".to_string()),
        default_file: None,
        cgi_extension: None,
        directory_listing: false,
        upload_dir: None,
    }
}

fn make_request(uri: &str) -> Request {
    Request {
        method: Method::Get,
        uri: uri.to_string(),
        version: "HTTP/1.1".to_string(),
        headers: StringMap::new(),
        body: Vec::new(),
        query_string: String::new(),
    }
}

#[test]
fn test_longest_prefix_match() {
    let server = make_server(8080, vec![make_route("/"), make_route("/api")]);
    let req = make_request("/api/users");
    let m = match_route(&server, &req).unwrap();
    assert_eq!(m.route.path, "/api");
}

#[test]
fn test_root_fallback() {
    let server = make_server(8080, vec![make_route("/"), make_route("/api")]);
    let req = make_request("/about");
    let m = match_route(&server, &req).unwrap();
    assert_eq!(m.route.path, "/");
}

#[test]
fn a_location_ends_with_a_segment() {
    let server = make_server(1, vec![make_route("/api")]);
    assert!(match_route(&server, &make_request("/apix")).is_none());
    assert!(match_route(&server, &make_request("/api")).is_some());
    assert!(match_route(&server, &make_request("/api/")).is_some());
    assert!(match_route(&server, &make_request("/")).is_none());
}

#[test]
fn of_equal_locations_the_last() {
    let mut second = make_route("/a");
    second.root = Some("/other".to_string());
    let server = make_server(1, vec![make_route("/a"), second]);
    let m = match_route(&server, &make_request("/a/b")).unwrap();
    assert_eq!(m.route.root, Some("/other".to_string()));
}

#[test]
fn server_selection() {
    let mut a = make_server(80, Vec::new());
    a.server_names = vec!["a".to_string()];
    let mut b = make_server(80, Vec::new());
    b.server_names = vec!["b".to_string(), "c".to_string()];
    let mut c = make_server(81, Vec::new());
    c.server_names = vec!["c".to_string()];
    let servers = vec![a, b, c];
    assert_eq!(match_server(&servers, "b", 80).server_names[0], "b");
    assert_eq!(match_server(&servers, "c:80", 80).server_names[0], "b");
    assert_eq!(match_server(&servers, "c:81", 81).server_names[0], "c");
    assert_eq!(match_server(&servers, "unknown", 80).server_names[0], "a");
    assert_eq!(match_server(&servers, "", 81).server_names[0], "c");
    assert_eq!(match_server(&servers, "c", 99).server_names[0], "a");
}
