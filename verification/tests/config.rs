use localhost::config::{
    directive_value, parse_config, parse_config_str, parse_size, validate_config, Config,
    RouteConfig, ServerConfig,
};
use std::collections::HashMap;

fn chars(s: &str) -> Vec<char> {
    s.chars().collect()
}

fn server(host: &str, ports: Vec<u16>, names: Vec<&str>) -> ServerConfig {
    ServerConfig {
        host: host.to_string(),
        ports,
        server_names: names.iter().map(|n| n.to_string()).collect(),
        error_pages: HashMap::new(),
        client_max_body_size: 1024,
        routes: Vec::new(),
    }
}

fn parse(text: &str) -> Config {
    parse_config_str(text).unwrap()
}

#[test]
fn test_basic_config() {
    let cfg = r#"
server {
    host 127.0.0.1;
    listen 8080;
    server_name localhost;
    client_max_body_size 10M;

    location / {
        root /var/www/html;
        index index.html;
        allow_methods GET POST;
        autoindex off;
    }
}
"#;
    let config = parse_config_str(cfg).unwrap();
    assert_eq!(config.servers.len(), 1);
    let s = &config.servers[0];
    assert_eq!(s.host, "127.0.0.1");
    assert_eq!(s.ports, vec![8080]);
    assert_eq!(s.client_max_body_size, 10 * 1024 * 1024);
    assert_eq!(s.routes.len(), 1);
    assert_eq!(s.routes[0].path, "/");
    assert_eq!(s.routes[0].root, Some("/var/www/html".to_string()));
}

#[test]
fn test_parse_size() {
    assert_eq!(parse_size("10M").unwrap(), 10 * 1024 * 1024);
    assert_eq!(parse_size("512K").unwrap(), 512 * 1024);
    assert_eq!(parse_size("1024").unwrap(), 1024);
}

#[test]
fn sizes_in_lower_case_and_wrong_sizes() {
    assert_eq!(parse_size("3m").unwrap(), 3 * 1024 * 1024);
    assert_eq!(parse_size("7k").unwrap(), 7 * 1024);
    assert_eq!(parse_size("+12").unwrap(), 12);
    assert_eq!(parse_size("ten").unwrap_err(), "Invalid size: ten");
    assert_eq!(parse_size("1.5M").unwrap_err(), "Invalid size: 1.5M");
    assert_eq!(parse_size("").unwrap_err(), "Invalid size: ");
    assert_eq!(parse_size("-1").unwrap_err(), "Invalid size: -1");
}

const EXAMPLE: &str = "
server {
    host 0.0.0.0;
    listen 8080;
    listen 8443;
    server_name localhost mysite.local;
    client_max_body_size 10M;

    error_page 404 ./www/errors/404.html;
    error_page 500 ./www/errors/500.html;

    location / {
        root ./www;
        index index.html;
        allow_methods GET POST DELETE;
        autoindex on;
    }

    location /upload {
        allow_methods POST;
        upload_dir ./www/uploads;
    }

    location /old-page {
        return 301 /new-page;
    }

    location /cgi-bin {
        root ./www/cgi-bin;
        allow_methods GET POST;
        cgi_extension .py;
    }
}

server {
    host 0.0.0.0;
    listen 9090;
    server_name api.local;

    location / {
        root ./api;
        allow_methods GET POST;
    }
}
";

#[test]
fn whole_example() {
    let config = parse(EXAMPLE);
    assert_eq!(config.servers.len(), 2);
    let s = &config.servers[0];
    assert_eq!(s.host, "0.0.0.0");
    assert_eq!(s.ports, vec![8080, 8443]);
    assert_eq!(s.server_names, vec!["localhost", "mysite.local"]);
    assert_eq!(s.client_max_body_size, 10485760);
    assert_eq!(s.error_pages.len(), 2);
    assert_eq!(s.error_pages[&404], "./www/errors/404.html");
    assert_eq!(s.error_pages[&500], "./www/errors/500.html");
    assert_eq!(s.routes.len(), 4);
    let root: &RouteConfig = &s.routes[0];
    assert_eq!(root.allowed_methods, vec!["GET", "POST", "DELETE"]);
    assert_eq!(root.default_file, Some("index.html".to_string()));
    assert!(root.directory_listing);
    let upload = &s.routes[1];
    assert_eq!(upload.path, "/upload");
    assert_eq!(upload.root, None);
    assert_eq!(upload.upload_dir, Some("./www/uploads".to_string()));
    let old = &s.routes[2];
    assert_eq!(old.redirect, Some((301, "/new-page".to_string())));
    assert_eq!(old.allowed_methods, vec!["GET"]);
    let cgi = &s.routes[3];
    assert_eq!(cgi.cgi_extension, Some(".py".to_string()));
    assert!(!cgi.directory_listing);
    let api = &config.servers[1];
    assert_eq!(api.ports, vec![9090]);
    assert_eq!(api.client_max_body_size, 1024 * 1024);
    assert!(api.error_pages.is_empty());
}

#[test]
fn default_host() {
    let config = parse("server {\n listen 80;\n}\n");
    assert_eq!(config.servers[0].host, "0.0.0.0");
    assert!(config.servers[0].routes.is_empty());
}

#[test]
fn missing_servers_and_ports() {
    assert_eq!(
        parse_config_str("# nothing\n").unwrap_err(),
        "No server blocks found in config"
    );
    assert_eq!(
        parse_config_str("server {\n host 0.0.0.0;\n}\n").unwrap_err(),
        "Server block missing 'listen' directive"
    );
}

#[test]
fn same_port_twice_in_a_block() {
    let e = parse_config_str("server {\n listen 80;\n listen 80;\n}\n").unwrap_err();
    assert_eq!(e, "Duplicate 'listen 80' in the same server block (0.0.0.0)");
}

#[test]
fn conflict_without_names() {
    let servers = vec![server("h", vec![1, 2], vec![]), server("h", vec![2], vec![])];
    assert_eq!(
        validate_config(&servers).unwrap_err(),
        "Conflicting configuration: h:2 is claimed by more than one server block with no \
         distinguishing server_name"
    );
}

#[test]
fn conflict_with_a_common_name() {
    let servers = vec![
        server("h", vec![1], vec!["a", "b"]),
        server("h", vec![1], vec!["b", "c"]),
    ];
    assert!(validate_config(&servers).is_err());
}

#[test]
fn virtual_hosting_is_no_conflict() {
    let names = vec![server("h", vec![1], vec!["a"]), server("h", vec![1], vec!["b"])];
    assert!(validate_config(&names).is_ok());
    let one_named = vec![server("h", vec![1], vec!["a"]), server("h", vec![1], vec![])];
    assert!(validate_config(&one_named).is_ok());
    let hosts = vec![server("g", vec![1], vec![]), server("h", vec![1], vec![])];
    assert!(validate_config(&hosts).is_ok());
    let ports = vec![server("h", vec![1], vec![]), server("h", vec![2], vec![])];
    assert!(validate_config(&ports).is_ok());
}

#[test]
fn unreadable_file() {
    let e = parse_config("x.conf", Err("gone".to_string())).unwrap_err();
    assert_eq!(e, "Cannot read config file 'x.conf': gone");
    let c = parse_config("x.conf", Ok("server {\nlisten 1;\n}\n".to_string())).unwrap();
    assert_eq!(c.servers[0].ports, vec![1]);
}

#[test]
fn directives_end_at_the_semicolon() {
    let line = chars("listen 8080;");
    let value: Option<String> =
        directive_value(&line, "listen").map(|v| v.iter().collect());
    assert_eq!(value, Some("8080".to_string()));
    assert!(directive_value(&line, "host").is_none());
}
