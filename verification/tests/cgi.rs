use localhost::cgi::{
    cgi_command, parse_cgi_output, setup_cgi_env, spawn_cgi, CgiError, Pipe, SpawnEvent,
};
use localhost::request::{Method, Request};
use localhost::string_map::StringMap;

fn request(method: Method, body: &[u8], fields: Vec<(&str, &str)>) -> Request {
    let mut headers = StringMap::new();
    for (k, v) in fields {
        headers.insert(k.to_string(), v.to_string());
    }
    Request {
        method,
        uri: "/cgi-bin/hello.py".to_string(),
        version: "HTTP/1.1".to_string(),
        headers,
        body: body.to_vec(),
        query_string: "a=1".to_string(),
    }
}

#[test]
fn output_with_headers() {
    let r = parse_cgi_output(b"Content-Type: text/plain\r\nSTATUS: 404 Not Found\r\nbad\r\n\r\nbody".to_vec());
    assert_eq!(r.status, 404);
    assert_eq!(r.headers, vec![("Content-Type".to_string(), "text/plain".to_string())]);
    assert_eq!(r.body, b"body");
}

#[test]
fn output_with_plain_line_ends() {
    let r = parse_cgi_output(b"Content-Type: text/html\n\n<h1>Hello from CGI</h1>\n".to_vec());
    assert_eq!(r.status, 200);
    assert_eq!(r.headers, vec![("Content-Type".to_string(), "text/html".to_string())]);
    assert_eq!(r.body, b"<h1>Hello from CGI</h1>\n");
    let both = parse_cgi_output(b"A: 1\n\nx\r\n\r\ny".to_vec());
    assert_eq!(both.body, b"y");
}

#[test]
fn output_without_headers() {
    let r = parse_cgi_output(b"just text".to_vec());
    assert_eq!(r.status, 200);
    assert!(r.headers.is_empty());
    assert_eq!(r.body, b"just text");
    let unreadable = parse_cgi_output(b"A: \xff\n\nx".to_vec());
    assert!(unreadable.headers.is_empty());
    assert_eq!(unreadable.body, b"x");
    let wrong = parse_cgi_output(b"Status: none\n\n".to_vec());
    assert_eq!(wrong.status, 200);
    assert!(wrong.headers.is_empty());
    assert!(wrong.body.is_empty());
}

fn pair(k: &str, v: &str) -> (String, String) {
    (k.to_string(), v.to_string())
}

#[test]
fn environment_of_a_script() {
    let req = request(
        Method::Post,
        b"xyz",
        vec![("content-type", "text/plain"), ("host", "h:1"), ("cookie", "c=d")],
    );
    assert_eq!(
        setup_cgi_env("/w/s.py", &req),
        vec![
            pair("REQUEST_METHOD", "POST"),
            pair("PATH_INFO", "/w/s.py"),
            pair("SCRIPT_FILENAME", "/w/s.py"),
            pair("QUERY_STRING", "a=1"),
            pair("CONTENT_LENGTH", "3"),
            pair("CONTENT_TYPE", "text/plain"),
            pair("SERVER_PROTOCOL", "HTTP/1.1"),
            pair("GATEWAY_INTERFACE", "CGI/1.1"),
            pair("SERVER_SOFTWARE", "localhost/1.0"),
            pair("HTTP_HOST", "h:1"),
            pair("HTTP_COOKIE", "c=d"),
        ]
    );
    let bare = setup_cgi_env("s", &request(Method::Get, b"", vec![]));
    assert_eq!(bare.len(), 9);
    assert_eq!(bare[5], pair("CONTENT_TYPE", ""));
}

#[test]
fn scripts_are_named_by_their_absolute_path() {
    let req = request(Method::Get, b"", vec![]);
    let c = cgi_command("./www/cgi-bin/hello.py", &req, "/usr/bin/python3", "/srv");
    assert_eq!(c.script, "/srv/./www/cgi-bin/hello.py");
    assert_eq!(c.directory, "/srv/./www/cgi-bin");
    assert_eq!(c.binary, "/usr/bin/python3");
    assert_eq!(c.environment[2], pair("SCRIPT_FILENAME", "/srv/./www/cgi-bin/hello.py"));
    let absolute = cgi_command("/x/y.sh", &req, "/bin/sh", "/srv");
    assert_eq!(absolute.script, "/x/y.sh");
    assert_eq!(absolute.directory, "/x");
}

const INPUT: Pipe = Pipe { read: 3, write: 4 };
const OUTPUT: Pipe = Pipe { read: 5, write: 6 };

#[test]
fn pipes_of_a_script() {
    let with_body = request(Method::Post, b"body", vec![]);
    let without = request(Method::Get, b"", vec![]);
    let (p, close) = spawn_cgi(SpawnEvent::Forked { pid: 9, input: INPUT, output: OUTPUT }, &with_body);
    let p = p.unwrap();
    assert_eq!(p.pid, 9);
    assert_eq!(p.stdin_fd, Some(4));
    assert_eq!(p.stdout_fd, 5);
    assert_eq!(p.stdin_data, b"body");
    assert_eq!(p.stdin_offset, 0);
    assert_eq!(close, vec![3, 6]);
    let (p, close) = spawn_cgi(SpawnEvent::Forked { pid: 9, input: INPUT, output: OUTPUT }, &without);
    assert_eq!(p.unwrap().stdin_fd, None);
    assert_eq!(close, vec![3, 6, 4]);
}

#[test]
fn scripts_that_do_not_start() {
    let req = request(Method::Get, b"", vec![]);
    let (r, close) = spawn_cgi(SpawnEvent::NoInputPipe, &req);
    assert_eq!(r.err().unwrap().message(), "pipe() failed");
    assert!(close.is_empty());
    let (r, close) = spawn_cgi(SpawnEvent::NoOutputPipe { input: INPUT }, &req);
    assert!(matches!(r, Err(CgiError::PipeFailed)));
    assert_eq!(close, vec![3, 4]);
    let (r, close) = spawn_cgi(SpawnEvent::NoProcess { input: INPUT, output: OUTPUT }, &req);
    assert_eq!(r.err().unwrap().message(), "fork() failed");
    assert_eq!(close, vec![3, 4, 5, 6]);
}
