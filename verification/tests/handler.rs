use localhost::cgi::{CgiError, CgiProcess, CgiResponse};
use localhost::config::{parse_config_str, Config};
use localhost::handler::{
    cgi_response_to_http, cgi_spawned, directory_probed, error_page_read, file_probed, file_removed,
    handle, index_probed, mime_type, removal_probed, script_probed, serve_directory_listing,
    serve_file, serve_file_at, uploads_saved, HandleOutcome, Step,
};
use localhost::request::{Method, Request};
use localhost::response::{default_error_page, Response};
use localhost::session::{session_id_at, SessionStore};
use localhost::string_map::StringMap;
use std::collections::HashMap;

const CONFIG: &str = "
server {
    listen 80;
    server_name one;
    error_page 404 /pages/404;
    error_page 405 /pages/405;
    error_page 500 /pages/500;
    error_page 400 /pages/400;
    location / {
        root /www;
        index index.html;
        allow_methods GET POST DELETE PUT;
    }
    location /list {
        root /list;
        autoindex on;
    }
    location /bare {
        root /bare;
    }
    location /up {
        allow_methods post;
        upload_dir /up;
    }
    location /none {
        allow_methods GET POST;
    }
    location /old {
        return 302 /new;
    }
    location /cgi {
        root /cgi;
        allow_methods GET POST;
        cgi_extension .py;
    }
    location /odd {
        root /odd;
        cgi_extension .rb;
    }
}
server {
    listen 80;
    server_name two;
    location /x {
        root /x;
    }
}
";

/// What the file system holds: directories with their names, and files with their contents.
struct World {
    dirs: HashMap<String, Vec<String>>,
    files: HashMap<String, Vec<u8>>,
    unreadable: Vec<String>,
    saves: bool,
    spawns: bool,
    now: u64,
    removed: Vec<String>,
    saved_to: Option<(String, String)>,
    spawned: Option<(String, String)>,
}

fn world() -> World {
    World {
        dirs: HashMap::new(),
        files: HashMap::new(),
        unreadable: Vec::new(),
        saves: true,
        spawns: true,
        now: 5000,
        removed: Vec::new(),
        saved_to: None,
        spawned: None,
    }
}

impl World {
    fn file(mut self, path: &str, contents: &str) -> World {
        self.files.insert(path.to_string(), contents.as_bytes().to_vec());
        self
    }
    fn dir(mut self, path: &str, names: Vec<&str>) -> World {
        let names = names.iter().map(|n| n.to_string()).collect();
        self.dirs.insert(path.to_string(), names);
        self
    }
    fn there(&self, path: &str) -> bool {
        self.dirs.contains_key(path) || self.files.contains_key(path)
    }
    fn read(&self, path: &str) -> Option<Vec<u8>> {
        if self.unreadable.iter().any(|p| p == path) {
            None
        } else {
            self.files.get(path).cloned()
        }
    }

    fn run(&mut self, step: Step, req: &Request, sessions: &mut SessionStore) -> HandleOutcome {
        let mut step = step;
        let mut asked = 0;
        loop {
            assert!(asked <= 5);
            asked += 1;
            step = match step {
                Step::Done(outcome) => return outcome,
                Step::ReadErrorPage { response, path } => {
                    error_page_read(response, self.read(&path))
                }
                Step::ProbeDirectory { m, path } => {
                    let is_dir = self.dirs.contains_key(&path);
                    directory_probed(path, is_dir, m)
                }
                Step::ProbeIndex { m, dir, index } => {
                    let found = self.there(&index);
                    index_probed(dir, index, found, m)
                }
                Step::ProbeFile { m, path } => {
                    let found = self.there(&path);
                    file_probed(path, found, m)
                }
                Step::ReadFile { m, path } => {
                    let contents = self.read(&path);
                    serve_file_at(&path, contents, sessions, req, m, self.now)
                }
                Step::ListDirectory { m, path } => {
                    let names = if self.unreadable.contains(&path) {
                        None
                    } else {
                        self.dirs.get(&path).cloned()
                    };
                    serve_directory_listing(names, req, m)
                }
                Step::ProbeRemoval { m, path } => {
                    let found = self.there(&path);
                    removal_probed(path, found, m)
                }
                Step::RemoveFile { m, path } => {
                    let removed = self.files.remove(&path).is_some();
                    self.removed.push(path);
                    file_removed(removed, m)
                }
                Step::SaveUploads { m, dir, boundary } => {
                    self.saved_to = Some((dir, boundary));
                    let names = vec!["a".to_string(), "b".to_string()];
                    uploads_saved(if self.saves { Some(names) } else { None }, m)
                }
                Step::ProbeScript { m, script, binary } => {
                    let found = self.there(&script);
                    script_probed(script, binary, found, m)
                }
                Step::Spawn { m, script, binary } => {
                    self.spawned = Some((script, binary.to_string()));
                    let process = CgiProcess {
                        pid: 7,
                        stdin_fd: None,
                        stdin_data: Vec::new(),
                        stdin_offset: 0,
                        stdout_fd: 8,
                    };
                    let result = if self.spawns { Ok(process) } else { Err(CgiError::ForkFailed) };
                    cgi_spawned(result, m)
                }
            };
        }
    }
}

fn config() -> Config {
    parse_config_str(CONFIG).unwrap()
}

fn request(method: &str, uri: &str, fields: Vec<(&str, &str)>) -> Request {
    let mut headers = StringMap::new();
    for (k, v) in fields {
        headers.insert(k.to_string(), v.to_string());
    }
    Request {
        method: Method::from_str(method),
        uri: uri.to_string(),
        version: "HTTP/1.1".to_string(),
        headers,
        body: Vec::new(),
        query_string: String::new(),
    }
}

fn outcome(w: &mut World, req: &Request) -> HandleOutcome {
    let config = config();
    let mut sessions = SessionStore::new();
    w.run(handle(req, &config.servers, 80), req, &mut sessions)
}

fn respond(w: &mut World, req: &Request) -> Response {
    match outcome(w, req) {
        HandleOutcome::Response(r) => r,
        HandleOutcome::Cgi(_) => panic!("a script"),
    }
}

fn field(r: &Response, name: &str) -> String {
    r.headers.get(name).unwrap().clone()
}

#[test]
fn files_are_served() {
    let mut w = world().file("/www/a/b.css", "body");
    let r = respond(&mut w, &request("GET", "/a/b.css", vec![]));
    assert_eq!(r.status, 200);
    assert_eq!(r.body, b"body");
    assert_eq!(field(&r, "Content-Type"), "text/css");
    assert_eq!(field(&r, "Content-Length"), "4");
    assert_eq!(
        field(&r, "Set-Cookie"),
        format!("session_id={}; HttpOnly; Path=/", session_id_at(5000))
    );
}

#[test]
fn default_files_of_directories() {
    let mut w = world().dir("/www/", vec![]).file("/www/index.html", "home");
    let r = respond(&mut w, &request("GET", "/", vec![]));
    assert_eq!(r.body, b"home");
    assert_eq!(field(&r, "Content-Type"), "text/html; charset=utf-8");
    let mut empty = world().dir("/www/", vec![]);
    assert_eq!(respond(&mut empty, &request("GET", "/", vec![])).status, 403);
}

#[test]
fn directories_are_listed() {
    let mut w = world().dir("/list/d", vec!["x", "y z"]);
    let r = respond(&mut w, &request("GET", "/list/d", vec![]));
    assert_eq!(
        String::from_utf8(r.body.clone()).unwrap(),
        "<!DOCTYPE html><html><head><title>Index of /list/d</title></head>\
         <body><h1>Index of /list/d</h1><ul><li><a href=\"/list/d/x\">x</a></li>\n\
         <li><a href=\"/list/d/y z\">y z</a></li>\n</ul></body></html>"
    );
    assert_eq!(field(&r, "Content-Type"), "text/html; charset=utf-8");
    let mut slash = world().dir("/list/", vec!["x"]);
    let r = respond(&mut slash, &request("GET", "/list/", vec![]));
    assert!(String::from_utf8(r.body).unwrap().contains("<a href=\"/list/x\">x</a>"));
    let mut bare = world().dir("/bare/", vec!["x"]);
    assert_eq!(respond(&mut bare, &request("GET", "/bare", vec![])).status, 403);
    let mut broken = world().dir("/list/", vec![]);
    broken.unreadable.push("/list/".to_string());
    assert_eq!(respond(&mut broken, &request("GET", "/list", vec![])).status, 500);
}

#[test]
fn missing_files_and_configured_pages() {
    let mut w = world().file("/pages/404", "custom");
    let r = respond(&mut w, &request("GET", "/missing", vec![]));
    assert_eq!(r.status, 404);
    assert_eq!(r.body, b"custom");
    let r = respond(&mut world(), &request("GET", "/missing", vec![]));
    assert_eq!(r.body, default_error_page(404).into_bytes());
    let r = respond(&mut w, &request("GET", "/y", vec![("host", "two:80")]));
    assert_eq!(r.status, 404);
    assert_eq!(r.body, default_error_page(404).into_bytes());
}

#[test]
fn unreadable_files() {
    let mut w = world().file("/www/a", "x").file("/pages/500", "broken");
    w.unreadable.push("/www/a".to_string());
    let r = respond(&mut w, &request("GET", "/a", vec![]));
    assert_eq!(r.status, 500);
    assert_eq!(r.body, b"broken");
}

#[test]
fn redirects_come_first() {
    let r = respond(&mut world(), &request("TRACE", "/old/x", vec![]));
    assert_eq!(r.status, 302);
    assert_eq!(field(&r, "Location"), "/new");
}

#[test]
fn methods_are_checked() {
    let mut w = world().file("/pages/405", "not so");
    let r = respond(&mut w, &request("DELETE", "/cgi/a", vec![]));
    assert_eq!(r.status, 405);
    assert_eq!(field(&r, "Allow"), "GET, POST");
    assert_eq!(r.body, b"not so");
    let r = respond(&mut world(), &request("PUT", "/a", vec![]));
    assert_eq!(r.status, 501);
    assert_eq!(r.body, default_error_page(501).into_bytes());
    assert_eq!(respond(&mut world(), &request("POST", "/a", vec![])).body, b"OK");
    let ok = respond(&mut world(), &request("POST", "/a", vec![]));
    assert_eq!(ok.status, 200);
    assert_eq!(field(&ok, "Content-Type"), "text/plain");
}

#[test]
fn locations_without_a_root() {
    assert_eq!(respond(&mut world(), &request("GET", "/none", vec![])).status, 500);
    assert_eq!(respond(&mut world(), &request("POST", "/none", vec![])).status, 500);
}

#[test]
fn files_are_deleted() {
    let mut w = world().file("/www/a", "x").dir("/www/d", vec![]);
    let r = respond(&mut w, &request("DELETE", "/a", vec![]));
    assert_eq!(r.status, 204);
    assert!(r.body.is_empty());
    assert_eq!(w.removed, vec!["/www/a"]);
    assert_eq!(respond(&mut w, &request("DELETE", "/a", vec![])).status, 404);
    assert_eq!(respond(&mut w, &request("DELETE", "/d", vec![])).status, 403);
}

#[test]
fn files_are_uploaded() {
    let fields = vec![("content-type", "multipart/form-data; boundary=xyz")];
    let mut w = world();
    let r = respond(&mut w, &request("POST", "/up", fields.clone()));
    assert_eq!(r.status, 201);
    assert_eq!(r.body, b"Uploaded: a, b");
    assert_eq!(field(&r, "Content-Type"), "text/plain");
    assert_eq!(w.saved_to, Some(("/up".to_string(), "xyz".to_string())));
    let mut failing = world();
    failing.saves = false;
    assert_eq!(respond(&mut failing, &request("POST", "/up", fields)).status, 500);
    let mut w = world().file("/pages/400", "bad");
    let r = respond(&mut w, &request("POST", "/up", vec![("content-type", "multipart/form-data")]));
    assert_eq!(r.status, 400);
    assert_eq!(r.body, b"bad");
    assert_eq!(respond(&mut w, &request("POST", "/up", vec![])).status, 400);
}

#[test]
fn scripts_are_run() {
    let mut w = world().file("/cgi/a/s.py", "");
    match outcome(&mut w, &request("GET", "/cgi/a/s.py", vec![])) {
        HandleOutcome::Cgi(p) => assert_eq!(p.pid, 7),
        HandleOutcome::Response(_) => panic!("no script"),
    }
    assert_eq!(
        w.spawned,
        Some(("/cgi/a/s.py".to_string(), "/usr/bin/python3".to_string()))
    );
    w.spawns = false;
    assert_eq!(respond(&mut w, &request("GET", "/cgi/a/s.py", vec![])).status, 500);
    assert_eq!(respond(&mut w, &request("GET", "/cgi/t.py", vec![])).status, 404);
    assert_eq!(respond(&mut w, &request("GET", "/odd/t.rb", vec![])).status, 500);
}

#[test]
fn sessions_are_kept() {
    let config = config();
    let mut w = world().file("/www/a", "x");
    let mut sessions = SessionStore::new();
    let first = request("GET", "/a", vec![]);
    let outcome = w.run(handle(&first, &config.servers, 80), &first, &mut sessions);
    let cookie = match outcome {
        HandleOutcome::Response(r) => field(&r, "Set-Cookie"),
        HandleOutcome::Cgi(_) => panic!("a script"),
    };
    let id = cookie.split(';').next().unwrap().to_string();
    for (later, given) in [(3600u64, false), (3601, true)] {
        w.now += later;
        let next = request("GET", "/a", vec![("cookie", id.as_str())]);
        match w.run(handle(&next, &config.servers, 80), &next, &mut sessions) {
            HandleOutcome::Response(r) => {
                assert_eq!(r.headers.get("Set-Cookie").is_some(), given)
            }
            HandleOutcome::Cgi(_) => panic!("a script"),
        }
    }
}

#[test]
fn the_clock_names_new_sessions() {
    let config = config();
    let req = request("GET", "/a", vec![]);
    let mut sessions = SessionStore::new();
    let m = match handle(&req, &config.servers, 80) {
        Step::ProbeDirectory { m, path } => {
            assert_eq!(path, "/www/a");
            m
        }
        _ => panic!("not a file"),
    };
    match serve_file("/www/a", Some(b"x".to_vec()), &mut sessions, &req, m) {
        Step::Done(HandleOutcome::Response(r)) => {
            let cookie = field(&r, "Set-Cookie");
            let id = localhost::session::parse_session_id(&cookie).unwrap();
            assert!(sessions.get(&id).is_some());
        }
        _ => panic!("no response"),
    }
}

#[test]
fn types_of_files() {
    let known: Vec<(&str, &str)> = vec![
        ("a.html", "text/html; charset=utf-8"),
        ("a.htm", "text/html; charset=utf-8"),
        ("/x/a.css", "text/css"),
        ("a.js", "application/javascript"),
        ("a.json", "application/json"),
        ("a.png", "image/png"),
        ("a.jpg", "image/jpeg"),
        ("a.jpeg", "image/jpeg"),
        ("a.gif", "image/gif"),
        ("a.svg", "image/svg+xml"),
        ("a.ico", "image/x-icon"),
        ("a.txt", "text/plain; charset=utf-8"),
        ("a.pdf", "application/pdf"),
        ("a.tar.gz", "application/octet-stream"),
        (".html", "application/octet-stream"),
        ("a.HTML", "application/octet-stream"),
        ("a", "application/octet-stream"),
    ];
    for (path, kind) in known {
        assert_eq!(mime_type(path), kind);
    }
}

#[test]
fn responses_of_scripts() {
    let r = cgi_response_to_http(CgiResponse {
        headers: vec![
            ("X-A".to_string(), "1".to_string()),
            ("content-type".to_string(), "text/plain".to_string()),
            ("Content-Type".to_string(), "image/png".to_string()),
        ],
        body: b"abc".to_vec(),
        status: 201,
    });
    assert_eq!(
        r.serialize(),
        b"HTTP/1.1 201 Created\r\nX-A: 1\r\ncontent-type: text/plain\r\nContent-Type: text/plain\r\n\
          Content-Length: 3\r\n\r\nabc"
            .to_vec()
    );
    let plain = cgi_response_to_http(CgiResponse { headers: vec![], body: vec![], status: 200 });
    assert_eq!(field(&plain, "Content-Type"), "text/html");
}
