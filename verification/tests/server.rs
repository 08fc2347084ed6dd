use localhost::cgi::CgiProcess;
use localhost::config::{parse_config_str, Config};
use localhost::event_loop::{EventLoop, FdKind};
use localhost::listener::endpoints;
use localhost::response::Response;
use localhost::server::{error_bytes, error_page, Effect, ReadOutcome, Server};
use localhost::turns::Accepted;

const SECOND: u64 = 1_000_000_000;

fn config() -> Config {
    parse_config_str(
        "server {\nlisten 80;\nclient_max_body_size 10;\nerror_page 413 /big;\n}\n",
    )
    .unwrap()
}

fn server() -> Server {
    Server::new(EventLoop::new(Ok(3)).unwrap())
}

fn connect(s: &mut Server, fd: i32, now: u64) {
    let e = s.accept_clients(80, Accepted::Connected { fd, added: Ok(()) }, &config(), now);
    assert!(e.is_empty());
    assert_eq!(s.kind_of(fd), Some(FdKind::Client));
}

fn shown(effects: &[Effect]) -> Vec<String> {
    effects
        .iter()
        .map(|e| match e {
            Effect::Log(m) => format!("log {}", m),
            Effect::Announce(m) => format!("say {}", m),
            Effect::Close(fd) => format!("close {}", fd),
            Effect::Deregister(fd) => format!("deregister {}", fd),
            Effect::Send { fd, bytes } => {
                format!("send {} {}", fd, String::from_utf8_lossy(&bytes[..12]))
            }
            Effect::SendPage { fd, code, path } => format!("page {} {} {}", fd, code, path),
            Effect::WriteClient(fd) => format!("write {}", fd),
            Effect::FeedScript { pipe, client } => format!("feed {} {}", pipe, client),
            Effect::WatchInput { pipe, client } => format!("watch {} {}", pipe, client),
            Effect::SetWritable(fd) => format!("writable {}", fd),
            Effect::SetReadable(fd) => format!("readable {}", fd),
            Effect::SetIdle(fd) => format!("idle {}", fd),
            Effect::Kill(pid) => format!("kill {}", pid),
            Effect::Reap(pid) => format!("reap {}", pid),
        })
        .collect()
}

fn effects(outcome: ReadOutcome) -> Vec<String> {
    match outcome {
        ReadOutcome::Effects(e) => shown(&e),
        ReadOutcome::Request { .. } => panic!("a request"),
        ReadOutcome::SizeOverflow => panic!("an overflow"),
    }
}

fn read(s: &mut Server, fd: i32, data: &[u8]) -> ReadOutcome {
    s.read_client(fd, Ok(data.to_vec()), &config(), 100)
}

#[test]
fn connections_are_accepted_or_not() {
    let mut s = server();
    connect(&mut s, 5, 0);
    assert!(s.unsent(5).unwrap().is_empty());
    let c = config();
    let e = s.accept_clients(80, Accepted::Refused { errno: 11 }, &c, 0);
    assert!(e.is_empty());
    let e = s.accept_clients(80, Accepted::Refused { errno: 24 }, &c, 0);
    assert_eq!(shown(&e), vec!["log accept() error: errno 24"]);
    let blocking = Accepted::Blocking { fd: 6, message: "m".to_string() };
    let e = s.accept_clients(80, blocking, &c, 0);
    assert_eq!(shown(&e), vec!["log set_nonblocking failed: m", "close 6"]);
    let e = s.accept_clients(80, Accepted::Connected { fd: 6, added: Err(9) }, &c, 0);
    assert_eq!(
        shown(&e),
        vec!["log add_client failed: epoll_ctl ADD failed for fd 6: errno 9", "close 6"]
    );
    assert!(s.unsent(6).is_none());
    assert_eq!(s.epfd(), 3);
}

#[test]
fn a_request_and_its_response() {
    let mut s = server();
    connect(&mut s, 5, 0);
    assert!(effects(read(&mut s, 5, b"GET /x HTTP/1.1\r\n")).is_empty());
    match read(&mut s, 5, b"\r\n") {
        ReadOutcome::Request { request, keep_alive, port } => {
            assert_eq!(request.uri, "/x");
            assert!(keep_alive);
            assert_eq!(port, 80);
        }
        _ => panic!("no request"),
    }
    assert!(s.request_handled(5));
    let e = s.finish_response(5, Response::new(204), true);
    assert_eq!(shown(&e), vec!["writable 5"]);
    let expected = b"HTTP/1.1 204 No Content\r\nConnection: keep-alive\r\n\r\n";
    assert_eq!(s.unsent(5).unwrap(), expected);
    assert!(s.write_armed(5, Ok(())).is_empty());
    assert_eq!(shown(&s.write_client(5)), vec!["write 5"]);
    assert!(s.client_written(5, Ok(10), 101).is_empty());
    assert_eq!(s.unsent(5).unwrap(), &expected[10..]);
    assert!(s.client_written(5, Err(11), 101).is_empty());
    let e = s.client_written(5, Ok(expected.len() - 10), 102);
    assert_eq!(shown(&e), vec!["readable 5"]);
    assert!(s.unsent(5).unwrap().is_empty());
    assert!(s.read_armed(5, Ok(())).is_empty());
    assert!(matches!(
        read(&mut s, 5, b"GET /y HTTP/1.1\r\n\r\n"),
        ReadOutcome::Request { .. }
    ));
}

#[test]
fn a_response_that_closes() {
    let mut s = server();
    connect(&mut s, 5, 0);
    let alive = |s: &mut Server, head: &[u8]| match read(s, 5, head) {
        ReadOutcome::Request { keep_alive, .. } => {
            s.request_handled(5);
            keep_alive
        }
        _ => panic!("no request"),
    };
    assert!(!alive(&mut s, b"GET / HTTP/1.0\r\n\r\n"));
    assert!(alive(&mut s, b"GET / HTTP/1.0\r\nConnection: keep-alive\r\n\r\n"));
    assert!(!alive(&mut s, b"GET / HTTP/1.1\r\nConnection: CLOSE\r\n\r\n"));
    s.finish_response(5, Response::new(200), false);
    let n = s.unsent(5).unwrap().len();
    assert!(s.unsent(5).unwrap().ends_with(b"Connection: close\r\n\r\n"));
    assert_eq!(shown(&s.client_written(5, Ok(n), 1)), vec!["deregister 5"]);
    assert!(s.unsent(5).is_none());
    assert_eq!(s.kind_of(5), None);
    assert!(s.finish_response(5, Response::new(200), true).is_empty());
    assert!(!s.request_handled(5));
    assert!(s.write_client(5).is_empty());
    assert!(s.finish_write(5).is_empty());
}

#[test]
fn room_to_write_with_nothing_to_send() {
    let mut s = server();
    connect(&mut s, 5, 0);
    assert_eq!(shown(&s.write_client(5)), vec!["readable 5"]);
}

#[test]
fn clients_that_end_or_fail() {
    let mut s = server();
    for data in [Ok(Vec::new()), Err(104)] {
        connect(&mut s, 5, 0);
        let e = s.read_client(5, data, &config(), 1);
        assert_eq!(effects(e), vec!["deregister 5"]);
        assert!(s.unsent(5).is_none());
    }
    connect(&mut s, 5, 0);
    assert!(effects(s.read_client(5, Err(11), &config(), 1)).is_empty());
    assert_eq!(shown(&s.client_written(5, Err(32), 1)), vec!["deregister 5"]);
    connect(&mut s, 5, 0);
    assert_eq!(shown(&s.drop_client(5)), vec!["deregister 5"]);
    assert!(s.drop_client(5).is_empty());
    assert!(effects(read(&mut s, 5, b"x")).is_empty());
    connect(&mut s, 5, 0);
    assert_eq!(
        shown(&s.write_armed(5, Err(2))),
        vec!["log set_writable: epoll_ctl MOD failed for fd 5: errno 2", "deregister 5"]
    );
    connect(&mut s, 5, 0);
    assert_eq!(
        shown(&s.read_armed(5, Err(2))),
        vec!["log set_readable: epoll_ctl MOD failed for fd 5: errno 2", "deregister 5"]
    );
}

#[test]
fn refused_requests_are_answered_and_closed() {
    let mut s = server();
    connect(&mut s, 5, 0);
    assert_eq!(
        effects(read(&mut s, 5, b"nonsense\r\n\r\n")),
        vec!["send 5 HTTP/1.1 400", "deregister 5"]
    );
    connect(&mut s, 5, 0);
    assert_eq!(
        effects(read(&mut s, 5, b"POST / HTTP/1.1\r\nContent-Length: 11\r\n\r\n")),
        vec!["page 5 413 /big", "deregister 5"]
    );
    assert!(s.unsent(5).is_none());
    connect(&mut s, 5, 0);
    let huge = format!(
        "POST / HTTP/1.1\r\nTransfer-Encoding: chunked\r\n\r\n{:x}\r\n",
        usize::MAX
    );
    assert!(matches!(read(&mut s, 5, huge.as_bytes()), ReadOutcome::SizeOverflow));
}

#[test]
fn pages_of_the_named_server() {
    let config = parse_config_str(
        "server {\nlisten 80;\nserver_name a;\nclient_max_body_size 10;\nerror_page 413 /a;\n\
         error_page 400 /bad-a;\n}\n\
         server {\nlisten 80;\nserver_name b;\nerror_page 413 /b;\nerror_page 400 /bad-b;\n}\n",
    )
    .unwrap();
    let cases: Vec<(&str, &str)> = vec![
        ("POST / HTTP/1.1\r\nHost: b:80\r\nContent-Length: 11\r\n\r\n", "page 5 413 /b"),
        ("POST / HTTP/1.1\r\nHost: a\r\nContent-Length: 11\r\n\r\n", "page 5 413 /a"),
        ("POST / HTTP/1.1\r\nContent-Length: 11\r\n\r\n", "page 5 413 /a"),
        ("POST / HTTP/1.1\r\nHost: b\r\nContent-Length: x\r\n\r\n", "page 5 400 /bad-b"),
        ("nonsense\r\nHost: b\r\n\r\n", "page 5 400 /bad-a"),
    ];
    for (head, page) in cases {
        let mut s = server();
        s.accept_clients(80, Accepted::Connected { fd: 5, added: Ok(()) }, &config, 0);
        let outcome = s.read_client(5, Ok(head.as_bytes().to_vec()), &config, 1);
        assert_eq!(effects(outcome), vec![page, "deregister 5"]);
    }
}

#[test]
fn pages_for_errors() {
    let c = config();
    assert_eq!(error_page(&c.servers, "", 80, 413), Some("/big".to_string()));
    assert_eq!(error_page(&c.servers, "", 80, 400), None);
    assert_eq!(error_page(&[], "", 80, 413), None);
    assert_eq!(error_bytes(413, None), Response::error(413, None).serialize());
    assert!(error_bytes(413, Some(b"page".to_vec())).ends_with(b"\r\n\r\npage"));
}

fn process(stdin_fd: Option<i32>, data: &[u8]) -> CgiProcess {
    CgiProcess {
        pid: 77,
        stdin_fd,
        stdin_data: data.to_vec(),
        stdin_offset: 0,
        stdout_fd: 20,
    }
}

#[test]
fn a_script_with_input() {
    let mut s = server();
    connect(&mut s, 5, 0);
    connect(&mut s, 6, 0);
    let e = s.start_cgi(5, process(Some(21), b"input"), true, Ok(()), None, 0);
    assert_eq!(shown(&e), vec!["watch 21 5", "idle 5"]);
    assert_eq!(s.kind_of(20), Some(FdKind::CgiStdout(5)));
    assert!(s.input_watched(21, 5, Ok(())).is_empty());
    assert_eq!(s.kind_of(21), Some(FdKind::CgiStdin(5)));
    assert_eq!(shown(&s.handle_cgi_stdin(21, 5)), vec!["feed 21 5"]);
    assert_eq!(s.unfed(5).unwrap(), b"input");
    assert!(s.script_fed(21, 5, Ok(2)).is_empty());
    assert_eq!(s.unfed(5).unwrap(), b"put");
    assert!(s.script_fed(21, 5, Err(11)).is_empty());
    assert_eq!(shown(&s.script_fed(21, 5, Ok(3))), vec!["deregister 21"]);
    assert_eq!(s.kind_of(21), None);
    assert!(s.handle_cgi_stdout(5, Ok(b"Content-Type: text/plain\n".to_vec())).is_empty());
    assert!(s.handle_cgi_stdout(5, Err(11)).is_empty());
    assert!(s.handle_cgi_stdout(5, Ok(b"\nhello".to_vec())).is_empty());
    let e = s.handle_cgi_stdout(5, Ok(Vec::new()));
    assert_eq!(shown(&e), vec!["deregister 20", "reap 77", "writable 5"]);
    assert_eq!(s.kind_of(20), None);
    assert_eq!(
        s.unsent(5).unwrap(),
        b"HTTP/1.1 200 OK\r\nContent-Type: text/plain\r\nContent-Length: 5\r\n\
          Connection: keep-alive\r\n\r\nhello"
    );
    assert!(s.unsent(6).unwrap().is_empty());
    assert!(s.finalize_cgi(5).is_empty());
}

#[test]
fn a_script_whose_client_is_gone() {
    let mut s = server();
    connect(&mut s, 5, 0);
    s.start_cgi(5, process(Some(21), b"x"), true, Ok(()), None, 0);
    s.input_watched(21, 5, Ok(()));
    s.drop_client(5);
    assert_eq!(
        shown(&s.handle_cgi_stdout(5, Err(5))),
        vec!["deregister 20", "deregister 21", "reap 77"]
    );
    assert_eq!(s.kind_of(21), None);
    assert_eq!(shown(&s.handle_cgi_stdin(21, 5)), vec!["deregister 21"]);
    assert!(s.script_fed(21, 5, Ok(1)).is_empty());
    assert!(s.drop_input(5).is_empty());
}

#[test]
fn a_script_that_closes_its_input() {
    let mut s = server();
    connect(&mut s, 5, 0);
    s.start_cgi(5, process(Some(21), b"x"), true, Ok(()), None, 0);
    s.input_watched(21, 5, Ok(()));
    assert_eq!(shown(&s.drop_input(5)), vec!["deregister 21"]);
    assert!(s.drop_input(5).is_empty());
    let mut t = server();
    connect(&mut t, 5, 0);
    t.start_cgi(5, process(Some(21), b"x"), true, Ok(()), None, 0);
    t.input_watched(21, 5, Ok(()));
    assert_eq!(shown(&t.script_fed(21, 5, Err(32))), vec!["deregister 21"]);
}

#[test]
fn scripts_that_cannot_be_watched() {
    let mut s = server();
    connect(&mut s, 5, 0);
    let e = s.start_cgi(5, process(Some(21), b"x"), true, Err(28), None, 0);
    assert_eq!(
        shown(&e),
        vec![
            "log add_cgi_stdout failed: epoll_ctl ADD failed for fd 20: errno 28",
            "close 20",
            "close 21",
            "kill 77",
            "send 5 HTTP/1.1 500",
            "deregister 5"
        ]
    );
    assert!(s.unfed(5).is_none());
    connect(&mut s, 5, 0);
    let page = Some("/500".to_string());
    let e = s.start_cgi(5, process(None, b""), true, Err(28), page, 0);
    assert_eq!(shown(&e)[3], "page 5 500 /500");
    connect(&mut s, 5, 0);
    s.start_cgi(5, process(Some(21), b"x"), true, Ok(()), None, 0);
    assert_eq!(
        shown(&s.input_watched(21, 5, Err(28))),
        vec!["log add_cgi_stdin failed: epoll_ctl ADD failed for fd 21: errno 28", "close 21"]
    );
    assert_eq!(s.kind_of(21), None);
}

#[test]
fn scripts_time_out() {
    let mut s = server();
    connect(&mut s, 5, 0);
    connect(&mut s, 6, 0);
    s.start_cgi(5, process(None, b""), true, Ok(()), None, 0);
    let other = CgiProcess {
        pid: 78,
        stdin_fd: Some(31),
        stdin_data: b"x".to_vec(),
        stdin_offset: 0,
        stdout_fd: 30,
    };
    s.start_cgi(6, other, true, Ok(()), None, SECOND);
    assert!(s.timeout_cgi(10 * SECOND).is_empty());
    let e = s.timeout_cgi(10 * SECOND + 1);
    assert_eq!(shown(&e), vec!["kill 77", "deregister 20", "writable 5"]);
    let text = String::from_utf8(s.unsent(5).unwrap().to_vec()).unwrap();
    assert!(text.starts_with("HTTP/1.1 504 Unknown\r\n"));
    assert!(text.contains("Connection: close\r\n"));
    assert!(s.unfed(5).is_none());
    assert!(s.unfed(6).is_some());
    let e = s.timeout_cgi(12 * SECOND);
    assert_eq!(shown(&e), vec!["kill 78", "deregister 30", "deregister 31", "writable 6"]);
}

#[test]
fn silent_clients_are_dropped() {
    let mut s = server();
    connect(&mut s, 5, 100);
    connect(&mut s, 6, 101);
    assert!(s.timeout_clients(130).is_empty());
    let e = s.timeout_clients(131);
    assert_eq!(shown(&e), vec!["send 5 HTTP/1.1 408", "deregister 5"]);
    assert!(s.unsent(5).is_none());
    assert!(s.unsent(6).is_some());
    connect(&mut s, 7, 90);
    let e = shown(&s.timeout_clients(200));
    assert_eq!(e.len(), 4);
    assert!(e.contains(&"deregister 6".to_string()));
    assert!(e.contains(&"deregister 7".to_string()));
}

#[test]
fn rounds_are_counted() {
    let mut s = server();
    for i in 1..=90u64 {
        assert_eq!(s.next_round(), i % 30 == 0);
    }
}

#[test]
fn processes_are_reaped() {
    let mut s = server();
    s.reap_tried(1, true);
    s.reap_tried(2, false);
    s.reap_tried(3, false);
    assert_eq!(s.take_reap_queue(), vec![2, 3]);
    assert!(s.take_reap_queue().is_empty());
}

#[test]
fn listeners_are_bound_once() {
    let mut s = server();
    assert_eq!(
        s.check_bound().unwrap_err(),
        "No listening sockets could be bound; check the configuration"
    );
    assert!(s.needs_listener("h", 80));
    let e = s.listener_watched("h", 80, 4, Err(1));
    assert_eq!(
        shown(&e),
        vec![
            "log epoll: failed to register listener h:80: epoll_ctl ADD failed for fd 4: errno 1",
            "close 4"
        ]
    );
    assert!(s.needs_listener("h", 80));
    let e = s.listener_watched("h", 80, 4, Ok(()));
    assert_eq!(shown(&e), vec!["say Listening on h:80"]);
    assert!(!s.needs_listener("h", 80));
    assert!(s.needs_listener("h", 81));
    assert!(s.needs_listener("g", 80));
    assert!(s.check_bound().is_ok());
    assert_eq!(s.kind_of(4), Some(FdKind::Listener(80)));
}

#[test]
fn one_listener_that_fails_stops_no_other() {
    let config = parse_config_str(
        "server {\nlisten 1;\nlisten 2;\nserver_name a;\n}\nserver {\nlisten 2;\nlisten 3;\nserver_name b;\n}\n",
    )
    .unwrap();
    let mut s = server();
    let mut tried = Vec::new();
    for (host, port) in endpoints(&config) {
        if s.needs_listener(&host, port) {
            tried.push(port);
            let added = if port == 1 { Err(1) } else { Ok(()) };
            s.listener_watched(&host, port, 40 + port as i32, added);
        }
    }
    assert_eq!(tried, vec![1, 2, 3]);
    assert!(s.needs_listener("0.0.0.0", 1));
    assert!(!s.needs_listener("0.0.0.0", 2));
    assert!(!s.needs_listener("0.0.0.0", 3));
    assert!(s.check_bound().is_ok());
}
