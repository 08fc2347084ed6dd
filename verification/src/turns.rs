//! What every event does to the connections and the scripts of the server.
//!
//! Each function here takes the state of the server and an event, and gives the state that follows
//! and what the system has to do.

use crate::assoc;
use crate::cgi;
use crate::cgi::CgiProcess;
use crate::clock;
use crate::config;
use crate::event_loop;
use crate::event_loop::{FdKind, CGI_TIMEOUT_SECS, CLIENT_TIMEOUT_SECS};
use crate::handler;
use crate::listener;
use crate::number;
use crate::request;
use crate::response;
use crate::router;
use crate::text;
use vstd::prelude::*;
use vstd::utf8::*;

verus! {

// ---------------------------------------------------------------------------
// Model
// ---------------------------------------------------------------------------

/// A client: what it has sent of a request, and what it is to receive.
#[verifier::ext_equal]
pub struct ClientView {
    pub buffer: Seq<u8>,
    pub max_body: nat,
    pub write_buf: Seq<u8>,
    pub write_offset: nat,
    pub last_active: u64,
    pub port: u16,
    pub close_after_write: bool,
}

/// A script that runs for a client.
#[verifier::ext_equal]
pub struct ScriptView {
    pub pid: i32,
    pub stdin_fd: Option<i32>,
    pub stdin_data: Seq<u8>,
    pub stdin_offset: nat,
    pub stdout_fd: i32,
    pub output: Seq<u8>,
    pub deadline: u64,
    pub keep_alive: bool,
}

/// The state of the server: what every watched descriptor is, the clients and the scripts by the
/// descriptor of the client, the processes that are still to be reaped, the addresses that are
/// listened on, and the rounds so far.
#[verifier::ext_equal]
pub struct StateView {
    pub epfd: i32,
    pub watched: Map<i32, FdKind>,
    pub clients: Map<i32, ClientView>,
    pub scripts: Map<i32, ScriptView>,
    pub reap_queue: Seq<i32>,
    pub bound: Seq<(Seq<char>, u16)>,
    pub tick: u64,
}

/// What the system has to do.
pub enum EffectView {
    Log(Seq<char>),
    Announce(Seq<char>),
    Close(i32),
    Deregister(i32),
    Send { fd: i32, bytes: Seq<u8> },
    SendPage { fd: i32, code: u16, path: Seq<char> },
    WriteClient(i32),
    FeedScript { pipe: i32, client: i32 },
    WatchInput { pipe: i32, client: i32 },
    SetWritable(i32),
    SetReadable(i32),
    SetIdle(i32),
    Kill(i32),
    Reap(i32),
}

/// A state and what the system has to do to reach it.
pub struct Turn {
    pub state: StateView,
    pub effects: Seq<EffectView>,
}

/// Nothing happens.
pub open spec fn quiet(s: StateView) -> Turn {
    Turn { state: s, effects: Seq::empty() }
}

/// The state without the client `fd`.
pub open spec fn without_client(s: StateView, fd: i32) -> StateView {
    StateView { watched: s.watched.remove(fd), clients: s.clients.remove(fd), ..s }
}

/// The state with a descriptor forgotten.
pub open spec fn unwatched(s: StateView, fd: i32) -> StateView {
    StateView { watched: s.watched.remove(fd), ..s }
}

/// The client `fd` is dropped.
pub open spec fn drop_turn(s: StateView, fd: i32) -> Turn {
    Turn { state: without_client(s, fd), effects: seq![EffectView::Deregister(fd)] }
}

/// The client `fd` is dropped after a message about it.
pub open spec fn failed_turn(s: StateView, fd: i32, message: Seq<char>) -> Turn {
    Turn {
        state: without_client(s, fd),
        effects: seq![EffectView::Log(message), EffectView::Deregister(fd)],
    }
}

/// The effect that sends an error response; a page that is configured for it is read first.
pub open spec fn error_effect(fd: i32, code: u16, page: Option<Seq<char>>) -> EffectView {
    match page {
        Some(path) => EffectView::SendPage { fd, code, path },
        None => EffectView::Send {
            fd,
            bytes: response::serialized(response::error_response(code, None)),
        },
    }
}

/// An error is sent to the client `fd`, which is then dropped.
pub open spec fn error_turn(s: StateView, fd: i32, code: u16, page: Option<Seq<char>>) -> Turn {
    Turn {
        state: without_client(s, fd),
        effects: seq![error_effect(fd, code, page), EffectView::Deregister(fd)],
    }
}

/// The response as it goes out on a connection that stays open or not.
pub open spec fn connection_set(r: response::ResponseView, keep_alive: bool) -> response::ResponseView {
    response::header_set(
        r,
        "Connection"@,
        if keep_alive {
            "keep-alive"@
        } else {
            "close"@
        },
    )
}

/// The client with a response to receive.
pub open spec fn answered(
    c: ClientView,
    r: response::ResponseView,
    keep_alive: bool,
) -> ClientView {
    ClientView {
        write_buf: response::serialized(connection_set(r, keep_alive)),
        write_offset: 0,
        close_after_write: !keep_alive,
        ..c
    }
}

/// The client `fd`, if it is still there, is to receive a response.
pub open spec fn response_turn(
    s: StateView,
    fd: i32,
    r: response::ResponseView,
    keep_alive: bool,
) -> Turn {
    if s.clients.contains_key(fd) {
        Turn {
            state: StateView {
                clients: s.clients.insert(fd, answered(s.clients[fd], r, keep_alive)),
                ..s
            },
            effects: seq![EffectView::SetWritable(fd)],
        }
    } else {
        quiet(s)
    }
}

/// What follows once the events for which the client `fd` is watched were to be changed: a client
/// for which that failed is dropped.
pub open spec fn armed_turn(
    s: StateView,
    fd: i32,
    what: Seq<char>,
    changed: Result<(), i32>,
) -> Turn {
    match changed {
        Ok(_) => quiet(s),
        Err(errno) => failed_turn(
            s,
            fd,
            what + event_loop::watch_failure("MOD"@, fd, errno),
        ),
    }
}

/// The client `fd` is gone.
pub open spec fn gone_turn(s: StateView, fd: i32) -> Turn {
    if s.clients.contains_key(fd) {
        drop_turn(s, fd)
    } else {
        quiet(s)
    }
}

/// The connection of a request stays open: the client says so, or, if it says nothing, the
/// version of the protocol does.
pub open spec fn keeps_alive(req: request::RequestView) -> bool {
    if req.headers.contains_key("connection"@) {
        text::lowercase(req.headers["connection"@]) != "close"@
    } else {
        req.version == "HTTP/1.1"@
    }
}

/// The page that the server for a request configures for a status.
pub open spec fn configured_page(
    servers: Seq<config::ServerView>,
    host: Seq<char>,
    port: u16,
    code: u16,
) -> Option<Seq<char>> {
    let server = servers[router::server_for(servers, host, port)];
    if servers.len() > 0 && server.error_pages.contains_key(code) {
        Some(server.error_pages[code])
    } else {
        None
    }
}

/// What came of a read from a client.
pub enum ReadView {
    Effects(Seq<EffectView>),
    Request { request: request::RequestView, keep_alive: bool, port: u16 },
    SizeOverflow,
}

/// The client after it has sent some bytes.
pub open spec fn fed(c: ClientView, data: Seq<u8>, now: u64) -> ClientView {
    ClientView { buffer: c.buffer + data, last_active: now, ..c }
}

/// What a request that was read in part comes to. The page for a refusal is that of the server
/// for the host that its head names; a head that cannot be read names none.
pub open spec fn parse_turn(
    s: StateView,
    fd: i32,
    servers: Seq<config::ServerView>,
) -> (StateView, ReadView) {
    let c = s.clients[fd];
    if !request::sizes_fit(c.buffer) {
        (s, ReadView::SizeOverflow)
    } else {
        match request::parsed(c.buffer, c.max_body) {
            request::ParseView::Complete(request) => (
                s,
                ReadView::Request { request, keep_alive: keeps_alive(request), port: c.port },
            ),
            request::ParseView::Incomplete => (s, ReadView::Effects(Seq::empty())),
            request::ParseView::TooLarge => {
                let page = configured_page(servers, request::named_host(c.buffer), c.port, 413);
                let t = error_turn(s, fd, 413, page);
                (t.state, ReadView::Effects(t.effects))
            },
            request::ParseView::Invalid(reason) => {
                let page = configured_page(servers, request::named_host(c.buffer), c.port, 400);
                let t = error_turn(s, fd, 400, page);
                (t.state, ReadView::Effects(t.effects))
            },
        }
    }
}

/// What a read from the client `fd` comes to. The client is dropped at its end or on an error; a
/// read that would have blocked changes nothing.
pub open spec fn read_turn(
    s: StateView,
    fd: i32,
    data: Result<Seq<u8>, i32>,
    servers: Seq<config::ServerView>,
    now: u64,
) -> (StateView, ReadView) {
    match data {
        Err(errno) => if event_loop::blocks(errno) {
            (s, ReadView::Effects(Seq::empty()))
        } else {
            (drop_turn(s, fd).state, ReadView::Effects(drop_turn(s, fd).effects))
        },
        Ok(bytes) => if bytes.len() == 0 {
            (drop_turn(s, fd).state, ReadView::Effects(drop_turn(s, fd).effects))
        } else if s.clients.contains_key(fd) {
            let c = fed(s.clients[fd], bytes, now);
            parse_turn(StateView { clients: s.clients.insert(fd, c), ..s }, fd, servers)
        } else {
            (s, ReadView::Effects(Seq::empty()))
        },
    }
}

/// The state after the request of the client `fd` was handled: its bytes are forgotten.
pub open spec fn request_done(s: StateView, fd: i32) -> StateView {
    if s.clients.contains_key(fd) {
        StateView {
            clients: s.clients.insert(
                fd,
                ClientView { buffer: Seq::empty(), ..s.clients[fd] },
            ),
            ..s
        }
    } else {
        s
    }
}

/// What follows once all of a response was sent: a connection that stays open waits for the next
/// request, any other is closed.
pub open spec fn sent_turn(s: StateView, fd: i32) -> Turn {
    if !s.clients.contains_key(fd) {
        quiet(s)
    } else if s.clients[fd].close_after_write {
        drop_turn(s, fd)
    } else {
        Turn {
            state: StateView {
                clients: s.clients.insert(
                    fd,
                    ClientView { write_buf: Seq::empty(), write_offset: 0, ..s.clients[fd] },
                ),
                ..s
            },
            effects: seq![EffectView::SetReadable(fd)],
        }
    }
}

/// All that the client is to receive was sent.
pub open spec fn all_sent(c: ClientView) -> bool {
    c.write_offset >= c.write_buf.len()
}

/// What follows from room to write to the client `fd`.
pub open spec fn write_turn(s: StateView, fd: i32) -> Turn {
    if !s.clients.contains_key(fd) {
        quiet(s)
    } else if all_sent(s.clients[fd]) {
        sent_turn(s, fd)
    } else {
        Turn { state: s, effects: seq![EffectView::WriteClient(fd)] }
    }
}

/// What a write to the client `fd` comes to: `n` bytes more were sent, or it failed.
pub open spec fn written_turn(s: StateView, fd: i32, n: Result<usize, i32>, now: u64) -> Turn {
    if !s.clients.contains_key(fd) {
        quiet(s)
    } else {
        match n {
            Err(errno) => if event_loop::blocks(errno) {
                quiet(s)
            } else {
                drop_turn(s, fd)
            },
            Ok(sent) => {
                let c = ClientView {
                    write_offset: s.clients[fd].write_offset + sent as nat,
                    last_active: now,
                    ..s.clients[fd]
                };
                let after = StateView { clients: s.clients.insert(fd, c), ..s };
                if all_sent(c) {
                    sent_turn(after, fd)
                } else {
                    quiet(after)
                }
            },
        }
    }
}

/// The effects that do something to the input of a script, if it is still open.
pub open spec fn input_effect(stdin_fd: Option<i32>, close: bool) -> Seq<EffectView> {
    match stdin_fd {
        Some(pipe) => if close {
            seq![EffectView::Close(pipe)]
        } else {
            seq![EffectView::Deregister(pipe)]
        },
        None => Seq::empty(),
    }
}

/// A script that has just started, which has `CGI_TIMEOUT_SECS` seconds.
pub open spec fn started(process: CgiProcess, keep_alive: bool, now: u64) -> ScriptView {
    ScriptView {
        pid: process.pid,
        stdin_fd: process.stdin_fd,
        stdin_data: process.stdin_data@,
        stdin_offset: process.stdin_offset as nat,
        stdout_fd: process.stdout_fd,
        output: Seq::empty(),
        deadline: (now + CGI_TIMEOUT_SECS * 1_000_000_000) as u64,
        keep_alive,
    }
}

/// What follows once the output of a script for the client `fd` was to be watched. A script whose
/// output cannot be watched is killed, and the client gets an error.
pub open spec fn start_turn(
    s: StateView,
    fd: i32,
    process: CgiProcess,
    keep_alive: bool,
    added: Result<(), i32>,
    page: Option<Seq<char>>,
    now: u64,
) -> Turn {
    match added {
        Err(errno) => {
            let t = error_turn(s, fd, 500, page);
            let message = "add_cgi_stdout failed: "@ + event_loop::watch_failure(
                "ADD"@,
                process.stdout_fd,
                errno,
            );
            Turn {
                state: t.state,
                effects: seq![EffectView::Log(message), EffectView::Close(process.stdout_fd)]
                    + input_effect(process.stdin_fd, true) + seq![EffectView::Kill(process.pid)]
                    + t.effects,
            }
        },
        Ok(_) => Turn {
            state: StateView {
                watched: s.watched.insert(process.stdout_fd, FdKind::CgiStdout(fd)),
                scripts: s.scripts.insert(fd, started(process, keep_alive, now)),
                ..s
            },
            effects: match process.stdin_fd {
                Some(pipe) => seq![
                    EffectView::WatchInput { pipe, client: fd },
                    EffectView::SetIdle(fd),
                ],
                None => seq![EffectView::SetIdle(fd)],
            },
        },
    }
}

/// What follows once the input of a script was to be watched.
pub open spec fn input_turn(s: StateView, pipe: i32, client: i32, added: Result<(), i32>) -> Turn {
    match added {
        Ok(_) => quiet(
            StateView { watched: s.watched.insert(pipe, FdKind::CgiStdin(client)), ..s },
        ),
        Err(errno) => Turn {
            state: s,
            effects: seq![
                EffectView::Log(
                    "add_cgi_stdin failed: "@ + event_loop::watch_failure("ADD"@, pipe, errno),
                ),
                EffectView::Close(pipe),
            ],
        },
    }
}

/// The input `pipe` is closed. The script of the client has then no input.
pub open spec fn input_closed(s: StateView, pipe: i32, client: i32) -> Turn {
    let scripts = if s.scripts.contains_key(client) {
        s.scripts.insert(client, ScriptView { stdin_fd: None, ..s.scripts[client] })
    } else {
        s.scripts
    };
    Turn {
        state: StateView { watched: s.watched.remove(pipe), scripts, ..s },
        effects: seq![EffectView::Deregister(pipe)],
    }
}

/// The script has all of its input.
pub open spec fn all_fed(c: ScriptView) -> bool {
    c.stdin_offset >= c.stdin_data.len()
}

/// What follows from room to write to the input of the script of a client.
pub open spec fn feed_turn(s: StateView, pipe: i32, client: i32) -> Turn {
    if s.scripts.contains_key(client) && !all_fed(s.scripts[client]) {
        Turn { state: s, effects: seq![EffectView::FeedScript { pipe, client }] }
    } else {
        input_closed(s, pipe, client)
    }
}

/// What a write to the input of the script of a client comes to. A script that does not read its
/// input is still waited for.
pub open spec fn fed_turn(s: StateView, pipe: i32, client: i32, n: Result<usize, i32>) -> Turn {
    if !s.scripts.contains_key(client) {
        quiet(s)
    } else {
        match n {
            Err(errno) => if event_loop::blocks(errno) {
                quiet(s)
            } else {
                input_closed(s, pipe, client)
            },
            Ok(written) => {
                let c = ScriptView {
                    stdin_offset: s.scripts[client].stdin_offset + written as nat,
                    ..s.scripts[client]
                };
                let after = StateView { scripts: s.scripts.insert(client, c), ..s };
                if all_fed(c) {
                    input_closed(after, pipe, client)
                } else {
                    quiet(after)
                }
            },
        }
    }
}

/// The input of the script of a client is closed, if it is still open.
pub open spec fn input_gone(s: StateView, client: i32) -> Turn {
    if s.scripts.contains_key(client) && s.scripts[client].stdin_fd is Some {
        input_closed(s, s.scripts[client].stdin_fd->Some_0, client)
    } else {
        quiet(s)
    }
}

/// The state without the script of a client and its pipes.
pub open spec fn without_script(s: StateView, client: i32) -> StateView {
    let c = s.scripts[client];
    let watched = s.watched.remove(c.stdout_fd);
    StateView {
        watched: match c.stdin_fd {
            Some(pipe) => watched.remove(pipe),
            None => watched,
        },
        scripts: s.scripts.remove(client),
        ..s
    }
}

/// What follows from the end of the output of the script of a client: the process is reaped, and
/// the client gets the response that the script wrote.
pub open spec fn finalize_turn(s: StateView, client: i32) -> Turn {
    if !s.scripts.contains_key(client) {
        quiet(s)
    } else {
        let c = s.scripts[client];
        let t = response_turn(
            without_script(s, client),
            client,
            handler::script_response(cgi::cgi_output(c.output)),
            c.keep_alive,
        );
        Turn {
            state: t.state,
            effects: seq![EffectView::Deregister(c.stdout_fd)] + input_effect(c.stdin_fd, false)
                + seq![EffectView::Reap(c.pid)] + t.effects,
        }
    }
}

/// What a read from the output of the script of a client comes to.
pub open spec fn output_turn(s: StateView, client: i32, data: Result<Seq<u8>, i32>) -> Turn {
    match data {
        Err(errno) => if event_loop::blocks(errno) {
            quiet(s)
        } else {
            finalize_turn(s, client)
        },
        Ok(bytes) => if bytes.len() == 0 {
            finalize_turn(s, client)
        } else if s.scripts.contains_key(client) {
            let c = ScriptView {
                output: s.scripts[client].output + bytes,
                ..s.scripts[client]
            };
            quiet(StateView { scripts: s.scripts.insert(client, c), ..s })
        } else {
            quiet(s)
        },
    }
}

/// The script of a client has run for too long at the nanosecond `now`.
pub open spec fn overdue(s: StateView, client: i32, now: u64) -> bool {
    s.scripts.contains_key(client) && now > s.scripts[client].deadline
}

/// A script that has run for too long is killed, and its client gets an error.
pub open spec fn overdue_turn(s: StateView, client: i32) -> Turn {
    let c = s.scripts[client];
    let t = response_turn(
        without_script(s, client),
        client,
        response::error_response(504, None),
        false,
    );
    Turn {
        state: t.state,
        effects: seq![EffectView::Kill(c.pid), EffectView::Deregister(c.stdout_fd)] + input_effect(
            c.stdin_fd,
            false,
        ) + t.effects,
    }
}

/// The scripts of the clients in `order` are killed, one after the other.
pub open spec fn overdue_turns(s: StateView, order: Seq<i32>) -> Turn
    decreases order.len(),
{
    if order.len() == 0 {
        quiet(s)
    } else {
        let t = overdue_turns(s, order.drop_last());
        let last = overdue_turn(t.state, order.last());
        Turn { state: last.state, effects: t.effects + last.effects }
    }
}

/// The client `fd` has been silent for too long in the second `now`.
pub open spec fn silent(s: StateView, fd: i32, now: u64) -> bool {
    s.clients.contains_key(fd) && clock::elapsed(now, s.clients[fd].last_active)
        > CLIENT_TIMEOUT_SECS
}

/// The clients in `order` are told that they have been silent for too long, and dropped, one after
/// the other.
pub open spec fn silent_turns(s: StateView, order: Seq<i32>) -> Turn
    decreases order.len(),
{
    if order.len() == 0 {
        quiet(s)
    } else {
        let t = silent_turns(s, order.drop_last());
        let last = error_turn(t.state, order.last(), 408, None);
        Turn { state: last.state, effects: t.effects + last.effects }
    }
}

/// How far the acceptance of a connection came.
pub enum Accepted {
    /// There was none, or it could not be accepted.
    Refused { errno: i32 },
    /// Its socket could not be made to not block.
    Blocking { fd: i32, message: String },
    /// It was to be watched.
    Connected { fd: i32, added: Result<(), i32> },
}

/// The size of the largest body that is accepted on a port: that of the first server that listens
/// on it.
pub open spec fn body_limit(servers: Seq<config::ServerView>, port: u16) -> usize {
    match router::listening_server(servers, port, 0) {
        Some(i) => servers[i].client_max_body_size,
        None => 1_048_576,
    }
}

/// What the acceptance of a connection on `port` comes to.
pub open spec fn accept_turn(
    s: StateView,
    port: u16,
    accepted: Accepted,
    servers: Seq<config::ServerView>,
    now: u64,
) -> Turn {
    match accepted {
        Accepted::Refused { errno } => if event_loop::blocks(errno) {
            quiet(s)
        } else {
            Turn {
                state: s,
                effects: seq![EffectView::Log(event_loop::failure("accept() error"@, errno))],
            }
        },
        Accepted::Blocking { fd, message } => Turn {
            state: s,
            effects: seq![
                EffectView::Log("set_nonblocking failed: "@ + message@),
                EffectView::Close(fd),
            ],
        },
        Accepted::Connected { fd, added: Err(errno) } => Turn {
            state: s,
            effects: seq![
                EffectView::Log(
                    "add_client failed: "@ + event_loop::watch_failure("ADD"@, fd, errno),
                ),
                EffectView::Close(fd),
            ],
        },
        Accepted::Connected { fd, added: Ok(_) } => quiet(
            StateView {
                watched: s.watched.insert(fd, FdKind::Client),
                clients: s.clients.insert(
                    fd,
                    new_client(body_limit(servers, port) as nat, port, now),
                ),
                ..s
            },
        ),
    }
}

/// The number of the next round.
pub open spec fn next_tick(tick: u64) -> u64 {
    if tick == u64::MAX {
        0
    } else {
        (tick + 1) as u64
    }
}

/// What follows once a new listener was to be watched.
pub open spec fn listener_turn(
    s: StateView,
    host: Seq<char>,
    port: u16,
    fd: i32,
    added: Result<(), i32>,
) -> Turn {
    match added {
        Ok(_) => Turn {
            state: StateView {
                watched: s.watched.insert(fd, FdKind::Listener(port)),
                bound: s.bound.push((host, port)),
                ..s
            },
            effects: seq![EffectView::Announce("Listening on "@ + listener::endpoint(host, port))],
        },
        Err(errno) => Turn {
            state: s,
            effects: seq![
                EffectView::Log(
                    "epoll: failed to register listener "@ + listener::endpoint(host, port) + ": "@
                        + event_loop::watch_failure("ADD"@, fd, errno),
                ),
                EffectView::Close(fd),
            ],
        },
    }
}

/// A client that has just connected.
pub open spec fn new_client(max_body: nat, port: u16, now: u64) -> ClientView {
    ClientView {
        buffer: Seq::empty(),
        max_body,
        write_buf: Seq::empty(),
        write_offset: 0,
        last_active: now,
        port,
        close_after_write: false,
    }
}

// ---------------------------------------------------------------------------
// Laws
// ---------------------------------------------------------------------------

/// Nothing has changed for any client but `fd`, nor for a script of another.
pub open spec fn others_untouched(s: StateView, t: StateView, fd: i32) -> bool {
    &&& s.clients.remove(fd) == t.clients.remove(fd)
    &&& s.scripts.remove(fd) == t.scripts.remove(fd)
    &&& s.bound == t.bound
    &&& s.tick == t.tick
    &&& s.reap_queue == t.reap_queue
}

/// What happens on the connection of one client changes nothing for the others.
pub proof fn law_connections_are_independent(
    s: StateView,
    fd: i32,
    data: Result<Seq<u8>, i32>,
    written: Result<usize, i32>,
    changed: Result<(), i32>,
    resp: response::ResponseView,
    keep_alive: bool,
    servers: Seq<config::ServerView>,
    now: u64,
)
    ensures
        others_untouched(s, read_turn(s, fd, data, servers, now).0, fd),
        others_untouched(s, request_done(s, fd), fd),
        others_untouched(s, response_turn(s, fd, resp, keep_alive).state, fd),
        others_untouched(s, armed_turn(s, fd, "set_writable: "@, changed).state, fd),
        others_untouched(s, armed_turn(s, fd, "set_readable: "@, changed).state, fd),
        others_untouched(s, write_turn(s, fd).state, fd),
        others_untouched(s, written_turn(s, fd, written, now).state, fd),
        others_untouched(s, gone_turn(s, fd).state, fd),
{
    lemma_updates_stay_apart(s, fd);
    if let Ok(bytes) = data {
        if s.clients.contains_key(fd) {
            let c = fed(s.clients[fd], bytes, now);
            let t = StateView { clients: s.clients.insert(fd, c), ..s };
            lemma_updates_stay_apart(t, fd);
        }
    }
    if let Ok(n) = written {
        if s.clients.contains_key(fd) {
            let c = ClientView {
                write_offset: s.clients[fd].write_offset + n as nat,
                last_active: now,
                ..s.clients[fd]
            };
            let t = StateView { clients: s.clients.insert(fd, c), ..s };
            lemma_updates_stay_apart(t, fd);
        }
    }
}

/// Changing or removing the client `fd` or its script leaves the others as they are.
proof fn lemma_updates_stay_apart(s: StateView, fd: i32)
    ensures
        forall|c: ClientView| #[trigger]
            s.clients.insert(fd, c).remove(fd) == s.clients.remove(fd),
        s.clients.remove(fd).remove(fd) == s.clients.remove(fd),
        forall|c: ScriptView| #[trigger]
            s.scripts.insert(fd, c).remove(fd) == s.scripts.remove(fd),
        s.scripts.remove(fd).remove(fd) == s.scripts.remove(fd),
{
    assert forall|c: ClientView| #[trigger]
        s.clients.insert(fd, c).remove(fd) == s.clients.remove(fd) by {
        assert(s.clients.insert(fd, c).remove(fd) =~= s.clients.remove(fd));
    }
    assert(s.clients.remove(fd).remove(fd) =~= s.clients.remove(fd));
    assert forall|c: ScriptView| #[trigger]
        s.scripts.insert(fd, c).remove(fd) == s.scripts.remove(fd) by {
        assert(s.scripts.insert(fd, c).remove(fd) =~= s.scripts.remove(fd));
    }
    assert(s.scripts.remove(fd).remove(fd) =~= s.scripts.remove(fd));
}

/// A script, however slow it is or whatever it does, changes nothing for any client but its own.
pub proof fn law_scripts_hold_up_nobody_else(
    s: StateView,
    client: i32,
    pipe: i32,
    process: CgiProcess,
    keep_alive: bool,
    added: Result<(), i32>,
    page: Option<Seq<char>>,
    written: Result<usize, i32>,
    data: Result<Seq<u8>, i32>,
    now: u64,
)
    ensures
        others_untouched(
            s,
            start_turn(s, client, process, keep_alive, added, page, now).state,
            client,
        ),
        others_untouched(s, input_turn(s, pipe, client, added).state, client),
        others_untouched(s, feed_turn(s, pipe, client).state, client),
        others_untouched(s, fed_turn(s, pipe, client, written).state, client),
        others_untouched(s, input_gone(s, client).state, client),
        others_untouched(s, output_turn(s, client, data).state, client),
        others_untouched(s, finalize_turn(s, client).state, client),
        others_untouched(s, overdue_turn(s, client).state, client),
{
    lemma_updates_stay_apart(s, client);
    if let Ok(n) = written {
        if s.scripts.contains_key(client) {
            let c = ScriptView {
                stdin_offset: s.scripts[client].stdin_offset + n as nat,
                ..s.scripts[client]
            };
            let t = StateView { scripts: s.scripts.insert(client, c), ..s };
            lemma_updates_stay_apart(t, client);
        }
    }
}

/// A response is sent in order and once: what was sent before and what is sent now are the start
/// of it. With its last byte the connection turns to the next request, of which nothing was kept,
/// or is closed, as was announced.
pub proof fn law_response_is_sent(
    s: StateView,
    fd: i32,
    resp: response::ResponseView,
    keep_alive: bool,
    n: usize,
    now: u64,
)
    requires
        s.clients.contains_key(fd),
        s.clients[fd].write_buf == response::serialized(connection_set(resp, keep_alive)),
        s.clients[fd].close_after_write == !keep_alive,
        n > 0,
        s.clients[fd].write_offset + n <= s.clients[fd].write_buf.len(),
    ensures
        ({
            let c = s.clients[fd];
            let t = written_turn(s, fd, Ok(n), now);
            &&& c.write_buf.take(c.write_offset as int) + c.write_buf.skip(
                c.write_offset as int,
            ).take(n as int) == c.write_buf.take(c.write_offset + n)
            &&& c.write_offset + n < c.write_buf.len() ==> t.effects == Seq::<EffectView>::empty()
                && t.state.clients.contains_key(fd) && t.state.clients[fd].write_buf == c.write_buf
                && t.state.clients[fd].write_offset == c.write_offset + n
            &&& c.write_offset + n == c.write_buf.len() && keep_alive ==> t.effects
                == seq![EffectView::SetReadable(fd)] && t.state.clients.contains_key(fd)
                && all_sent(t.state.clients[fd]) && t.state.clients[fd].buffer == c.buffer
            &&& c.write_offset + n == c.write_buf.len() && !keep_alive ==> t.effects
                == seq![EffectView::Deregister(fd)] && !t.state.clients.contains_key(fd)
        }),
{
    let c = s.clients[fd];
    assert(c.write_buf.take(c.write_offset as int) + c.write_buf.skip(c.write_offset as int).take(
        n as int,
    ) =~= c.write_buf.take(c.write_offset + n));
}

/// The answer to a request: nothing of the request is kept, and all of the response is to be sent,
/// with a header field that tells what becomes of the connection.
pub proof fn law_request_is_answered(
    s: StateView,
    fd: i32,
    resp: response::ResponseView,
    keep_alive: bool,
)
    requires
        s.clients.contains_key(fd),
        assoc::keys_unique(resp.headers),
    ensures
        ({
            let t = response_turn(request_done(s, fd), fd, resp, keep_alive);
            let c = t.state.clients[fd];
            &&& t.effects == seq![EffectView::SetWritable(fd)]
            &&& t.state.clients.contains_key(fd)
            &&& c.buffer == Seq::<u8>::empty()
            &&& c.write_offset == 0
            &&& c.write_buf == response::serialized(connection_set(resp, keep_alive))
            &&& c.close_after_write == !keep_alive
        }),
        assoc::map_of(connection_set(resp, keep_alive).headers) == assoc::map_of(
            resp.headers,
        ).insert(
            "Connection"@,
            if keep_alive {
                "keep-alive"@
            } else {
                "close"@
            },
        ),
{
    assoc::lemma_with_entry(
        resp.headers,
        "Connection"@,
        if keep_alive {
            "keep-alive"@
        } else {
            "close"@
        },
    );
}

/// Exactly the clients that were silent for too long are dropped, whatever the order, and nothing
/// changes for the others nor for any script.
pub proof fn law_silent_clients_are_dropped(s: StateView, order: Seq<i32>, now: u64)
    requires
        forall|fd: i32| #[trigger] order.contains(fd) <==> silent(s, fd, now),
    ensures
        ({
            let t = silent_turns(s, order).state;
            &&& t.scripts == s.scripts
            &&& forall|fd: i32| #[trigger]
                t.clients.contains_key(fd) <==> s.clients.contains_key(fd) && !silent(s, fd, now)
            &&& forall|fd: i32| #[trigger]
                t.clients.contains_key(fd) ==> t.clients[fd] == s.clients[fd]
        }),
{
    lemma_silent_turns(s, order);
}

proof fn lemma_silent_turns(s: StateView, order: Seq<i32>)
    ensures
        ({
            let t = silent_turns(s, order).state;
            &&& t.scripts == s.scripts
            &&& forall|fd: i32| #[trigger]
                t.clients.contains_key(fd) <==> s.clients.contains_key(fd) && !order.contains(fd)
            &&& forall|fd: i32| #[trigger]
                t.clients.contains_key(fd) ==> t.clients[fd] == s.clients[fd]
        }),
    decreases order.len(),
{
    if order.len() > 0 {
        let rest = order.drop_last();
        lemma_silent_turns(s, rest);
        assert forall|fd: i32| #[trigger] order.contains(fd) <==> rest.contains(fd) || fd
            == order.last() by {
            if order.contains(fd) {
                let i = choose|i: int| 0 <= i < order.len() && order[i] == fd;
                if i < rest.len() {
                    assert(rest[i] == fd);
                }
            }
            if rest.contains(fd) {
                let i = choose|i: int| 0 <= i < rest.len() && rest[i] == fd;
                assert(order[i] == fd);
            }
            assert(order[order.len() - 1] == order.last());
        }
    }
}

/// Exactly the scripts that have run for too long are killed, whatever the order. The client of
/// each, if it is still there, gets an error and is then closed; nothing changes for the other
/// clients and scripts.
pub proof fn law_overdue_scripts_are_killed(s: StateView, order: Seq<i32>, now: u64)
    requires
        order.no_duplicates(),
        forall|fd: i32| #[trigger] order.contains(fd) <==> overdue(s, fd, now),
    ensures
        ({
            let t = overdue_turns(s, order).state;
            &&& forall|fd: i32| #[trigger]
                t.scripts.contains_key(fd) <==> s.scripts.contains_key(fd) && !overdue(s, fd, now)
            &&& forall|fd: i32| #[trigger]
                t.scripts.contains_key(fd) ==> t.scripts[fd] == s.scripts[fd]
            &&& t.clients.dom() == s.clients.dom()
            &&& forall|fd: i32| #[trigger]
                t.clients.contains_key(fd) ==> t.clients[fd] == if overdue(s, fd, now) {
                    answered(s.clients[fd], response::error_response(504, None), false)
                } else {
                    s.clients[fd]
                }
        }),
{
    lemma_overdue_turns(s, order);
    assert(overdue_turns(s, order).state.clients.dom() =~= s.clients.dom());
}

proof fn lemma_overdue_turns(s: StateView, order: Seq<i32>)
    requires
        order.no_duplicates(),
        forall|fd: i32| #[trigger] order.contains(fd) ==> s.scripts.contains_key(fd),
    ensures
        ({
            let t = overdue_turns(s, order).state;
            &&& forall|fd: i32| #[trigger]
                t.scripts.contains_key(fd) <==> s.scripts.contains_key(fd) && !order.contains(fd)
            &&& forall|fd: i32| #[trigger]
                t.scripts.contains_key(fd) ==> t.scripts[fd] == s.scripts[fd]
            &&& forall|fd: i32| #[trigger]
                t.clients.contains_key(fd) <==> s.clients.contains_key(fd)
            &&& forall|fd: i32| #[trigger]
                t.clients.contains_key(fd) ==> t.clients[fd] == if order.contains(fd) {
                    answered(s.clients[fd], response::error_response(504, None), false)
                } else {
                    s.clients[fd]
                }
        }),
    decreases order.len(),
{
    if order.len() > 0 {
        let rest = order.drop_last();
        let last = order.last();
        assert forall|fd: i32| #[trigger] order.contains(fd) <==> rest.contains(fd) || fd
            == last by {
            if order.contains(fd) {
                let i = choose|i: int| 0 <= i < order.len() && order[i] == fd;
                if i < rest.len() {
                    assert(rest[i] == fd);
                }
            }
            if rest.contains(fd) {
                let i = choose|i: int| 0 <= i < rest.len() && rest[i] == fd;
                assert(order[i] == fd);
            }
            assert(order[order.len() - 1] == last);
        }
        assert(!rest.contains(last)) by {
            if rest.contains(last) {
                let i = choose|i: int| 0 <= i < rest.len() && rest[i] == last;
                assert(order[i] == order[order.len() - 1]);
            }
        }
        assert forall|fd: i32| #[trigger] rest.contains(fd) implies s.scripts.contains_key(
            fd,
        ) by {
            assert(order.contains(fd));
        }
        lemma_overdue_turns(s, rest);
        let t = overdue_turns(s, rest).state;
        assert(order.contains(last));
        assert(t.scripts.contains_key(last));
    }
}

/// No address and port is bound twice: what is bound is not asked for again, and what was not yet
/// bound can be added.
pub proof fn law_bound_once(
    s: StateView,
    host: Seq<char>,
    port: u16,
    fd: i32,
    added: Result<(), i32>,
)
    requires
        s.bound.no_duplicates(),
        !s.bound.contains((host, port)),
    ensures
        ({
            let t = listener_turn(s, host, port, fd, added).state;
            &&& t.bound.no_duplicates()
            &&& t.bound.contains((host, port)) <==> added is Ok
        }),
{
    if added is Ok {
        let t = s.bound.push((host, port));
        assert(t[s.bound.len() as int] == (host, port));
    }
}

/// What comes of an attempt to listen: nothing if there is no listener, else its descriptor and
/// whether it could be watched.
pub type Attempt = Option<(i32, Result<(), i32>)>;

/// The attempt brought a listener that is watched.
pub open spec fn succeeds(attempt: Attempt) -> bool {
    attempt matches Some((fd, added)) && added is Ok
}

/// The state after the first `n` addresses and ports were gone through: one that is bound already
/// is passed over, and one for which there is no listener is skipped.
pub open spec fn started_up(
    s: StateView,
    places: Seq<(Seq<char>, u16)>,
    attempts: Seq<Attempt>,
    n: int,
) -> StateView
    decreases n,
{
    if n <= 0 {
        s
    } else {
        let t = started_up(s, places, attempts, n - 1);
        let (host, port) = places[n - 1];
        if t.bound.contains((host, port)) {
            t
        } else {
            match attempts[n - 1] {
                Some((fd, added)) => listener_turn(t, host, port, fd, added).state,
                None => t,
            }
        }
    }
}

/// One of the first `n` attempts to listen in this place succeeds.
pub open spec fn won(
    places: Seq<(Seq<char>, u16)>,
    attempts: Seq<Attempt>,
    n: int,
    place: (Seq<char>, u16),
) -> bool {
    exists|i: int| 0 <= i < n && #[trigger] places[i] == place && succeeds(attempts[i])
}

proof fn lemma_started_up(
    s: StateView,
    places: Seq<(Seq<char>, u16)>,
    attempts: Seq<Attempt>,
    n: int,
)
    requires
        0 <= n <= places.len(),
        s.bound.len() == 0,
    ensures
        ({
            let t = started_up(s, places, attempts, n);
            &&& t.bound.no_duplicates()
            &&& forall|place: (Seq<char>, u16)| #[trigger]
                t.bound.contains(place) <==> won(places, attempts, n, place)
        }),
    decreases n,
{
    let t = started_up(s, places, attempts, n);
    if n > 0 {
        let before = started_up(s, places, attempts, n - 1);
        let last = places[n - 1];
        lemma_started_up(s, places, attempts, n - 1);
        assert forall|place: (Seq<char>, u16)|
            won(places, attempts, n, place) <==> #[trigger] won(places, attempts, n - 1, place) || (
            place == last && succeeds(attempts[n - 1])) by {
            if won(places, attempts, n - 1, place) {
                let i = choose|i: int|
                    0 <= i < n - 1 && #[trigger] places[i] == place && succeeds(attempts[i]);
                assert(places[i] == place);
            }
            if place == last && succeeds(attempts[n - 1]) {
                assert(places[n - 1] == place);
            }
        }
        assert forall|place: (Seq<char>, u16)| #[trigger]
            t.bound.contains(place) <==> won(places, attempts, n, place) by {
            assert(before.bound.contains(place) <==> won(places, attempts, n - 1, place));
            if !before.bound.contains(last) && succeeds(attempts[n - 1]) {
                assert(t.bound == before.bound.push(last));
                assert(t.bound[before.bound.len() as int] == last);
                if before.bound.contains(place) {
                    let i = choose|i: int| 0 <= i < before.bound.len() && before.bound[i] == place;
                    assert(t.bound[i] == place);
                }
            }
        }
    }
}

/// Whatever becomes of the attempts to listen, one of them failing keeps no other from being made.
/// In the end exactly the addresses and ports of the configuration are bound for which an attempt
/// succeeded, each once; and nothing is bound only if every attempt failed.
pub proof fn law_start_up(
    s: StateView,
    servers: Seq<config::ServerView>,
    attempts: Seq<Attempt>,
)
    requires
        s.bound.len() == 0,
        attempts.len() == listener::endpoints_of(servers, servers.len() as int).len(),
    ensures
        ({
            let places = listener::endpoints_of(servers, servers.len() as int);
            let n = places.len() as int;
            let t = started_up(s, places, attempts, n);
            &&& t.bound.no_duplicates()
            &&& forall|place: (Seq<char>, u16)| #[trigger]
                t.bound.contains(place) <==> won(places, attempts, n, place)
            &&& t.bound.len() == 0 <==> forall|i: int|
                0 <= i < n ==> !succeeds(#[trigger] attempts[i])
        }),
{
    let places = listener::endpoints_of(servers, servers.len() as int);
    let n = places.len() as int;
    let t = started_up(s, places, attempts, n);
    lemma_started_up(s, places, attempts, n);
    if t.bound.len() > 0 {
        assert(t.bound.contains(t.bound[0]));
        assert(won(places, attempts, n, t.bound[0]));
    } else {
        assert forall|i: int| 0 <= i < n implies !succeeds(#[trigger] attempts[i]) by {
            if succeeds(attempts[i]) {
                assert(places[i] == places[i]);
                assert(won(places, attempts, n, places[i]));
                assert(t.bound.contains(places[i]));
            }
        }
    }
}

/// Every client and every output of a script is watched as what it is, and what is watched in the
/// place of an input of a script is that input.
pub open spec fn consistent(s: StateView) -> bool {
    &&& forall|fd: i32| #[trigger]
        s.clients.contains_key(fd) ==> s.watched.contains_key(fd) && s.watched[fd] == FdKind::Client
    &&& forall|c: i32| #[trigger]
        s.scripts.contains_key(c) ==> s.watched.contains_key(s.scripts[c].stdout_fd)
            && s.watched[s.scripts[c].stdout_fd] == FdKind::CgiStdout(c)
    &&& forall|c: i32| #[trigger]
        s.scripts.contains_key(c) ==> (s.scripts[c].stdin_fd matches Some(pipe)
            ==> s.watched.contains_key(pipe) ==> s.watched[pipe] == FdKind::CgiStdin(c))
}

/// The descriptor belongs to nothing yet.
pub open spec fn fresh(s: StateView, fd: i32) -> bool {
    !s.watched.contains_key(fd) && forall|c: i32| #[trigger]
        s.scripts.contains_key(c) ==> s.scripts[c].stdin_fd != Some(fd)
}

/// The server stays consistent whatever happens on the connection of a client, with every new
/// descriptor belonging to nothing else.
pub proof fn law_connections_stay_consistent(
    s: StateView,
    fd: i32,
    port: u16,
    accepted: Accepted,
    data: Result<Seq<u8>, i32>,
    written: Result<usize, i32>,
    changed: Result<(), i32>,
    resp: response::ResponseView,
    keep_alive: bool,
    servers: Seq<config::ServerView>,
    now: u64,
)
    requires
        consistent(s),
        s.watched.contains_key(fd) ==> s.watched[fd] == FdKind::Client,
        accepted matches Accepted::Connected { fd: new, added } ==> fresh(s, new),
    ensures
        consistent(accept_turn(s, port, accepted, servers, now).state),
        consistent(read_turn(s, fd, data, servers, now).0),
        consistent(request_done(s, fd)),
        consistent(response_turn(s, fd, resp, keep_alive).state),
        consistent(armed_turn(s, fd, "set_writable: "@, changed).state),
        consistent(armed_turn(s, fd, "set_readable: "@, changed).state),
        consistent(write_turn(s, fd).state),
        consistent(written_turn(s, fd, written, now).state),
        consistent(gone_turn(s, fd).state),
{
    if let Ok(bytes) = data {
        if s.clients.contains_key(fd) {
            let c = fed(s.clients[fd], bytes, now);
            assert(consistent(StateView { clients: s.clients.insert(fd, c), ..s }));
        }
    }
    if let Ok(n) = written {
        if s.clients.contains_key(fd) {
            let c = ClientView {
                write_offset: s.clients[fd].write_offset + n as nat,
                last_active: now,
                ..s.clients[fd]
            };
            assert(consistent(StateView { clients: s.clients.insert(fd, c), ..s }));
        }
    }
}

/// The server stays consistent whatever a script does, with every new pipe belonging to nothing
/// else.
pub proof fn law_scripts_stay_consistent(
    s: StateView,
    client: i32,
    pipe: i32,
    process: CgiProcess,
    keep_alive: bool,
    added: Result<(), i32>,
    page: Option<Seq<char>>,
    written: Result<usize, i32>,
    data: Result<Seq<u8>, i32>,
    now: u64,
)
    requires
        consistent(s),
        s.watched.contains_key(client) ==> s.watched[client] == FdKind::Client,
        fresh(s, process.stdout_fd),
        process.stdin_fd matches Some(p) ==> fresh(s, p) && p != process.stdout_fd,
        s.watched.contains_key(pipe) ==> s.watched[pipe] == FdKind::CgiStdin(client),
        forall|c: i32| #[trigger]
            s.scripts.contains_key(c) && c != client ==> s.scripts[c].stdin_fd != Some(pipe),
    ensures
        consistent(start_turn(s, client, process, keep_alive, added, page, now).state),
        consistent(input_turn(s, pipe, client, added).state),
        consistent(feed_turn(s, pipe, client).state),
        consistent(fed_turn(s, pipe, client, written).state),
        consistent(input_gone(s, client).state),
        consistent(output_turn(s, client, data).state),
        consistent(finalize_turn(s, client).state),
        s.scripts.contains_key(client) ==> consistent(overdue_turn(s, client).state),
{
    lemma_consistent_input_closed(s, pipe, client);
    if s.scripts.contains_key(client) {
        lemma_consistent_without_script(s, client);
        if let Some(own) = s.scripts[client].stdin_fd {
            lemma_consistent_input_closed(s, own, client);
        }
    }
    if let Ok(n) = written {
        if s.scripts.contains_key(client) {
            let c = ScriptView {
                stdin_offset: s.scripts[client].stdin_offset + n as nat,
                ..s.scripts[client]
            };
            let t = StateView { scripts: s.scripts.insert(client, c), ..s };
            assert(consistent(t));
            lemma_consistent_input_closed(t, pipe, client);
        }
    }
}

proof fn lemma_consistent_without_script(s: StateView, client: i32)
    requires
        consistent(s),
        s.scripts.contains_key(client),
    ensures
        consistent(without_script(s, client)),
{
}

proof fn lemma_consistent_input_closed(s: StateView, pipe: i32, client: i32)
    requires
        consistent(s),
        s.watched.contains_key(pipe) ==> s.watched[pipe] == FdKind::CgiStdin(client),
    ensures
        consistent(input_closed(s, pipe, client).state),
{
}

/// A new listener, with a descriptor that belongs to nothing else, leaves the server consistent.
pub proof fn law_listeners_stay_consistent(
    s: StateView,
    host: Seq<char>,
    port: u16,
    fd: i32,
    added: Result<(), i32>,
)
    requires
        consistent(s),
        fresh(s, fd),
    ensures
        consistent(listener_turn(s, host, port, fd, added).state),
{
}

/// Dropping silent clients and killing overdue scripts leaves the server consistent, whatever the
/// order.
pub proof fn law_timeouts_stay_consistent(s: StateView, order: Seq<i32>, now: u64)
    requires
        consistent(s),
        order.no_duplicates(),
    ensures
        (forall|fd: i32| #[trigger] order.contains(fd) ==> silent(s, fd, now)) ==> consistent(
            silent_turns(s, order).state,
        ),
        (forall|fd: i32| #[trigger] order.contains(fd) ==> overdue(s, fd, now)) ==> consistent(
            overdue_turns(s, order).state,
        ),
    decreases order.len(),
{
    if order.len() > 0 {
        let rest = order.drop_last();
        let last = order.last();
        assert forall|fd: i32| #[trigger] rest.contains(fd) implies order.contains(fd) by {
            let i = choose|i: int| 0 <= i < rest.len() && rest[i] == fd;
            assert(order[i] == fd);
        }
        assert(!rest.contains(last)) by {
            if rest.contains(last) {
                let i = choose|i: int| 0 <= i < rest.len() && rest[i] == last;
                assert(order[i] == order[order.len() - 1]);
            }
        }
        assert(order.contains(last));
        law_timeouts_stay_consistent(s, rest, now);
        if forall|fd: i32| #[trigger] order.contains(fd) ==> silent(s, fd, now) {
            lemma_silent_turns(s, rest);
            let t = silent_turns(s, rest).state;
            assert(t.clients.contains_key(last));
        }
        if forall|fd: i32| #[trigger] order.contains(fd) ==> overdue(s, fd, now) {
            lemma_overdue_turns(s, rest);
            let t = overdue_turns(s, rest).state;
            assert(t.scripts.contains_key(last));
            lemma_consistent_without_script(t, last);
        }
    }
}

// ---------------------------------------------------------------------------
// Requests and connections
// ---------------------------------------------------------------------------

/// A client that wants its connection closed says so, in any mix of cases; one that says anything
/// else wants it kept. Of one that says nothing the version of the protocol decides.
pub proof fn law_keep_alive(req: request::RequestView)
    ensures
        req.headers.contains_key("connection"@) && text::same_ignoring_ascii_case(
            req.headers["connection"@],
            "close"@,
        ) ==> !keeps_alive(req),
        req.headers.contains_key("connection"@) && is_ascii_chars(req.headers["connection"@])
            && !text::same_ignoring_ascii_case(req.headers["connection"@], "close"@)
            ==> keeps_alive(req),
        req.headers.contains_key("connection"@) ==> (keeps_alive(req) <==> text::lowercase(
            req.headers["connection"@],
        ) != "close"@),
        !req.headers.contains_key("connection"@) ==> (keeps_alive(req) <==> req.version
            == "HTTP/1.1"@),
{
    reveal_strlit("close");
    let own = "close"@;
    assert(text::ascii_lowercase(own) =~= own);
    if req.headers.contains_key("connection"@) {
        let value = req.headers["connection"@];
        if text::same_ignoring_ascii_case(value, own) {
            assert forall|i: int| 0 <= i < value.len() implies '\0' <= #[trigger] value[i]
                <= '\u{7f}' by {
                assert('\0' <= own[i] <= '\u{7f}');
            }
            text::law_case_does_not_matter(value, own);
        } else if is_ascii_chars(value) {
            text::law_case_does_not_matter(value, own);
        }
    }
}

/// The effects tell the client `fd` of the error `code`, with the page that is configured for it or
/// the standard one, and then close the connection.
pub open spec fn refuses(
    effects: Seq<EffectView>,
    fd: i32,
    code: u16,
    page: Option<Seq<char>>,
) -> bool {
    &&& effects.len() == 2
    &&& page matches Some(path) ==> effects[0] == (EffectView::SendPage { fd, code, path })
    &&& page is None ==> effects[0] == (EffectView::Send {
        fd,
        bytes: response::serialized(response::error_response(code, None)),
    })
    &&& effects[1] == EffectView::Deregister(fd)
}

/// The page for a status is that of the server which is chosen for the request, if it has one.
pub proof fn law_configured_page(
    servers: Seq<config::ServerView>,
    host: Seq<char>,
    port: u16,
    code: u16,
    k: int,
)
    requires
        0 <= k < servers.len(),
        router::server_for(servers, host, port) == k,
    ensures
        servers[k].error_pages.contains_key(code) ==> configured_page(servers, host, port, code)
            == Some(servers[k].error_pages[code]),
        !servers[k].error_pages.contains_key(code) ==> configured_page(servers, host, port, code)
            is None,
{
}

/// What a client has sent so far, with what it sends now, is taken as one: a whole request is
/// handed on with the port it came on; of a part of one the rest is waited for; a request that is
/// too large is answered with 413 and one that is malformed with 400, with the page of the server
/// that it names, and the connection is closed.
pub proof fn law_client_is_read(
    s: StateView,
    fd: i32,
    data: Seq<u8>,
    servers: Seq<config::ServerView>,
    now: u64,
)
    requires
        s.clients.contains_key(fd),
        data.len() > 0,
        request::sizes_fit(s.clients[fd].buffer + data),
    ensures
        ({
            let c = s.clients[fd];
            let whole = c.buffer + data;
            let (t, r) = read_turn(s, fd, Ok(data), servers, now);
            let parsed = request::parsed(whole, c.max_body);
            &&& parsed matches request::ParseView::Complete(req) ==> {
                &&& r matches ReadView::Request { request, keep_alive, port }
                &&& request == req
                &&& keep_alive == keeps_alive(req)
                &&& port == c.port
            }
            &&& parsed is Complete || parsed is Incomplete ==> {
                &&& t.clients.contains_key(fd)
                &&& t.clients[fd].buffer == whole
                &&& t.clients[fd].last_active == now
                &&& t.clients[fd].max_body == c.max_body
                &&& t.clients[fd].port == c.port
            }
            &&& parsed is Incomplete ==> r == ReadView::Effects(Seq::empty())
            &&& parsed is TooLarge ==> (r matches ReadView::Effects(effects) && refuses(
                effects,
                fd,
                413,
                configured_page(servers, request::named_host(whole), c.port, 413),
            )) && !t.clients.contains_key(fd)
            &&& parsed is Invalid ==> (r matches ReadView::Effects(effects) && refuses(
                effects,
                fd,
                400,
                configured_page(servers, request::named_host(whole), c.port, 400),
            )) && !t.clients.contains_key(fd)
        }),
{
}

/// It does not matter in how many pieces a request arrives: what is read after a part that was not
/// enough is what is read of both parts at once.
pub proof fn law_pieces_do_not_matter(
    s: StateView,
    fd: i32,
    a: Seq<u8>,
    b: Seq<u8>,
    servers: Seq<config::ServerView>,
    before: u64,
    now: u64,
)
    requires
        s.clients.contains_key(fd),
        a.len() > 0,
        b.len() > 0,
        request::sizes_fit(s.clients[fd].buffer + a),
        request::parsed(s.clients[fd].buffer + a, s.clients[fd].max_body) is Incomplete,
    ensures
        read_turn(read_turn(s, fd, Ok(a), servers, before).0, fd, Ok(b), servers, now)
            == read_turn(s, fd, Ok(a + b), servers, now),
{
    let c = s.clients[fd];
    let first = read_turn(s, fd, Ok(a), servers, before).0;
    assert(first.clients[fd] == fed(c, a, before));
    assert((c.buffer + a) + b =~= c.buffer + (a + b));
    assert(fed(fed(c, a, before), b, now) == fed(c, a + b, now));
    assert(first.clients.insert(fd, fed(c, a + b, now)) =~= s.clients.insert(
        fd,
        fed(c, a + b, now),
    ));
}

/// A client that ends its connection, or whose connection fails, is dropped; a read that would have
/// blocked changes nothing.
pub proof fn law_end_of_client(
    s: StateView,
    fd: i32,
    errno: i32,
    servers: Seq<config::ServerView>,
    now: u64,
)
    ensures
        ({
            let (t, r) = read_turn(s, fd, Ok(Seq::empty()), servers, now);
            !t.clients.contains_key(fd) && !t.watched.contains_key(fd) && r == ReadView::Effects(
                seq![EffectView::Deregister(fd)],
            )
        }),
        errno != 11 ==> ({
            let (t, r) = read_turn(s, fd, Err(errno), servers, now);
            !t.clients.contains_key(fd) && !t.watched.contains_key(fd) && r == ReadView::Effects(
                seq![EffectView::Deregister(fd)],
            )
        }),
        read_turn(s, fd, Err(11), servers, now) == (s, ReadView::Effects(Seq::empty())),
{
}

/// A new client has sent nothing, is watched, and may send bodies up to the limit of the first
/// server on its port.
pub proof fn law_new_client(
    s: StateView,
    port: u16,
    fd: i32,
    servers: Seq<config::ServerView>,
    now: u64,
    k: int,
)
    requires
        0 <= k < servers.len(),
        servers[k].ports.contains(port),
        forall|j: int| 0 <= j < k ==> !(#[trigger] servers[j]).ports.contains(port),
    ensures
        ({
            let t = accept_turn(s, port, Accepted::Connected { fd, added: Ok(()) }, servers, now);
            &&& t.effects.len() == 0
            &&& t.state.watched.contains_key(fd) && t.state.watched[fd] == FdKind::Client
            &&& t.state.clients.contains_key(fd)
            &&& t.state.clients[fd].buffer.len() == 0
            &&& t.state.clients[fd].max_body == servers[k].client_max_body_size
            &&& t.state.clients[fd].port == port
            &&& t.state.clients[fd].last_active == now
        }),
{
    lemma_first_listening(servers, port, 0, k);
}

proof fn lemma_first_listening(
    servers: Seq<config::ServerView>,
    port: u16,
    i: int,
    k: int,
)
    requires
        0 <= i <= k < servers.len(),
        servers[k].ports.contains(port),
        forall|j: int| i <= j < k ==> !(#[trigger] servers[j]).ports.contains(port),
    ensures
        router::listening_server(servers, port, i) == Some(k),
    decreases k - i,
{
    if i < k {
        assert(!servers[i].ports.contains(port));
        lemma_first_listening(servers, port, i + 1, k);
    }
}

/// A client is silent for too long thirty seconds after it was last heard of, and not before.
pub proof fn law_client_patience(s: StateView, fd: i32, now: u64)
    requires
        s.clients.contains_key(fd),
        s.clients[fd].last_active <= now,
    ensures
        silent(s, fd, now) <==> now > s.clients[fd].last_active + 30,
{
}

/// A script has ten seconds, counted in nanoseconds from its start.
pub proof fn law_script_patience(
    s: StateView,
    fd: i32,
    process: CgiProcess,
    keep_alive: bool,
    page: Option<Seq<char>>,
    start: u64,
    now: u64,
)
    requires
        start + 10_000_000_000 <= u64::MAX,
    ensures
        overdue(
            start_turn(s, fd, process, keep_alive, Ok(()), page, start).state,
            fd,
            now,
        ) <==> now > start + 10_000_000_000,
{
}

/// Every client that was silent for too long is told so with 408, and its connection is closed.
pub proof fn law_silent_clients_are_told(s: StateView, order: Seq<i32>, k: int)
    requires
        0 <= k < order.len(),
    ensures
        ({
            let effects = silent_turns(s, order).effects;
            &&& effects.len() == 2 * order.len()
            &&& refuses(effects.subrange(2 * k, 2 * k + 2), order[k], 408, None)
        }),
    decreases order.len(),
{
    let rest = order.drop_last();
    let before = silent_turns(s, rest).effects;
    let last = error_turn(silent_turns(s, rest).state, order.last(), 408, None).effects;
    let all = silent_turns(s, order).effects;
    assert(all == before + last);
    lemma_silent_effects(s, rest);
    if k < rest.len() {
        law_silent_clients_are_told(s, rest, k);
        assert(all.subrange(2 * k, 2 * k + 2) =~= before.subrange(2 * k, 2 * k + 2));
    } else {
        assert(all.subrange(2 * k, 2 * k + 2) =~= last);
    }
}

proof fn lemma_silent_effects(s: StateView, order: Seq<i32>)
    ensures
        silent_turns(s, order).effects.len() == 2 * order.len(),
    decreases order.len(),
{
    if order.len() > 0 {
        lemma_silent_effects(s, order.drop_last());
    }
}

/// A script that has run for too long is killed, its pipes are closed, and its client, if it is
/// still there, is to receive 504, after which the connection is closed.
pub proof fn law_overdue_script(s: StateView, client: i32)
    requires
        s.scripts.contains_key(client),
    ensures
        ({
            let c = s.scripts[client];
            let t = overdue_turn(s, client);
            &&& t.effects.contains(EffectView::Kill(c.pid))
            &&& t.effects.contains(EffectView::Deregister(c.stdout_fd))
            &&& c.stdin_fd matches Some(pipe) ==> t.effects.contains(EffectView::Deregister(pipe))
            &&& !t.state.scripts.contains_key(client)
            &&& s.clients.contains_key(client) ==> {
                &&& t.effects.contains(EffectView::SetWritable(client))
                &&& t.state.clients[client].close_after_write
                &&& t.state.clients[client].write_offset == 0
                &&& t.state.clients[client].write_buf == response::serialized(
                    connection_set(response::error_response(504, None), false),
                )
            }
        }),
{
    let c = s.scripts[client];
    let e = overdue_turn(s, client).effects;
    assert(e[0] == EffectView::Kill(c.pid));
    assert(e[1] == EffectView::Deregister(c.stdout_fd));
    if let Some(pipe) = c.stdin_fd {
        assert(e[2] == EffectView::Deregister(pipe));
    }
    if s.clients.contains_key(client) {
        assert(e[e.len() - 1] == EffectView::SetWritable(client));
    }
}

/// A script that starts has written nothing, is watched for its output, has the body of the request
/// to read, and its client waits.
pub proof fn law_script_starts(
    s: StateView,
    fd: i32,
    process: CgiProcess,
    keep_alive: bool,
    page: Option<Seq<char>>,
    now: u64,
)
    ensures
        ({
            let t = start_turn(s, fd, process, keep_alive, Ok(()), page, now);
            let c = t.state.scripts[fd];
            &&& t.state.scripts.contains_key(fd)
            &&& t.state.watched.contains_key(process.stdout_fd)
            &&& t.state.watched[process.stdout_fd] == FdKind::CgiStdout(fd)
            &&& c.pid == process.pid
            &&& c.output.len() == 0
            &&& c.stdin_data == process.stdin_data@
            &&& c.stdin_offset == process.stdin_offset
            &&& c.keep_alive == keep_alive
            &&& t.effects.contains(EffectView::SetIdle(fd))
            &&& process.stdin_fd matches Some(pipe) ==> t.effects.contains(
                EffectView::WatchInput { pipe, client: fd },
            )
        }),
{
    let e = start_turn(s, fd, process, keep_alive, Ok(()), page, now).effects;
    assert(e[e.len() - 1] == EffectView::SetIdle(fd));
    if let Some(pipe) = process.stdin_fd {
        assert(e[0] == (EffectView::WatchInput { pipe, client: fd }));
    }
}

/// A script whose output cannot be watched is killed, its pipes are closed, and its client is told
/// of the error 500 and dropped.
pub proof fn law_unwatchable_script(
    s: StateView,
    fd: i32,
    process: CgiProcess,
    keep_alive: bool,
    errno: i32,
    page: Option<Seq<char>>,
    now: u64,
)
    ensures
        ({
            let t = start_turn(s, fd, process, keep_alive, Err(errno), page, now);
            let n = t.effects.len() as int;
            &&& t.effects.contains(EffectView::Kill(process.pid))
            &&& t.effects.contains(EffectView::Close(process.stdout_fd))
            &&& process.stdin_fd matches Some(pipe) ==> t.effects.contains(EffectView::Close(pipe))
            &&& n >= 2 && refuses(t.effects.subrange(n - 2, n), fd, 500, page)
            &&& !t.state.clients.contains_key(fd)
            &&& t.state.scripts == s.scripts
        }),
{
    let t = start_turn(s, fd, process, keep_alive, Err(errno), page, now);
    let e = t.effects;
    let n = e.len() as int;
    assert(e[1] == EffectView::Close(process.stdout_fd));
    assert(e[n - 3] == EffectView::Kill(process.pid));
    if let Some(pipe) = process.stdin_fd {
        assert(e[2] == EffectView::Close(pipe));
    }
    assert(e.subrange(n - 2, n) =~= error_turn(s, fd, 500, page).effects);
}

/// A script is given its input in order and once, and its input is closed with the last byte of it,
/// or when it cannot be written any more; the script is waited for all the same.
pub proof fn law_script_is_fed(
    s: StateView,
    pipe: i32,
    client: i32,
    n: usize,
    errno: i32,
)
    requires
        s.scripts.contains_key(client),
        s.scripts[client].stdin_offset + n <= s.scripts[client].stdin_data.len(),
    ensures
        ({
            let c = s.scripts[client];
            let t = fed_turn(s, pipe, client, Ok(n));
            let d = t.state.scripts[client];
            &&& t.state.scripts.contains_key(client)
            &&& d.stdin_data == c.stdin_data
            &&& d.stdin_offset == c.stdin_offset + n
            &&& d.output == c.output
            &&& c.stdin_offset + n < c.stdin_data.len() ==> t.effects.len() == 0 && d.stdin_fd
                == c.stdin_fd
            &&& c.stdin_offset + n == c.stdin_data.len() ==> t.effects == seq![
                EffectView::Deregister(pipe),
            ] && d.stdin_fd is None && !t.state.watched.contains_key(pipe)
        }),
        errno != 11 ==> ({
            let t = fed_turn(s, pipe, client, Err(errno));
            t.effects == seq![EffectView::Deregister(pipe)] && t.state.scripts.contains_key(client)
                && t.state.scripts[client].stdin_fd is None
        }),
        fed_turn(s, pipe, client, Err(11)) == quiet(s),
        s.scripts[client].stdin_offset < s.scripts[client].stdin_data.len() ==> feed_turn(
            s,
            pipe,
            client,
        ).effects == seq![EffectView::FeedScript { pipe, client }],
{
}

/// What a script writes is collected in order. At its end the process is reaped, its pipes are
/// closed, and its client is to receive the response that all of the output makes.
pub proof fn law_script_is_answered(
    s: StateView,
    client: i32,
    data: Seq<u8>,
    errno: i32,
)
    requires
        s.scripts.contains_key(client),
    ensures
        ({
            let c = s.scripts[client];
            let more = output_turn(s, client, Ok(data));
            let end = output_turn(s, client, Ok(Seq::empty()));
            let resp = handler::script_response(cgi::cgi_output(c.output));
            &&& data.len() > 0 ==> {
                &&& more.effects.len() == 0
                &&& more.state.scripts.contains_key(client)
                &&& more.state.scripts[client].output == c.output + data
                &&& more.state.clients == s.clients
            }
            &&& errno != 11 ==> output_turn(s, client, Err(errno)) == end
            &&& output_turn(s, client, Err(11)) == quiet(s)
            &&& !end.state.scripts.contains_key(client)
            &&& end.effects.contains(EffectView::Reap(c.pid))
            &&& end.effects.contains(EffectView::Deregister(c.stdout_fd))
            &&& c.stdin_fd matches Some(pipe) ==> end.effects.contains(
                EffectView::Deregister(pipe),
            )
            &&& s.clients.contains_key(client) ==> {
                &&& end.effects.contains(EffectView::SetWritable(client))
                &&& end.state.clients[client].write_offset == 0
                &&& end.state.clients[client].close_after_write == !c.keep_alive
                &&& end.state.clients[client].write_buf == response::serialized(
                    connection_set(resp, c.keep_alive),
                )
            }
        }),
{
    let c = s.scripts[client];
    let e = output_turn(s, client, Ok(Seq::empty())).effects;
    assert(e[0] == EffectView::Deregister(c.stdout_fd));
    if let Some(pipe) = c.stdin_fd {
        assert(e[1] == EffectView::Deregister(pipe));
        assert(e[2] == EffectView::Reap(c.pid));
    } else {
        assert(e[1] == EffectView::Reap(c.pid));
    }
    if s.clients.contains_key(client) {
        assert(e[e.len() - 1] == EffectView::SetWritable(client));
    }
}

/// A client with something left to receive is written to when there is room; a write that failed
/// drops it, and one that would have blocked changes nothing.
pub proof fn law_room_to_write(s: StateView, fd: i32, errno: i32, now: u64)
    requires
        s.clients.contains_key(fd),
    ensures
        s.clients[fd].write_offset < s.clients[fd].write_buf.len() ==> write_turn(s, fd) == (Turn {
            state: s,
            effects: seq![EffectView::WriteClient(fd)],
        }),
        written_turn(s, fd, Err(11), now) == quiet(s),
        errno != 11 ==> written_turn(s, fd, Err(errno), now).effects == seq![
            EffectView::Deregister(fd),
        ] && !written_turn(s, fd, Err(errno), now).state.clients.contains_key(fd),
{
}

/// A client whose events cannot be changed is dropped, with a message; else nothing happens.
pub proof fn law_arming(s: StateView, fd: i32, what: Seq<char>, errno: i32)
    ensures
        armed_turn(s, fd, what, Ok(())) == quiet(s),
        ({
            let t = armed_turn(s, fd, what, Err(errno));
            &&& !t.state.clients.contains_key(fd)
            &&& !t.state.watched.contains_key(fd)
            &&& t.effects.len() == 2
            &&& t.effects[0] is Log
            &&& t.effects[1] == EffectView::Deregister(fd)
        }),
{
}

/// A connection that could not be accepted or watched is closed, with a message, and is no client;
/// where there was none to accept nothing happens.
pub proof fn law_failed_acceptance(
    s: StateView,
    port: u16,
    fd: i32,
    errno: i32,
    message: String,
    servers: Seq<config::ServerView>,
    now: u64,
)
    ensures
        ({
            let t = accept_turn(
                s,
                port,
                Accepted::Connected { fd, added: Err(errno) },
                servers,
                now,
            );
            t.state == s && t.effects.len() == 2 && t.effects[0] is Log && t.effects[1]
                == EffectView::Close(fd)
        }),
        ({
            let t = accept_turn(s, port, Accepted::Blocking { fd, message }, servers, now);
            t.state == s && t.effects.len() == 2 && t.effects[0] is Log && t.effects[1]
                == EffectView::Close(fd)
        }),
        accept_turn(s, port, Accepted::Refused { errno: 11 }, servers, now) == quiet(s),
        errno != 11 ==> ({
            let t = accept_turn(s, port, Accepted::Refused { errno }, servers, now);
            t.state == s && t.effects.len() == 1 && t.effects[0] is Log
        }),
{
}

/// A listener that is watched is announced and noted with its address and port; one that cannot be
/// watched is closed, with a message.
pub proof fn law_listener_is_noted(
    s: StateView,
    host: Seq<char>,
    port: u16,
    fd: i32,
    errno: i32,
)
    ensures
        ({
            let t = listener_turn(s, host, port, fd, Ok(()));
            &&& t.state.watched.contains_key(fd) && t.state.watched[fd] == FdKind::Listener(port)
            &&& t.state.bound == s.bound.push((host, port))
            &&& t.effects.len() == 1
            &&& t.effects[0] == EffectView::Announce(
                "Listening on "@ + host + seq![':'] + number::decimal(port as nat),
            )
        }),
        ({
            let t = listener_turn(s, host, port, fd, Err(errno));
            t.state == s && t.effects.len() == 2 && t.effects[0] is Log && t.effects[1]
                == EffectView::Close(fd)
        }),
{
    listener::law_endpoint_name(host, port);
    assert("Listening on "@ + listener::endpoint(host, port) =~= "Listening on "@ + host + seq![':']
        + number::decimal(port as nat));
}

/// Where no server listens on a port, bodies of up to a mebibyte are taken.
pub proof fn law_default_limit(servers: Seq<config::ServerView>, port: u16)
    requires
        forall|j: int| 0 <= j < servers.len() ==> !(#[trigger] servers[j]).ports.contains(port),
    ensures
        body_limit(servers, port) == 1024 * 1024,
{
    lemma_none_listening(servers, port, 0);
}

proof fn lemma_none_listening(servers: Seq<config::ServerView>, port: u16, i: int)
    requires
        0 <= i <= servers.len(),
        forall|j: int| 0 <= j < servers.len() ==> !(#[trigger] servers[j]).ports.contains(port),
    ensures
        router::listening_server(servers, port, i) is None,
    decreases servers.len() - i,
{
    if i < servers.len() {
        assert(!servers[i].ports.contains(port));
        lemma_none_listening(servers, port, i + 1);
    }
}

/// A response that is to be sent goes out whole, whatever was there before, with the fate of the
/// connection in its header; a client that is gone gets nothing.
pub proof fn law_response_is_queued(
    s: StateView,
    fd: i32,
    r: response::ResponseView,
    keep_alive: bool,
)
    requires
        assoc::keys_unique(r.headers),
    ensures
        s.clients.contains_key(fd) ==> {
            let t = response_turn(s, fd, r, keep_alive);
            let sent = connection_set(r, keep_alive);
            &&& t.state.clients[fd].write_buf == response::serialized(sent)
            &&& t.state.clients[fd].write_offset == 0
            &&& t.state.clients[fd].close_after_write == !keep_alive
            &&& sent.status == r.status
            &&& sent.body == r.body
            &&& keep_alive ==> response::says(sent.headers, "Connection"@, "keep-alive"@)
            &&& !keep_alive ==> response::says(sent.headers, "Connection"@, "close"@)
        },
        !s.clients.contains_key(fd) ==> response_turn(s, fd, r, keep_alive) == quiet(s),
{
    response::law_header_set(
        r,
        "Connection"@,
        if keep_alive {
            "keep-alive"@
        } else {
            "close"@
        },
    );
}

/// Rounds are counted one by one.
pub proof fn law_rounds(tick: u64)
    requires
        tick < u64::MAX,
    ensures
        next_tick(tick) == tick + 1,
{
}

/// A request with a chunk whose end cannot be counted is neither read nor answered, and what was
/// sent is kept.
pub proof fn law_uncountable_request(
    s: StateView,
    fd: i32,
    data: Seq<u8>,
    servers: Seq<config::ServerView>,
    now: u64,
)
    requires
        s.clients.contains_key(fd),
        data.len() > 0,
        !request::sizes_fit(s.clients[fd].buffer + data),
    ensures
        ({
            let (t, r) = read_turn(s, fd, Ok(data), servers, now);
            &&& r is SizeOverflow
            &&& t.clients.contains_key(fd)
            &&& t.clients[fd].buffer == s.clients[fd].buffer + data
        }),
{
}

} // verus!
