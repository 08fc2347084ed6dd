//! The connections of the server and the scripts that run for them.
//!
//! [`Server`] decides what follows from every event. What the system has to do for it is a list
//! of [`Effect`]s, to be carried out in their order. An effect whose result matters names the
//! function that takes the result.

use crate::bytes;
use crate::cgi;
use crate::cgi::CgiProcess;
use crate::clock;
use crate::config;
use crate::config::{Config, ServerConfig};
use crate::event_loop;
use crate::event_loop::{EventLoop, FdKind, CGI_TIMEOUT_SECS, CLIENT_TIMEOUT_SECS};
use crate::handler;
use crate::listener;
use crate::request;
use crate::request::{ParseError, Request, RequestParser};
use crate::response;
use crate::response::Response;
use crate::router;
use crate::text;
use crate::turns;
use crate::turns::{Accepted, ClientView, EffectView, ReadView, ScriptView, StateView};
use std::collections::HashMap;
use vstd::prelude::*;
use vstd::slice::slice_subrange;

verus! {

broadcast use vstd::std_specs::hash::group_hash_axioms;

// ---------------------------------------------------------------------------
// Types
// ---------------------------------------------------------------------------

/// A client: what it has sent of a request, and what it is to receive.
struct Client {
    parser: RequestParser,
    write_buf: Vec<u8>,
    write_offset: usize,
    last_active: u64,
    port: u16,
    close_after_write: bool,
}

impl View for Client {
    type V = ClientView;

    closed spec fn view(&self) -> ClientView {
        ClientView {
            buffer: self.parser.buffer(),
            max_body: self.parser.max_body_size(),
            write_buf: self.write_buf@,
            write_offset: self.write_offset as nat,
            last_active: self.last_active,
            port: self.port,
            close_after_write: self.close_after_write,
        }
    }
}

impl Client {
    #[verifier::type_invariant]
    spec fn in_bounds(&self) -> bool {
        self.write_offset <= self.write_buf@.len()
    }

    /// A client that has just connected.
    fn new(max_body: usize, port: u16, now: u64) -> (r: Client)
        ensures
            r@ == turns::new_client(max_body as nat, port, now),
    {
        Client {
            parser: RequestParser::new(max_body),
            write_buf: Vec::new(),
            write_offset: 0,
            last_active: now,
            port,
            close_after_write: false,
        }
    }
}

/// A script that runs for a client. Its pipes are driven a chunk at a time, so that it holds up
/// nobody but its client.
struct CgiState {
    pid: i32,
    stdin_fd: Option<i32>,
    stdin_data: Vec<u8>,
    stdin_offset: usize,
    stdout_fd: i32,
    output: Vec<u8>,
    deadline: u64,
    keep_alive: bool,
}

impl View for CgiState {
    type V = ScriptView;

    closed spec fn view(&self) -> ScriptView {
        ScriptView {
            pid: self.pid,
            stdin_fd: self.stdin_fd,
            stdin_data: self.stdin_data@,
            stdin_offset: self.stdin_offset as nat,
            stdout_fd: self.stdout_fd,
            output: self.output@,
            deadline: self.deadline,
            keep_alive: self.keep_alive,
        }
    }
}

impl CgiState {
    #[verifier::type_invariant]
    spec fn in_bounds(&self) -> bool {
        self.stdin_offset <= self.stdin_data@.len()
    }
}

/// What the system has to do.
pub enum Effect {
    /// Write a line to the error log.
    Log(String),
    /// Tell the operator.
    Announce(String),
    /// Close the descriptor.
    Close(i32),
    /// Stop watching the descriptor, and close it.
    Deregister(i32),
    /// Write the bytes once, and ignore what becomes of it.
    Send { fd: i32, bytes: Vec<u8> },
    /// Read the page, and send what [`error_bytes`] makes of it, as for `Send`.
    SendPage { fd: i32, code: u16, path: String },
    /// Write once of [`Server::unsent`]; see [`Server::client_written`].
    WriteClient(i32),
    /// Write once of [`Server::unfed`]; see [`Server::script_fed`].
    FeedScript { pipe: i32, client: i32 },
    /// Watch the input of a script; see [`Server::input_watched`].
    WatchInput { pipe: i32, client: i32 },
    /// Watch the client for room to write; see [`Server::write_armed`].
    SetWritable(i32),
    /// Watch the client for something to read; see [`Server::read_armed`].
    SetReadable(i32),
    /// Watch the client for nothing but its end.
    SetIdle(i32),
    /// Kill the process, and wait for its end.
    Kill(i32),
    /// Reap the process if it has ended; see [`Server::reap_tried`].
    Reap(i32),
}

impl View for Effect {
    type V = EffectView;

    open spec fn view(&self) -> EffectView {
        match *self {
            Effect::Log(m) => EffectView::Log(m@),
            Effect::Announce(m) => EffectView::Announce(m@),
            Effect::Close(fd) => EffectView::Close(fd),
            Effect::Deregister(fd) => EffectView::Deregister(fd),
            Effect::Send { fd, bytes } => EffectView::Send { fd, bytes: bytes@ },
            Effect::SendPage { fd, code, path } => EffectView::SendPage { fd, code, path: path@ },
            Effect::WriteClient(fd) => EffectView::WriteClient(fd),
            Effect::FeedScript { pipe, client } => EffectView::FeedScript { pipe, client },
            Effect::WatchInput { pipe, client } => EffectView::WatchInput { pipe, client },
            Effect::SetWritable(fd) => EffectView::SetWritable(fd),
            Effect::SetReadable(fd) => EffectView::SetReadable(fd),
            Effect::SetIdle(fd) => EffectView::SetIdle(fd),
            Effect::Kill(pid) => EffectView::Kill(pid),
            Effect::Reap(pid) => EffectView::Reap(pid),
        }
    }
}

/// What every effect stands for.
pub open spec fn effect_views(v: Seq<Effect>) -> Seq<EffectView> {
    v.map_values(|e: Effect| e@)
}

/// What came of a read from a client.
pub enum ReadOutcome {
    /// These effects.
    Effects(Vec<Effect>),
    /// A request, to be handled; see [`Server::request_handled`].
    Request { request: Request, keep_alive: bool, port: u16 },
    /// A chunk whose end exceeds what `usize` holds.
    SizeOverflow,
}

impl View for ReadOutcome {
    type V = ReadView;

    open spec fn view(&self) -> ReadView {
        match *self {
            ReadOutcome::Effects(v) => ReadView::Effects(effect_views(v@)),
            ReadOutcome::Request { request, keep_alive, port } => ReadView::Request {
                request: request@,
                keep_alive,
                port,
            },
            ReadOutcome::SizeOverflow => ReadView::SizeOverflow,
        }
    }
}

/// The bytes that were read, or the error number.
pub open spec fn bytes_read(r: Result<Vec<u8>, i32>) -> Result<Seq<u8>, i32> {
    match r {
        Ok(v) => Ok(v@),
        Err(errno) => Err(errno),
    }
}

/// The connections of the server and the scripts that run for them.
pub struct Server {
    el: EventLoop,
    clients: HashMap<i32, Client>,
    cgi_procs: HashMap<i32, CgiState>,
    reap_queue: Vec<i32>,
    bound: Vec<(String, u16)>,
    tick: u64,
}

spec fn client_views(m: Map<i32, Client>) -> Map<i32, ClientView> {
    m.map_values(|c: Client| c@)
}

spec fn script_views(m: Map<i32, CgiState>) -> Map<i32, ScriptView> {
    m.map_values(|c: CgiState| c@)
}

impl View for Server {
    type V = StateView;

    closed spec fn view(&self) -> StateView {
        StateView {
            epfd: self.el.epfd,
            watched: self.el.fd_map@,
            clients: client_views(self.clients@),
            scripts: script_views(self.cgi_procs@),
            reap_queue: self.reap_queue@,
            bound: listener::endpoint_views(self.bound@),
            tick: self.tick,
        }
    }
}

impl Server {
    /// A server without clients.
    pub fn new(el: EventLoop) -> (r: Server)
        requires
            el.fd_map@ == Map::<i32, FdKind>::empty(),
        ensures
            r@ == (StateView {
                epfd: el.epfd,
                watched: Map::empty(),
                clients: Map::empty(),
                scripts: Map::empty(),
                reap_queue: Seq::empty(),
                bound: Seq::empty(),
                tick: 0,
            }),
            turns::consistent(r@),
    {
        let r = Server {
            el,
            clients: HashMap::new(),
            cgi_procs: HashMap::new(),
            reap_queue: Vec::new(),
            bound: Vec::new(),
            tick: 0,
        };
        assert(r@.clients =~= Map::empty());
        assert(r@.scripts =~= Map::empty());
        assert(r@.bound =~= Seq::empty());
        r
    }

    /// Keeps the client `fd`.
    fn put_client(&mut self, fd: i32, client: Client)
        ensures
            final(self)@ == (StateView {
                clients: old(self)@.clients.insert(fd, client@),
                ..old(self)@
            }),
    {
        self.clients.insert(fd, client);
        assert(self@.clients =~= old(self)@.clients.insert(fd, client@));
    }

    /// Takes the client `fd` out.
    fn take_client(&mut self, fd: i32) -> (r: Option<Client>)
        ensures
            match r {
                Some(c) => old(self)@.clients.contains_key(fd) && c@ == old(self)@.clients[fd],
                None => !old(self)@.clients.contains_key(fd),
            },
            final(self)@ == (StateView { clients: old(self)@.clients.remove(fd), ..old(self)@ }),
    {
        let r = self.clients.remove(&fd);
        assert(self@.clients =~= old(self)@.clients.remove(fd));
        r
    }

    /// Keeps the script of the client `fd`.
    fn put_script(&mut self, fd: i32, script: CgiState)
        ensures
            final(self)@ == (StateView {
                scripts: old(self)@.scripts.insert(fd, script@),
                ..old(self)@
            }),
    {
        self.cgi_procs.insert(fd, script);
        assert(self@.scripts =~= old(self)@.scripts.insert(fd, script@));
    }

    /// Takes the script of the client `fd` out.
    fn take_script(&mut self, fd: i32) -> (r: Option<CgiState>)
        ensures
            match r {
                Some(c) => old(self)@.scripts.contains_key(fd) && c@ == old(self)@.scripts[fd],
                None => !old(self)@.scripts.contains_key(fd),
            },
            final(self)@ == (StateView { scripts: old(self)@.scripts.remove(fd), ..old(self)@ }),
    {
        let r = self.cgi_procs.remove(&fd);
        assert(self@.scripts =~= old(self)@.scripts.remove(fd));
        r
    }

    /// Forgets a descriptor.
    fn unwatch(&mut self, fd: i32)
        ensures
            final(self)@ == turns::unwatched(old(self)@, fd),
    {
        self.el.remove(fd);
    }

    /// Forgets the client `fd`.
    fn forget_client(&mut self, fd: i32)
        ensures
            final(self)@ == turns::without_client(old(self)@, fd),
    {
        self.unwatch(fd);
        let _ = self.take_client(fd);
    }

    /// Sends an error to the client `fd`, and drops it.
    pub fn send_error_and_close(&mut self, fd: i32, code: u16, page: Option<String>) -> (r: Vec<
        Effect,
    >)
        ensures
            final(self)@ == turns::error_turn(old(self)@, fd, code, config::opt_view(page)).state,
            effect_views(r@) == turns::error_turn(old(self)@, fd, code, config::opt_view(page)).effects,
    {
        let mut effects: Vec<Effect> = Vec::new();
        let ghost path = config::opt_view(page);
        match page {
            Some(path) => {
                effects.push(Effect::SendPage { fd, code, path });
            },
            None => {
                let resp = Response::error(code, None);
                effects.push(Effect::Send { fd, bytes: resp.serialize() });
            },
        }
        effects.push(Effect::Deregister(fd));
        assert(effect_views(effects@) =~= turns::error_turn(old(self)@, fd, code, path).effects);
        self.forget_client(fd);
        effects
    }

    /// Gives the client `fd` a response to receive.
    pub fn finish_response(&mut self, fd: i32, resp: Response, keep_alive: bool) -> (r: Vec<Effect>)
        ensures
            final(self)@ == turns::response_turn(old(self)@, fd, resp@, keep_alive).state,
            effect_views(r@) == turns::response_turn(old(self)@, fd, resp@, keep_alive).effects,
    {
        let mut effects: Vec<Effect> = Vec::new();
        let ghost r0 = resp@;
        match self.take_client(fd) {
            Some(client) => {
                let value = if keep_alive {
                    "keep-alive"
                } else {
                    "close"
                };
                let full = resp.with_header("Connection", value);
                let renewed = Client {
                    parser: client.parser,
                    write_buf: full.serialize(),
                    write_offset: 0,
                    last_active: client.last_active,
                    port: client.port,
                    close_after_write: !keep_alive,
                };
                assert(renewed@ == turns::answered(old(self)@.clients[fd], r0, keep_alive));
                self.put_client(fd, renewed);
                effects.push(Effect::SetWritable(fd));
                assert(self@ =~= turns::response_turn(old(self)@, fd, r0, keep_alive).state);
            },
            None => {
                assert(self@ =~= old(self)@);
            },
        }
        assert(effect_views(effects@) =~= turns::response_turn(
            old(self)@,
            fd,
            r0,
            keep_alive,
        ).effects);
        effects
    }

    /// Drops the client `fd`.
    fn drop_connection(&mut self, fd: i32) -> (r: Vec<Effect>)
        ensures
            final(self)@ == turns::drop_turn(old(self)@, fd).state,
            effect_views(r@) == turns::drop_turn(old(self)@, fd).effects,
    {
        self.forget_client(fd);
        let mut effects: Vec<Effect> = Vec::new();
        effects.push(Effect::Deregister(fd));
        assert(effect_views(effects@) =~= turns::drop_turn(old(self)@, fd).effects);
        effects
    }

    /// Drops the client `fd`, with a message.
    fn drop_failed(&mut self, fd: i32, what: &str, message: String) -> (r: Vec<Effect>)
        ensures
            final(self)@ == turns::failed_turn(old(self)@, fd, what@ + message@).state,
            effect_views(r@) == turns::failed_turn(old(self)@, fd, what@ + message@).effects,
    {
        self.forget_client(fd);
        let mut line = what.to_owned();
        line.append(message.as_str());
        let mut effects: Vec<Effect> = Vec::new();
        effects.push(Effect::Log(line));
        effects.push(Effect::Deregister(fd));
        assert(effect_views(effects@) =~= turns::failed_turn(
            old(self)@,
            fd,
            what@ + message@,
        ).effects);
        effects
    }

    /// What follows once the client `fd` was to be watched for room to write.
    pub fn write_armed(&mut self, fd: i32, changed: Result<(), i32>) -> (r: Vec<Effect>)
        ensures
            final(self)@ == turns::armed_turn(old(self)@, fd, "set_writable: "@, changed).state,
            effect_views(r@) == turns::armed_turn(old(self)@, fd, "set_writable: "@, changed).effects,
    {
        match self.el.set_writable(fd, changed) {
            Ok(_) => no_effects(),
            Err(message) => self.drop_failed(fd, "set_writable: ", message),
        }
    }

    /// What follows once the client `fd` was to be watched for something to read.
    pub fn read_armed(&mut self, fd: i32, changed: Result<(), i32>) -> (r: Vec<Effect>)
        ensures
            final(self)@ == turns::armed_turn(old(self)@, fd, "set_readable: "@, changed).state,
            effect_views(r@) == turns::armed_turn(old(self)@, fd, "set_readable: "@, changed).effects,
    {
        match self.el.set_readable(fd, changed) {
            Ok(_) => no_effects(),
            Err(message) => self.drop_failed(fd, "set_readable: ", message),
        }
    }

    /// Takes what was read from the client `fd` in the second `now`.
    pub fn read_client(
        &mut self,
        fd: i32,
        data: Result<Vec<u8>, i32>,
        config: &Config,
        now: u64,
    ) -> (r: ReadOutcome)
        ensures
            final(self)@ == turns::read_turn(old(self)@, fd, bytes_read(data), config@, now).0,
            r@ == turns::read_turn(old(self)@, fd, bytes_read(data), config@, now).1,
    {
        let data = match data {
            Ok(data) => data,
            Err(errno) => {
                if event_loop::would_block(errno) {
                    return ReadOutcome::Effects(no_effects());
                }
                return ReadOutcome::Effects(self.drop_connection(fd));
            },
        };
        if data.len() == 0 {
            return ReadOutcome::Effects(self.drop_connection(fd));
        }
        let client = match self.take_client(fd) {
            Some(client) => client,
            None => {
                assert(self@ =~= old(self)@);
                return ReadOutcome::Effects(no_effects());
            },
        };
        proof {
            use_type_invariant(&client);
        }
        let port: u16 = client.port;
        let mut parser = client.parser;
        parser.feed(data.as_slice());
        let parsed = parser.checked_parse();
        let host = parser.host();
        let renewed = Client {
            parser,
            write_buf: client.write_buf,
            write_offset: client.write_offset,
            last_active: now,
            port,
            close_after_write: client.close_after_write,
        };
        let ghost c = turns::fed(old(self)@.clients[fd], data@, now);
        assert(renewed@ =~= c);
        self.put_client(fd, renewed);
        let ghost s = StateView { clients: old(self)@.clients.insert(fd, c), ..old(self)@ };
        assert(self@ =~= s);
        match parsed {
            Some(Ok(Some(request))) => {
                let keep_alive = keep_alive(&request);
                ReadOutcome::Request { request, keep_alive, port }
            },
            Some(Ok(None)) => ReadOutcome::Effects(no_effects()),
            Some(Err(ParseError::TooLarge)) => {
                let page = error_page(config.servers.as_slice(), host.as_str(), port, 413);
                ReadOutcome::Effects(self.send_error_and_close(fd, 413, page))
            },
            Some(Err(ParseError::Invalid(_))) => {
                let page = error_page(config.servers.as_slice(), host.as_str(), port, 400);
                ReadOutcome::Effects(self.send_error_and_close(fd, 400, page))
            },
            None => ReadOutcome::SizeOverflow,
        }
    }

    /// Forgets the bytes of the request of the client `fd`, which was handled. Whether the client
    /// is still there.
    pub fn request_handled(&mut self, fd: i32) -> (r: bool)
        ensures
            r == old(self)@.clients.contains_key(fd),
            final(self)@ == turns::request_done(old(self)@, fd),
    {
        match self.take_client(fd) {
            Some(client) => {
                proof {
                    use_type_invariant(&client);
                }
                let mut parser = client.parser;
                parser.reset();
                let renewed = Client {
                    parser,
                    write_buf: client.write_buf,
                    write_offset: client.write_offset,
                    last_active: client.last_active,
                    port: client.port,
                    close_after_write: client.close_after_write,
                };
                self.put_client(fd, renewed);
                assert(self@ =~= turns::request_done(old(self)@, fd));
                true
            },
            None => {
                assert(self@ =~= old(self)@);
                false
            },
        }
    }

    /// What the client `fd` is still to receive.
    pub fn unsent(&self, fd: i32) -> (r: Option<&[u8]>)
        ensures
            match r {
                Some(rest) => self@.clients.contains_key(fd) && self@.clients[fd].write_offset
                    <= self@.clients[fd].write_buf.len() && rest@
                    == self@.clients[fd].write_buf.skip(
                    self@.clients[fd].write_offset as int,
                ),
                None => !self@.clients.contains_key(fd),
            },
    {
        match self.clients.get(&fd) {
            Some(client) => {
                proof {
                    use_type_invariant(client);
                }
                let n: usize = client.write_buf.len();
                let rest = slice_subrange(client.write_buf.as_slice(), client.write_offset, n);
                assert(rest@ =~= client.write_buf@.skip(client.write_offset as int));
                Some(rest)
            },
            None => None,
        }
    }

    /// What follows once all of a response was sent to the client `fd`.
    pub fn finish_write(&mut self, fd: i32) -> (r: Vec<Effect>)
        ensures
            final(self)@ == turns::sent_turn(old(self)@, fd).state,
            effect_views(r@) == turns::sent_turn(old(self)@, fd).effects,
    {
        let client = match self.take_client(fd) {
            Some(client) => client,
            None => {
                assert(self@ =~= old(self)@);
                return no_effects();
            },
        };
        if client.close_after_write {
            let effects = self.drop_connection(fd);
            assert(self@ =~= turns::sent_turn(old(self)@, fd).state);
            return effects;
        }
        let renewed = Client {
            parser: client.parser,
            write_buf: Vec::new(),
            write_offset: 0,
            last_active: client.last_active,
            port: client.port,
            close_after_write: client.close_after_write,
        };
        self.put_client(fd, renewed);
        assert(self@ =~= turns::sent_turn(old(self)@, fd).state);
        let mut effects: Vec<Effect> = Vec::new();
        effects.push(Effect::SetReadable(fd));
        assert(effect_views(effects@) =~= turns::sent_turn(old(self)@, fd).effects);
        effects
    }

    /// What follows from room to write to the client `fd`.
    pub fn write_client(&mut self, fd: i32) -> (r: Vec<Effect>)
        ensures
            final(self)@ == turns::write_turn(old(self)@, fd).state,
            effect_views(r@) == turns::write_turn(old(self)@, fd).effects,
    {
        match self.clients.get(&fd) {
            Some(client) => {
                if client.write_offset >= client.write_buf.len() {
                    return self.finish_write(fd);
                }
            },
            None => {
                return no_effects();
            },
        }
        let mut effects: Vec<Effect> = Vec::new();
        effects.push(Effect::WriteClient(fd));
        assert(effect_views(effects@) =~= turns::write_turn(old(self)@, fd).effects);
        effects
    }

    /// What a write to the client `fd` in the second `now` comes to. It cannot have sent more
    /// than there was to send.
    pub fn client_written(&mut self, fd: i32, written: Result<usize, i32>, now: u64) -> (r: Vec<
        Effect,
    >)
        requires
            old(self)@.clients.contains_key(fd) && written is Ok ==> old(
                self)@.clients[fd].write_offset + written->Ok_0 <= old(
                self)@.clients[fd].write_buf.len(),
        ensures
            final(self)@ == turns::written_turn(old(self)@, fd, written, now).state,
            effect_views(r@) == turns::written_turn(old(self)@, fd, written, now).effects,
    {
        let sent: usize = match written {
            Ok(n) => n,
            Err(errno) => {
                if !self.clients.contains_key(&fd) || event_loop::would_block(errno) {
                    return no_effects();
                }
                return self.drop_connection(fd);
            },
        };
        let client = match self.take_client(fd) {
            Some(client) => client,
            None => {
                assert(self@ =~= old(self)@);
                return no_effects();
            },
        };
        proof {
            use_type_invariant(&client);
        }
        let total: usize = client.write_buf.len();
        let offset: usize = client.write_offset + sent;
        let renewed = Client {
            parser: client.parser,
            write_buf: client.write_buf,
            write_offset: offset,
            last_active: now,
            port: client.port,
            close_after_write: client.close_after_write,
        };
        let ghost c = ClientView {
            write_offset: old(self)@.clients[fd].write_offset + sent as nat,
            last_active: now,
            ..old(self)@.clients[fd]
        };
        assert(renewed@ =~= c);
        self.put_client(fd, renewed);
        let ghost s = StateView { clients: old(self)@.clients.insert(fd, c), ..old(self)@ };
        assert(self@ =~= s);
        if offset >= total {
            self.finish_write(fd)
        } else {
            no_effects()
        }
    }

    /// Drops the client `fd`, whose end was reported.
    pub fn drop_client(&mut self, fd: i32) -> (r: Vec<Effect>)
        ensures
            final(self)@ == turns::gone_turn(old(self)@, fd).state,
            effect_views(r@) == turns::gone_turn(old(self)@, fd).effects,
    {
        if self.clients.contains_key(&fd) {
            self.drop_connection(fd)
        } else {
            no_effects()
        }
    }

    /// Takes over a script that runs for the client `fd`, once its output was to be watched, at
    /// the nanosecond `now`.
    pub fn start_cgi(
        &mut self,
        fd: i32,
        process: CgiProcess,
        keep_alive: bool,
        added: Result<(), i32>,
        page: Option<String>,
        now: u64,
    ) -> (r: Vec<Effect>)
        requires
            process.stdin_offset <= process.stdin_data@.len(),
            now + CGI_TIMEOUT_SECS * 1_000_000_000 <= u64::MAX,
        ensures
            final(self)@ == turns::start_turn(
                old(self)@,
                fd,
                process,
                keep_alive,
                added,
                config::opt_view(page),
                now,
            ).state,
            effect_views(r@) == turns::start_turn(
                old(self)@,
                fd,
                process,
                keep_alive,
                added,
                config::opt_view(page),
                now,
            ).effects,
    {
        let ghost turn = turns::start_turn(
            old(self)@,
            fd,
            process,
            keep_alive,
            added,
            config::opt_view(page),
            now,
        );
        let mut effects: Vec<Effect> = Vec::new();
        if let Err(message) = self.el.add_cgi_stdout(process.stdout_fd, fd, added) {
            let mut line = "add_cgi_stdout failed: ".to_owned();
            line.append(message.as_str());
            effects.push(Effect::Log(line));
            effects.push(Effect::Close(process.stdout_fd));
            if let Some(pipe) = process.stdin_fd {
                effects.push(Effect::Close(pipe));
            }
            effects.push(Effect::Kill(process.pid));
            assert(self@ =~= old(self)@);
            let ghost before = effects@;
            let mut last = self.send_error_and_close(fd, 500, page);
            let ghost rest = last@;
            effects.append(&mut last);
            assert(effect_views(effects@) =~= effect_views(before) + effect_views(rest));
            assert(effect_views(effects@) =~= turn.effects);
            return effects;
        }
        if let Some(pipe) = process.stdin_fd {
            effects.push(Effect::WatchInput { pipe, client: fd });
        }
        effects.push(Effect::SetIdle(fd));
        let script = CgiState {
            pid: process.pid,
            stdin_fd: process.stdin_fd,
            stdin_data: process.stdin_data,
            stdin_offset: process.stdin_offset,
            stdout_fd: process.stdout_fd,
            output: Vec::new(),
            deadline: now + CGI_TIMEOUT_SECS * 1_000_000_000,
            keep_alive,
        };
        self.put_script(fd, script);
        assert(self@ =~= turn.state);
        assert(effect_views(effects@) =~= turn.effects);
        effects
    }

    /// Notes the input of the script of a client, once it was to be watched.
    pub fn input_watched(&mut self, pipe: i32, client: i32, added: Result<(), i32>) -> (r: Vec<
        Effect,
    >)
        ensures
            final(self)@ == turns::input_turn(old(self)@, pipe, client, added).state,
            effect_views(r@) == turns::input_turn(old(self)@, pipe, client, added).effects,
    {
        let mut effects: Vec<Effect> = Vec::new();
        if let Err(message) = self.el.add_cgi_stdin(pipe, client, added) {
            let mut line = "add_cgi_stdin failed: ".to_owned();
            line.append(message.as_str());
            effects.push(Effect::Log(line));
            effects.push(Effect::Close(pipe));
        }
        assert(effect_views(effects@) =~= turns::input_turn(old(self)@, pipe, client, added).effects);
        effects
    }

    /// What the script of a client is still to be fed.
    pub fn unfed(&self, client: i32) -> (r: Option<&[u8]>)
        ensures
            match r {
                Some(rest) => self@.scripts.contains_key(client)
                    && self@.scripts[client].stdin_offset
                    <= self@.scripts[client].stdin_data.len() && rest@
                    == self@.scripts[client].stdin_data.skip(
                    self@.scripts[client].stdin_offset as int,
                ),
                None => !self@.scripts.contains_key(client),
            },
    {
        match self.cgi_procs.get(&client) {
            Some(script) => {
                proof {
                    use_type_invariant(script);
                }
                let n: usize = script.stdin_data.len();
                let rest = slice_subrange(script.stdin_data.as_slice(), script.stdin_offset, n);
                assert(rest@ =~= script.stdin_data@.skip(script.stdin_offset as int));
                Some(rest)
            },
            None => None,
        }
    }

    /// Closes the input `pipe` of the script of a client.
    fn close_input(&mut self, pipe: i32, client: i32) -> (r: Vec<Effect>)
        ensures
            final(self)@ == turns::input_closed(old(self)@, pipe, client).state,
            effect_views(r@) == turns::input_closed(old(self)@, pipe, client).effects,
    {
        self.unwatch(pipe);
        match self.take_script(client) {
            Some(script) => {
                proof {
                    use_type_invariant(&script);
                }
                let renewed = CgiState {
                    pid: script.pid,
                    stdin_fd: None,
                    stdin_data: script.stdin_data,
                    stdin_offset: script.stdin_offset,
                    stdout_fd: script.stdout_fd,
                    output: script.output,
                    deadline: script.deadline,
                    keep_alive: script.keep_alive,
                };
                self.put_script(client, renewed);
            },
            None => {},
        }
        assert(self@ =~= turns::input_closed(old(self)@, pipe, client).state);
        let mut effects: Vec<Effect> = Vec::new();
        effects.push(Effect::Deregister(pipe));
        assert(effect_views(effects@) =~= turns::input_closed(old(self)@, pipe, client).effects);
        effects
    }

    /// What follows from room to write to the input of the script of a client.
    pub fn handle_cgi_stdin(&mut self, pipe: i32, client: i32) -> (r: Vec<Effect>)
        ensures
            final(self)@ == turns::feed_turn(old(self)@, pipe, client).state,
            effect_views(r@) == turns::feed_turn(old(self)@, pipe, client).effects,
    {
        match self.cgi_procs.get(&client) {
            Some(script) => {
                if script.stdin_offset >= script.stdin_data.len() {
                    return self.close_input(pipe, client);
                }
            },
            None => {
                return self.close_input(pipe, client);
            },
        }
        let mut effects: Vec<Effect> = Vec::new();
        effects.push(Effect::FeedScript { pipe, client });
        assert(effect_views(effects@) =~= turns::feed_turn(old(self)@, pipe, client).effects);
        effects
    }

    /// What a write to the input of the script of a client comes to. It cannot have fed more than
    /// there was to feed.
    pub fn script_fed(&mut self, pipe: i32, client: i32, written: Result<usize, i32>) -> (r: Vec<
        Effect,
    >)
        requires
            old(self)@.scripts.contains_key(client) && written is Ok ==> old(
                self)@.scripts[client].stdin_offset + written->Ok_0 <= old(
                self)@.scripts[client].stdin_data.len(),
        ensures
            final(self)@ == turns::fed_turn(old(self)@, pipe, client, written).state,
            effect_views(r@) == turns::fed_turn(old(self)@, pipe, client, written).effects,
    {
        let n: usize = match written {
            Ok(n) => n,
            Err(errno) => {
                if !self.cgi_procs.contains_key(&client) || event_loop::would_block(errno) {
                    return no_effects();
                }
                return self.close_input(pipe, client);
            },
        };
        let script = match self.take_script(client) {
            Some(script) => script,
            None => {
                assert(self@ =~= old(self)@);
                return no_effects();
            },
        };
        proof {
            use_type_invariant(&script);
        }
        let total: usize = script.stdin_data.len();
        let offset: usize = script.stdin_offset + n;
        let renewed = CgiState {
            pid: script.pid,
            stdin_fd: script.stdin_fd,
            stdin_data: script.stdin_data,
            stdin_offset: offset,
            stdout_fd: script.stdout_fd,
            output: script.output,
            deadline: script.deadline,
            keep_alive: script.keep_alive,
        };
        let ghost c = ScriptView {
            stdin_offset: old(self)@.scripts[client].stdin_offset + n as nat,
            ..old(self)@.scripts[client]
        };
        assert(renewed@ =~= c);
        self.put_script(client, renewed);
        let ghost s = StateView { scripts: old(self)@.scripts.insert(client, c), ..old(self)@ };
        assert(self@ =~= s);
        if offset >= total {
            self.close_input(pipe, client)
        } else {
            no_effects()
        }
    }

    /// Closes the input of the script of a client, whose end was reported.
    pub fn drop_input(&mut self, client: i32) -> (r: Vec<Effect>)
        ensures
            final(self)@ == turns::input_gone(old(self)@, client).state,
            effect_views(r@) == turns::input_gone(old(self)@, client).effects,
    {
        let open = match self.cgi_procs.get(&client) {
            Some(script) => script.stdin_fd,
            None => None,
        };
        match open {
            Some(pipe) => self.close_input(pipe, client),
            None => no_effects(),
        }
    }

    /// Takes the script of a client and its pipes out.
    fn remove_script(&mut self, client: i32) -> (r: Option<CgiState>)
        ensures
            match r {
                Some(c) => old(self)@.scripts.contains_key(client) && c@
                    == old(self)@.scripts[client] && final(self)@ == turns::without_script(
                    old(self)@,
                    client,
                ),
                None => !old(self)@.scripts.contains_key(client) && final(self)@ == old(self)@,
            },
    {
        match self.take_script(client) {
            Some(script) => {
                self.unwatch(script.stdout_fd);
                if let Some(pipe) = script.stdin_fd {
                    self.unwatch(pipe);
                }
                assert(self@ =~= turns::without_script(old(self)@, client));
                Some(script)
            },
            None => {
                assert(self@ =~= old(self)@);
                None
            },
        }
    }

    /// What follows from the end of the output of the script of a client.
    pub fn finalize_cgi(&mut self, client: i32) -> (r: Vec<Effect>)
        ensures
            final(self)@ == turns::finalize_turn(old(self)@, client).state,
            effect_views(r@) == turns::finalize_turn(old(self)@, client).effects,
    {
        let ghost turn = turns::finalize_turn(old(self)@, client);
        let script = match self.remove_script(client) {
            Some(script) => script,
            None => {
                return no_effects();
            },
        };
        let mut effects: Vec<Effect> = Vec::new();
        effects.push(Effect::Deregister(script.stdout_fd));
        if let Some(pipe) = script.stdin_fd {
            effects.push(Effect::Deregister(pipe));
        }
        effects.push(Effect::Reap(script.pid));
        let keep_alive = script.keep_alive;
        let resp = handler::cgi_response_to_http(cgi::parse_cgi_output(script.output));
        let ghost before = effects@;
        let mut last = self.finish_response(client, resp, keep_alive);
        let ghost rest = last@;
        effects.append(&mut last);
        assert(effect_views(effects@) =~= effect_views(before) + effect_views(rest));
        assert(effect_views(effects@) =~= turn.effects);
        effects
    }

    /// Takes what was read from the output of the script of a client.
    pub fn handle_cgi_stdout(&mut self, client: i32, data: Result<Vec<u8>, i32>) -> (r: Vec<Effect>)
        ensures
            final(self)@ == turns::output_turn(old(self)@, client, bytes_read(data)).state,
            effect_views(r@) == turns::output_turn(old(self)@, client, bytes_read(data)).effects,
    {
        let data = match data {
            Ok(data) => data,
            Err(errno) => {
                if event_loop::would_block(errno) {
                    return no_effects();
                }
                return self.finalize_cgi(client);
            },
        };
        if data.len() == 0 {
            return self.finalize_cgi(client);
        }
        match self.take_script(client) {
            Some(script) => {
                proof {
                    use_type_invariant(&script);
                }
                let mut output = script.output;
                bytes::append_bytes(&mut output, data.as_slice());
                let renewed = CgiState {
                    pid: script.pid,
                    stdin_fd: script.stdin_fd,
                    stdin_data: script.stdin_data,
                    stdin_offset: script.stdin_offset,
                    stdout_fd: script.stdout_fd,
                    output,
                    deadline: script.deadline,
                    keep_alive: script.keep_alive,
                };
                let ghost c = ScriptView {
                    output: old(self)@.scripts[client].output + data@,
                    ..old(self)@.scripts[client]
                };
                assert(renewed@ =~= c);
                self.put_script(client, renewed);
                assert(self@ =~= turns::output_turn(old(self)@, client, Ok(data@)).state);
            },
            None => {
                assert(self@ =~= old(self)@);
            },
        }
        no_effects()
    }

    /// The clients whose scripts have run for too long, in any order.
    fn overdue_scripts(&self, now: u64) -> (r: Vec<i32>)
        ensures
            r@.no_duplicates(),
            forall|fd: i32| #[trigger] r@.contains(fd) <==> turns::overdue(self@, fd, now),
    {
        let keys = keys_of(&self.cgi_procs);
        let mut list: Vec<i32> = Vec::new();
        let mut i: usize = 0;
        while i < keys.len()
            invariant
                i <= keys@.len(),
                keys@.no_duplicates(),
                forall|fd: i32| #[trigger]
                    keys@.contains(fd) <==> self.cgi_procs@.contains_key(fd),
                chosen(keys@, i as int, list@, |fd: i32| turns::overdue(self@, fd, now)),
            decreases keys@.len() - i,
        {
            let fd: i32 = keys[i];
            assert(keys@.contains(fd));
            if let Some(script) = self.cgi_procs.get(&fd) {
                let late = now > script.deadline;
                proof {
                    lemma_chosen(
                        keys@,
                        i as int,
                        list@,
                        |fd: i32| turns::overdue(self@, fd, now),
                    );
                }
                if late {
                    list.push(fd);
                }
            }
            i = i + 1;
        }
        assert(keys@.take(i as int) =~= keys@);
        list
    }

    /// Kills the scripts that have run for too long at the nanosecond `now`, in any order.
    pub fn timeout_cgi(&mut self, now: u64) -> (r: Vec<Effect>)
        ensures
            exists|order: Seq<i32>|
                {
                    &&& order.no_duplicates()
                    &&& forall|fd: i32| #[trigger]
                        order.contains(fd) <==> turns::overdue(old(self)@, fd, now)
                    &&& final(self)@ == #[trigger] turns::overdue_turns(old(self)@, order).state
                    &&& effect_views(r@) == turns::overdue_turns(old(self)@, order).effects
                },
    {
        let list = self.overdue_scripts(now);
        let mut effects = no_effects();
        let mut i: usize = 0;
        assert(list@.take(0) =~= Seq::empty());
        assert forall|j: int| 0 <= j < list@.len() implies self@.scripts.contains_key(
            #[trigger] list@[j],
        ) by {
            assert(list@.contains(list@[j]));
        }
        while i < list.len()
            invariant
                i <= list@.len(),
                list@.no_duplicates(),
                forall|fd: i32| #[trigger] list@.contains(fd) ==> turns::overdue(old(self)@, fd, now),
                self@ == turns::overdue_turns(old(self)@, list@.take(i as int)).state,
                effect_views(effects@) == turns::overdue_turns(old(self)@, list@.take(i as int)).effects,
                forall|j: int|
                    i <= j < list@.len() ==> self@.scripts.contains_key(#[trigger] list@[j]),
            decreases list@.len() - i,
        {
            let client: i32 = list[i];
            let ghost s = self@;
            let ghost before = effects@;
            assert(list@.take(i + 1).drop_last() =~= list@.take(i as int));
            if let Some(script) = self.remove_script(client) {
                effects.push(Effect::Kill(script.pid));
                effects.push(Effect::Deregister(script.stdout_fd));
                if let Some(pipe) = script.stdin_fd {
                    effects.push(Effect::Deregister(pipe));
                }
                let ghost middle = effects@;
                let mut last = self.finish_response(client, Response::error(504, None), false);
                let ghost rest = last@;
                effects.append(&mut last);
                assert(effect_views(effects@) =~= effect_views(middle) + effect_views(rest));
                assert(effect_views(effects@) =~= effect_views(before) + turns::overdue_turn(
                    s,
                    client,
                ).effects);
            }
            i = i + 1;
        }
        assert(list@.take(i as int) =~= list@);
        effects
    }

    /// The clients that have been silent for too long, in any order.
    fn silent_clients(&self, now: u64) -> (r: Vec<i32>)
        ensures
            r@.no_duplicates(),
            forall|fd: i32| #[trigger] r@.contains(fd) <==> turns::silent(self@, fd, now),
    {
        let keys = keys_of(&self.clients);
        let mut list: Vec<i32> = Vec::new();
        let mut i: usize = 0;
        while i < keys.len()
            invariant
                i <= keys@.len(),
                keys@.no_duplicates(),
                forall|fd: i32| #[trigger] keys@.contains(fd) <==> self.clients@.contains_key(fd),
                chosen(keys@, i as int, list@, |fd: i32| turns::silent(self@, fd, now)),
            decreases keys@.len() - i,
        {
            let fd: i32 = keys[i];
            assert(keys@.contains(fd));
            if let Some(client) = self.clients.get(&fd) {
                let late = clock::seconds_between(now, client.last_active) > CLIENT_TIMEOUT_SECS;
                proof {
                    lemma_chosen(keys@, i as int, list@, |fd: i32| turns::silent(self@, fd, now));
                }
                if late {
                    list.push(fd);
                }
            }
            i = i + 1;
        }
        assert(keys@.take(i as int) =~= keys@);
        list
    }

    /// Drops the clients that have been silent for too long in the second `now`, in any order.
    pub fn timeout_clients(&mut self, now: u64) -> (r: Vec<Effect>)
        ensures
            exists|order: Seq<i32>|
                {
                    &&& order.no_duplicates()
                    &&& forall|fd: i32| #[trigger]
                        order.contains(fd) <==> turns::silent(old(self)@, fd, now)
                    &&& final(self)@ == #[trigger] turns::silent_turns(old(self)@, order).state
                    &&& effect_views(r@) == turns::silent_turns(old(self)@, order).effects
                },
    {
        let list = self.silent_clients(now);
        let mut effects = no_effects();
        let mut i: usize = 0;
        assert(list@.take(0) =~= Seq::empty());
        while i < list.len()
            invariant
                i <= list@.len(),
                self@ == turns::silent_turns(old(self)@, list@.take(i as int)).state,
                effect_views(effects@) == turns::silent_turns(old(self)@, list@.take(i as int)).effects,
            decreases list@.len() - i,
        {
            let ghost before = effects@;
            assert(list@.take(i + 1).drop_last() =~= list@.take(i as int));
            let mut last = self.send_error_and_close(list[i], 408, None);
            let ghost rest = last@;
            effects.append(&mut last);
            assert(effect_views(effects@) =~= effect_views(before) + effect_views(rest));
            i = i + 1;
        }
        assert(list@.take(i as int) =~= list@);
        effects
    }

    /// Counts a round. In every thirtieth, silent clients and sessions that are over are due to be
    /// dropped.
    pub fn next_round(&mut self) -> (r: bool)
        ensures
            final(self)@ == (StateView { tick: turns::next_tick(old(self)@.tick), ..old(self)@ }),
            r == (turns::next_tick(old(self)@.tick) % 30 == 0),
    {
        self.tick = self.tick.wrapping_add(1);
        self.tick % 30 == 0
    }

    /// Hands out the processes that are still to be reaped; see [`Server::reap_tried`].
    pub fn take_reap_queue(&mut self) -> (r: Vec<i32>)
        ensures
            r@ == old(self)@.reap_queue,
            final(self)@ == (StateView { reap_queue: Seq::empty(), ..old(self)@ }),
    {
        let mut queue: Vec<i32> = Vec::new();
        std::mem::swap(&mut self.reap_queue, &mut queue);
        queue
    }

    /// Keeps a process that has not ended yet.
    pub fn reap_tried(&mut self, pid: i32, reaped: bool)
        ensures
            final(self)@ == if reaped {
                old(self)@
            } else {
                (StateView { reap_queue: old(self)@.reap_queue.push(pid), ..old(self)@ })
            },
    {
        if !reaped {
            self.reap_queue.push(pid);
        }
    }

    /// Takes a connection on `port` that was accepted in the second `now`, or was not.
    pub fn accept_clients(&mut self, port: u16, accepted: Accepted, config: &Config, now: u64) -> (r:
        Vec<Effect>)
        ensures
            final(self)@ == turns::accept_turn(old(self)@, port, accepted, config@, now).state,
            effect_views(r@) == turns::accept_turn(old(self)@, port, accepted, config@, now).effects,
    {
        let ghost turn = turns::accept_turn(old(self)@, port, accepted, config@, now);
        let mut effects: Vec<Effect> = Vec::new();
        match accepted {
            Accepted::Refused { errno } => {
                if !event_loop::would_block(errno) {
                    let line = event_loop::failure_message("accept() error", errno);
                    effects.push(Effect::Log(line));
                }
            },
            Accepted::Blocking { fd, message } => {
                let mut line = "set_nonblocking failed: ".to_owned();
                line.append(message.as_str());
                effects.push(Effect::Log(line));
                effects.push(Effect::Close(fd));
            },
            Accepted::Connected { fd, added } => {
                let max_body: usize = max_body_size(config.servers.as_slice(), port);
                match self.el.add_client(fd, added) {
                    Ok(_) => {
                        self.put_client(fd, Client::new(max_body, port, now));
                        assert(self@ =~= turn.state);
                    },
                    Err(message) => {
                        let mut line = "add_client failed: ".to_owned();
                        line.append(message.as_str());
                        effects.push(Effect::Log(line));
                        effects.push(Effect::Close(fd));
                    },
                }
            },
        }
        assert(effect_views(effects@) =~= turn.effects);
        effects
    }

    /// Whether nothing listens on the address and the port yet.
    pub fn needs_listener(&self, host: &str, port: u16) -> (r: bool)
        ensures
            r == !self@.bound.contains((host@, port)),
    {
        let mut i: usize = 0;
        while i < self.bound.len()
            invariant
                i <= self.bound@.len(),
                forall|j: int| 0 <= j < i ==> #[trigger] self@.bound[j] != (host@, port),
            decreases self.bound@.len() - i,
        {
            assert(self@.bound[i as int] == (self.bound@[i as int].0@, self.bound@[i as int].1));
            if self.bound[i].1 == port && text::same_text(self.bound[i].0.as_str(), host) {
                return false;
            }
            i = i + 1;
        }
        true
    }

    /// Notes a listener, once it was to be watched.
    pub fn listener_watched(&mut self, host: &str, port: u16, fd: i32, added: Result<(), i32>) -> (r:
        Vec<Effect>)
        ensures
            final(self)@ == turns::listener_turn(old(self)@, host@, port, fd, added).state,
            effect_views(r@) == turns::listener_turn(old(self)@, host@, port, fd, added).effects,
    {
        let ghost turn = turns::listener_turn(old(self)@, host@, port, fd, added);
        let place = listener::endpoint_name(host, port);
        let mut effects: Vec<Effect> = Vec::new();
        match self.el.add_listener(fd, port, added) {
            Ok(_) => {
                self.bound.push((host.to_owned(), port));
                assert(self@ =~= turn.state);
                let mut line = "Listening on ".to_owned();
                line.append(place.as_str());
                effects.push(Effect::Announce(line));
            },
            Err(message) => {
                let mut line = "epoll: failed to register listener ".to_owned();
                line.append(place.as_str());
                line.append(": ");
                line.append(message.as_str());
                effects.push(Effect::Log(line));
                effects.push(Effect::Close(fd));
            },
        }
        assert(effect_views(effects@) =~= turn.effects);
        effects
    }

    /// An error if nothing listens at all.
    pub fn check_bound(&self) -> (r: Result<(), String>)
        ensures
            match r {
                Ok(_) => self@.bound.len() > 0,
                Err(m) => self@.bound.len() == 0 && m@
                    == "No listening sockets could be bound; check the configuration"@,
            },
    {
        if self.bound.len() == 0 {
            Err("No listening sockets could be bound; check the configuration".to_owned())
        } else {
            Ok(())
        }
    }

    /// What a descriptor is.
    pub fn kind_of(&self, fd: i32) -> (r: Option<FdKind>)
        ensures
            match r {
                Some(kind) => self@.watched.contains_key(fd) && self@.watched[fd] == kind,
                None => !self@.watched.contains_key(fd),
            },
    {
        self.el.kind_of(fd)
    }

    /// The descriptor of the event loop.
    pub fn epfd(&self) -> (r: i32)
        ensures
            r == self@.epfd,
    {
        self.el.epfd
    }
}

/// The size of the largest body that is accepted on a port.
fn max_body_size(servers: &[ServerConfig], port: u16) -> (r: usize)
    ensures
        r == turns::body_limit(config::server_views(servers@), port),
{
    let ghost all = config::server_views(servers@);
    let mut i: usize = 0;
    while i < servers.len()
        invariant
            i <= servers@.len(),
            all == config::server_views(servers@),
            router::listening_server(all, port, 0) == router::listening_server(
                all,
                port,
                i as int,
            ),
        decreases servers@.len() - i,
    {
        assert(all[i as int] == servers@[i as int]@);
        if config::lists_port(&servers[i].ports, port) {
            return servers[i].client_max_body_size;
        }
        i = i + 1;
    }
    1_048_576
}

/// The keys of a map, in any order.
fn keys_of<V>(m: &HashMap<i32, V>) -> (r: Vec<i32>)
    ensures
        r@.no_duplicates(),
        forall|fd: i32| #[trigger] r@.contains(fd) <==> m@.contains_key(fd),
{
    let mut list: Vec<i32> = Vec::new();
    let ghost all = vstd::std_specs::iter::IteratorSpec::remaining(
        &vstd::std_specs::hash::spec_keys_iter(m),
    ).unref();
    for key in it: m.keys()
        invariant
            it.seq().unref() == all,
            list@ == it.seq().unref().take(it.index() as int),
    {
        let fd: i32 = *key;
        list.push(fd);
        assert(list@ =~= it.seq().unref().take(it.index() + 1));
    }
    assert(list@ =~= all);
    assert forall|fd: i32| #[trigger] list@.contains(fd) <==> m@.contains_key(fd) by {
        assert(all.to_set().contains(fd) <==> all.contains(fd));
    }
    list
}

/// `list` holds those of the first `n` keys that have a property.
spec fn chosen(keys: Seq<i32>, n: int, list: Seq<i32>, p: spec_fn(i32) -> bool) -> bool {
    &&& list.no_duplicates()
    &&& forall|fd: i32| #[trigger] list.contains(fd) <==> p(fd) && keys.take(n).contains(fd)
}

proof fn lemma_chosen(keys: Seq<i32>, n: int, list: Seq<i32>, p: spec_fn(i32) -> bool)
    requires
        keys.no_duplicates(),
        0 <= n < keys.len(),
        chosen(keys, n, list, p),
    ensures
        p(keys[n]) ==> chosen(keys, n + 1, list.push(keys[n]), p),
        !p(keys[n]) ==> chosen(keys, n + 1, list, p),
{
    broadcast use vstd::seq_lib::group_seq_properties;

    let fd = keys[n];
    assert(keys.take(n + 1) =~= keys.take(n).push(fd));
    assert(!keys.take(n).contains(fd));
    assert(!list.contains(fd));
}

/// No effects.
fn no_effects() -> (r: Vec<Effect>)
    ensures
        effect_views(r@) == Seq::<EffectView>::empty(),
{
    let r: Vec<Effect> = Vec::new();
    assert(effect_views(r@) =~= Seq::empty());
    r
}

/// Whether the connection of a request stays open.
fn keep_alive(req: &Request) -> (r: bool)
    ensures
        r == turns::keeps_alive(req@),
{
    match req.headers.get("connection") {
        Some(value) => {
            let lower = text::to_lowercase(value.as_str());
            !text::same_text(lower.as_str(), "close")
        },
        None => text::same_text(req.version.as_str(), "HTTP/1.1"),
    }
}

/// The page that the server for a request configures for a status.
pub fn error_page(servers: &[ServerConfig], host: &str, port: u16, code: u16) -> (r: Option<String>)
    ensures
        config::opt_view(r) == turns::configured_page(config::server_views(servers@), host@, port, code),
{
    if servers.len() == 0 {
        return None;
    }
    let server = router::match_server(servers, host, port);
    match server.error_pages.get(&code) {
        Some(path) => Some(path.clone()),
        None => None,
    }
}

/// An error response as it is sent, with the given page or the standard one.
pub fn error_bytes(code: u16, page: Option<Vec<u8>>) -> (r: Vec<u8>)
    ensures
        r@ == response::serialized(response::error_response(code, handler::opt_bytes(page))),
{
    Response::error(code, page).serialize()
}

} // verus!
