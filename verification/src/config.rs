//! Configuration: server blocks with their locations, and the checks on them.

use crate::number;
use crate::seqs;
use crate::text;
use std::collections::HashMap;
use vstd::prelude::*;
use vstd::slice::slice_subrange;

verus! {

broadcast use vstd::std_specs::hash::group_hash_axioms;

// ---------------------------------------------------------------------------
// Types
// ---------------------------------------------------------------------------

/// One virtual server.
#[derive(Debug, Clone)]
pub struct ServerConfig {
    pub host: String,
    pub ports: Vec<u16>,
    pub server_names: Vec<String>,
    pub error_pages: HashMap<u16, String>,
    pub client_max_body_size: usize,
    pub routes: Vec<RouteConfig>,
}

/// How requests under one path are served.
#[derive(Debug, Clone)]
pub struct RouteConfig {
    pub path: String,
    pub allowed_methods: Vec<String>,
    pub redirect: Option<(u16, String)>,
    pub root: Option<String>,
    pub default_file: Option<String>,
    pub cgi_extension: Option<String>,
    pub directory_listing: bool,
    pub upload_dir: Option<String>,
}

/// A whole configuration.
#[derive(Debug, Clone)]
pub struct Config {
    pub servers: Vec<ServerConfig>,
}

// ---------------------------------------------------------------------------
// Model
// ---------------------------------------------------------------------------

/// How requests under one path are served.
#[verifier::ext_equal]
pub struct RouteView {
    pub path: Seq<char>,
    pub allowed_methods: Seq<Seq<char>>,
    pub redirect: Option<(u16, Seq<char>)>,
    pub root: Option<Seq<char>>,
    pub default_file: Option<Seq<char>>,
    pub cgi_extension: Option<Seq<char>>,
    pub directory_listing: bool,
    pub upload_dir: Option<Seq<char>>,
}

/// One virtual server.
#[verifier::ext_equal]
pub struct ServerView {
    pub host: Seq<char>,
    pub ports: Seq<u16>,
    pub server_names: Seq<Seq<char>>,
    pub error_pages: Map<u16, Seq<char>>,
    pub client_max_body_size: usize,
    pub routes: Seq<RouteView>,
}

/// The text of an optional string.
pub open spec fn opt_view(o: Option<String>) -> Option<Seq<char>> {
    match o {
        Some(s) => Some(s@),
        None => None,
    }
}

/// The text of every page path.
pub open spec fn pages_view(m: Map<u16, String>) -> Map<u16, Seq<char>> {
    Map::new(|code: u16| m.contains_key(code), |code: u16| m[code]@)
}

impl View for RouteConfig {
    type V = RouteView;

    open spec fn view(&self) -> RouteView {
        RouteView {
            path: self.path@,
            allowed_methods: text::views(self.allowed_methods@),
            redirect: match self.redirect {
                Some((code, url)) => Some((code, url@)),
                None => None,
            },
            root: opt_view(self.root),
            default_file: opt_view(self.default_file),
            cgi_extension: opt_view(self.cgi_extension),
            directory_listing: self.directory_listing,
            upload_dir: opt_view(self.upload_dir),
        }
    }
}

/// The routes that a sequence of route configurations stands for.
pub open spec fn route_views(v: Seq<RouteConfig>) -> Seq<RouteView> {
    v.map_values(|r: RouteConfig| r@)
}

impl View for ServerConfig {
    type V = ServerView;

    open spec fn view(&self) -> ServerView {
        ServerView {
            host: self.host@,
            ports: self.ports@,
            server_names: text::views(self.server_names@),
            error_pages: pages_view(self.error_pages@),
            client_max_body_size: self.client_max_body_size,
            routes: route_views(self.routes@),
        }
    }
}

/// The servers that a sequence of server configurations stands for.
pub open spec fn server_views(v: Seq<ServerConfig>) -> Seq<ServerView> {
    v.map_values(|s: ServerConfig| s@)
}

impl View for Config {
    type V = Seq<ServerView>;

    open spec fn view(&self) -> Seq<ServerView> {
        server_views(self.servers@)
    }
}

/// The value of the directive `name`, if the line is one: what follows the name and a space,
/// without the semicolons that end it and without surrounding white space.
pub open spec fn directive(line: Seq<char>, name: Seq<char>) -> Option<Seq<char>> {
    match text::after_prefix(line, name + " "@) {
        Some(rest) => Some(text::trim(text::trim_end_char(rest, ';'))),
        None => None,
    }
}

/// What follows the keyword (which ends in a space) of a line, without its repetitions and
/// without the semicolons that end the line, cut at its first space.
pub open spec fn keyword_pair(line: Seq<char>, keyword: Seq<char>) -> Option<
    (Seq<char>, Seq<char>),
> {
    text::cut(text::trim_end_char(text::trim_start_text(line, keyword), ';'), ' ')
}

/// A number of at most sixteen bits.
pub open spec fn short_number(s: Seq<char>) -> Option<nat> {
    number::parse_unsigned(s, 10, u16::MAX as nat)
}

/// A number of bytes, times `unit`, which wraps around as `usize` does.
pub open spec fn scaled(s: Seq<char>, unit: nat) -> Option<usize> {
    match number::parse_unsigned(s, 10, usize::MAX as nat) {
        Some(n) => Some(((n * unit) % (usize::MAX as nat + 1)) as usize),
        None => None,
    }
}

/// A size in bytes: a number, which `K` or `k` multiplies by 1024 and `M` or `m` by 1024 * 1024.
pub open spec fn size(s: Seq<char>) -> Result<usize, Seq<char>> {
    let t = text::trim_end_char(s, ';');
    let n = if t.len() > 0 && (t.last() == 'M' || t.last() == 'm') {
        scaled(t.drop_last(), 1048576)
    } else if t.len() > 0 && (t.last() == 'K' || t.last() == 'k') {
        scaled(t.drop_last(), 1024)
    } else {
        scaled(t, 1)
    };
    match n {
        Some(v) => Ok(v),
        None => Err("Invalid size: "@ + t),
    }
}

/// A location that says nothing but its path.
pub open spec fn new_route(path: Seq<char>) -> RouteView {
    RouteView {
        path,
        allowed_methods: seq!["GET"@],
        redirect: None,
        root: None,
        default_file: None,
        cgi_extension: None,
        directory_listing: false,
        upload_dir: None,
    }
}

/// A location after one more line, given without surrounding white space.
pub open spec fn route_line(r: RouteView, line: Seq<char>) -> Result<RouteView, Seq<char>> {
    if directive(line, "allow_methods"@) is Some {
        Ok(
            RouteView {
                allowed_methods: text::words(directive(line, "allow_methods"@)->0),
                ..r
            },
        )
    } else if "return "@.is_prefix_of(line) {
        match keyword_pair(line, "return "@) {
            None => Ok(r),
            Some((code, url)) => match short_number(code) {
                Some(n) => Ok(RouteView { redirect: Some((n as u16, url)), ..r }),
                None => Err("Invalid redirect code: "@ + code),
            },
        }
    } else if directive(line, "root"@) is Some {
        Ok(RouteView { root: directive(line, "root"@), ..r })
    } else if directive(line, "index"@) is Some {
        Ok(RouteView { default_file: directive(line, "index"@), ..r })
    } else if directive(line, "cgi_extension"@) is Some {
        Ok(RouteView { cgi_extension: directive(line, "cgi_extension"@), ..r })
    } else if directive(line, "autoindex"@) is Some {
        Ok(RouteView { directory_listing: directive(line, "autoindex"@)->0 == "on"@, ..r })
    } else if directive(line, "upload_dir"@) is Some {
        Ok(RouteView { upload_dir: directive(line, "upload_dir"@), ..r })
    } else {
        Ok(r)
    }
}

/// The location whose remaining lines start at `i`, and the line after its closing brace.
pub open spec fn route_block(lines: Seq<Seq<char>>, i: int, r: RouteView) -> Result<
    (RouteView, int),
    Seq<char>,
>
    decreases lines.len() - i,
{
    if i >= lines.len() {
        Ok((r, i))
    } else {
        let line = text::trim(lines[i]);
        if line == "}"@ {
            Ok((r, i + 1))
        } else if line.len() == 0 {
            route_block(lines, i + 1, r)
        } else {
            match route_line(r, line) {
                Ok(r2) => route_block(lines, i + 1, r2),
                Err(e) => Err(e),
            }
        }
    }
}

/// A location ends after it starts and within the lines.
pub proof fn lemma_route_block_end(lines: Seq<Seq<char>>, i: int, r: RouteView)
    requires
        i <= lines.len(),
    ensures
        route_block(lines, i, r) matches Ok((r2, j)) ==> i <= j <= lines.len(),
    decreases lines.len() - i,
{
    if i < lines.len() {
        let line = text::trim(lines[i]);
        if line != "}"@ {
            if line.len() == 0 {
                lemma_route_block_end(lines, i + 1, r);
            } else if let Ok(r2) = route_line(r, line) {
                lemma_route_block_end(lines, i + 1, r2);
            }
        }
    }
}

/// A server that says nothing.
pub open spec fn new_server() -> ServerView {
    ServerView {
        host: "0.0.0.0"@,
        ports: Seq::empty(),
        server_names: Seq::empty(),
        error_pages: Map::empty(),
        client_max_body_size: 1048576,
        routes: Seq::empty(),
    }
}

/// A server after one more line, given without surrounding white space, that opens no location.
pub open spec fn server_line(s: ServerView, line: Seq<char>) -> Result<ServerView, Seq<char>> {
    if directive(line, "host"@) is Some {
        Ok(ServerView { host: directive(line, "host"@)->0, ..s })
    } else if directive(line, "listen"@) is Some {
        let value = directive(line, "listen"@)->0;
        match short_number(value) {
            Some(n) => Ok(ServerView { ports: s.ports.push(n as u16), ..s }),
            None => Err("Invalid port: "@ + value),
        }
    } else if directive(line, "server_name"@) is Some {
        Ok(
            ServerView {
                server_names: s.server_names + text::words(directive(line, "server_name"@)->0),
                ..s
            },
        )
    } else if directive(line, "client_max_body_size"@) is Some {
        match size(directive(line, "client_max_body_size"@)->0) {
            Ok(n) => Ok(ServerView { client_max_body_size: n, ..s }),
            Err(e) => Err(e),
        }
    } else if "error_page "@.is_prefix_of(line) {
        match keyword_pair(line, "error_page "@) {
            None => Ok(s),
            Some((code, page)) => match short_number(code) {
                Some(n) => Ok(
                    ServerView { error_pages: s.error_pages.insert(n as u16, page), ..s },
                ),
                None => Err("Invalid error code: "@ + code),
            },
        }
    } else {
        Ok(s)
    }
}

/// The path of a line that opens a location.
pub open spec fn location_path(line: Seq<char>) -> Seq<char> {
    text::trim(text::trim_end_char(text::trim_start_text(line, "location "@), '{'))
}

/// A server block has to listen somewhere.
pub open spec fn finished_server(s: ServerView, next: int) -> Result<
    (ServerView, int),
    Seq<char>,
> {
    if s.ports.len() == 0 {
        Err("Server block missing 'listen' directive"@)
    } else {
        Ok((s, next))
    }
}

/// The server whose remaining lines start at `i`, and the line after its closing brace.
pub open spec fn server_block(lines: Seq<Seq<char>>, i: int, s: ServerView) -> Result<
    (ServerView, int),
    Seq<char>,
>
    decreases lines.len() - i,
{
    if i >= lines.len() {
        finished_server(s, i)
    } else {
        let line = text::trim(lines[i]);
        if line == "}"@ {
            finished_server(s, i + 1)
        } else if line.len() == 0 {
            server_block(lines, i + 1, s)
        } else if "location "@.is_prefix_of(line) {
            proof {
                lemma_route_block_end(lines, i + 1, new_route(location_path(line)));
            }
            match route_block(lines, i + 1, new_route(location_path(line))) {
                Ok((r, j)) => server_block(
                    lines,
                    j,
                    ServerView { routes: s.routes.push(r), ..s },
                ),
                Err(e) => Err(e),
            }
        } else {
            match server_line(s, line) {
                Ok(s2) => server_block(lines, i + 1, s2),
                Err(e) => Err(e),
            }
        }
    }
}

/// A server block ends after it starts and within the lines.
pub proof fn lemma_server_block_end(lines: Seq<Seq<char>>, i: int, s: ServerView)
    requires
        i <= lines.len(),
    ensures
        server_block(lines, i, s) matches Ok((s2, j)) ==> i <= j <= lines.len(),
    decreases lines.len() - i,
{
    if i < lines.len() {
        let line = text::trim(lines[i]);
        if line != "}"@ {
            if line.len() == 0 {
                lemma_server_block_end(lines, i + 1, s);
            } else if "location "@.is_prefix_of(line) {
                let first = new_route(location_path(line));
                lemma_route_block_end(lines, i + 1, first);
                if let Ok((r, j)) = route_block(lines, i + 1, first) {
                    lemma_server_block_end(
                        lines,
                        j,
                        ServerView { routes: s.routes.push(r), ..s },
                    );
                }
            } else if let Ok(s2) = server_line(s, line) {
                lemma_server_block_end(lines, i + 1, s2);
            }
        }
    }
}

/// The server blocks of the lines from `i` on, after `servers`.
pub open spec fn server_blocks(
    lines: Seq<Seq<char>>,
    i: int,
    servers: Seq<ServerView>,
) -> Result<Seq<ServerView>, Seq<char>>
    decreases lines.len() - i,
{
    if i >= lines.len() {
        Ok(servers)
    } else {
        let line = text::trim(lines[i]);
        if line == "server {"@ || line == "server{"@ {
            proof {
                lemma_server_block_end(lines, i + 1, new_server());
            }
            match server_block(lines, i + 1, new_server()) {
                Ok((s, j)) => server_blocks(lines, j, servers.push(s)),
                Err(e) => Err(e),
            }
        } else {
            server_blocks(lines, i + 1, servers)
        }
    }
}

/// The first port of `ports` from `i` on that stands before it too.
pub open spec fn repeated_port(ports: Seq<u16>, i: int) -> Option<u16>
    decreases ports.len() - i,
{
    if i < 0 || i >= ports.len() {
        None
    } else if ports.take(i).contains(ports[i]) {
        Some(ports[i])
    } else {
        repeated_port(ports, i + 1)
    }
}

/// What is said of a port that a server block lists twice.
pub open spec fn repeated_port_message(s: ServerView, port: u16) -> Seq<char> {
    "Duplicate 'listen "@ + number::decimal(port as nat) + "' in the same server block ("@ + s.host
        + ")"@
}

/// What is said of the first server, from `i` on, that lists a port twice.
pub open spec fn repeated_ports(servers: Seq<ServerView>, i: int) -> Option<Seq<char>>
    decreases servers.len() - i,
{
    if i < 0 || i >= servers.len() {
        None
    } else {
        match repeated_port(servers[i].ports, 0) {
            Some(p) => Some(repeated_port_message(servers[i], p)),
            None => repeated_ports(servers, i + 1),
        }
    }
}

/// Some name belongs to both servers.
pub open spec fn share_name(a: ServerView, b: ServerView) -> bool {
    exists|n: Seq<char>| a.server_names.contains(n) && b.server_names.contains(n)
}

/// No server name tells the two servers apart.
pub open spec fn indistinguishable(a: ServerView, b: ServerView) -> bool {
    (a.server_names.len() == 0 && b.server_names.len() == 0) || share_name(a, b)
}

/// The first port of `a`, from `i` on, that `b` lists too.
pub open spec fn shared_port(a: Seq<u16>, b: Seq<u16>, i: int) -> Option<u16>
    decreases a.len() - i,
{
    if i < 0 || i >= a.len() {
        None
    } else if b.contains(a[i]) {
        Some(a[i])
    } else {
        shared_port(a, b, i + 1)
    }
}

/// What is said of two servers that claim the same endpoint and cannot be told apart.
pub open spec fn conflict(a: ServerView, b: ServerView) -> Option<Seq<char>> {
    if a.host == b.host && indistinguishable(a, b) {
        match shared_port(a.ports, b.ports, 0) {
            Some(p) => Some(
                "Conflicting configuration: "@ + a.host + ":"@ + number::decimal(p as nat)
                    + " is claimed by more than one server block with no distinguishing server_name"@,
            ),
            None => None,
        }
    } else {
        None
    }
}

/// What is said of the first conflict of server `i` with a later one, from `j` on.
pub open spec fn conflict_with(servers: Seq<ServerView>, i: int, j: int) -> Option<Seq<char>>
    decreases servers.len() - j,
{
    if j < 0 || j >= servers.len() {
        None
    } else {
        match conflict(servers[i], servers[j]) {
            Some(m) => Some(m),
            None => conflict_with(servers, i, j + 1),
        }
    }
}

/// What is said of the first conflict among the servers, from `i` on.
pub open spec fn conflicts(servers: Seq<ServerView>, i: int) -> Option<Seq<char>>
    decreases servers.len() - i,
{
    if i < 0 || i >= servers.len() {
        None
    } else {
        match conflict_with(servers, i, i + 1) {
            Some(m) => Some(m),
            None => conflicts(servers, i + 1),
        }
    }
}

/// What is said against the servers, if anything.
pub open spec fn objection(servers: Seq<ServerView>) -> Option<Seq<char>> {
    match repeated_ports(servers, 0) {
        Some(m) => Some(m),
        None => conflicts(servers, 0),
    }
}

/// The configuration that a text writes.
pub open spec fn configuration(content: Seq<char>) -> Result<Seq<ServerView>, Seq<char>> {
    match server_blocks(text::lines(content), 0, Seq::empty()) {
        Err(e) => Err(e),
        Ok(servers) => if servers.len() == 0 {
            Err("No server blocks found in config"@)
        } else {
            match objection(servers) {
                Some(m) => Err(m),
                None => Ok(servers),
            }
        },
    }
}

// ---------------------------------------------------------------------------
// Lines
// ---------------------------------------------------------------------------

/// `head` followed by `tail`.
fn message(head: &str, tail: &[char]) -> (r: String)
    ensures
        r@ == head@ + tail@,
{
    let mut m = head.to_owned();
    let t = text::string_of(tail);
    m.append(t.as_str());
    m
}

/// The value of the directive `name`, if the line is one.
pub fn directive_value<'a>(line: &'a [char], name: &str) -> (r: Option<&'a [char]>)
    ensures
        match r {
            Some(v) => directive(line@, name@) == Some(v@),
            None => directive(line@, name@) is None,
        },
{
    let mut prefix = name.to_owned();
    prefix.append(" ");
    match text::strip_prefix(line, prefix.as_str()) {
        Some(rest) => Some(text::trimmed(text::trimmed_end_char(rest, ';'))),
        None => None,
    }
}

/// What follows a keyword, cut at its first space.
fn keyword_value<'a>(line: &'a [char], keyword: &str) -> (r: Option<(&'a [char], &'a [char])>)
    ensures
        match r {
            Some((a, b)) => keyword_pair(line@, keyword@) == Some((a@, b@)),
            None => keyword_pair(line@, keyword@) is None,
        },
{
    text::cut_at(text::trimmed_end_char(text::trimmed_start_text(line, keyword), ';'), ' ')
}

/// A number of at most sixteen bits.
fn read_short(s: &[char]) -> (r: Option<u16>)
    ensures
        match r {
            Some(v) => short_number(s@) == Some(v as nat),
            None => short_number(s@) is None,
        },
{
    match number::read_unsigned(s, 10, u16::MAX as u64) {
        Some(v) => Some(v as u16),
        None => None,
    }
}

fn read_scaled(s: &[char], unit: usize) -> (r: Option<usize>)
    ensures
        r == scaled(s@, unit as nat),
{
    match number::read_unsigned(s, 10, usize::MAX as u64) {
        Some(v) => Some((v as usize).wrapping_mul(unit)),
        None => None,
    }
}

/// A size in bytes. As a product of `usize` values it wraps around.
pub fn parse_size(s: &str) -> (r: Result<usize, String>)
    ensures
        match r {
            Ok(n) => size(s@) == Ok::<usize, Seq<char>>(n),
            Err(e) => size(s@) == Err::<usize, Seq<char>>(e@),
        },
{
    let chars = text::chars_of(s);
    let t = text::trimmed_end_char(chars.as_slice(), ';');
    let n: usize = t.len();
    let value = if n > 0 && (t[n - 1] == 'M' || t[n - 1] == 'm') {
        assert(t@.subrange(0, n - 1) =~= t@.drop_last());
        read_scaled(slice_subrange(t, 0, n - 1), 1048576)
    } else if n > 0 && (t[n - 1] == 'K' || t[n - 1] == 'k') {
        assert(t@.subrange(0, n - 1) =~= t@.drop_last());
        read_scaled(slice_subrange(t, 0, n - 1), 1024)
    } else {
        read_scaled(t, 1)
    };
    match value {
        Some(v) => Ok(v),
        None => Err(message("Invalid size: ", t)),
    }
}

// ---------------------------------------------------------------------------
// Blocks
// ---------------------------------------------------------------------------

/// `r` reports the message `e`.
spec fn reports<T>(r: Result<T, String>, e: Seq<char>) -> bool {
    r matches Err(m) && m@ == e
}

/// Takes one more line of a location.
fn read_route_line(route: &mut RouteConfig, line: &[char]) -> (r: Result<(), String>)
    ensures
        match route_line(old(route)@, line@) {
            Ok(v) => r is Ok && final(route)@ == v,
            Err(e) => reports(r, e),
        },
{
    if let Some(value) = directive_value(line, "allow_methods") {
        route.allowed_methods = text::words_of(value);
    } else if text::starts_with_text(line, "return ") {
        if let Some((code, url)) = keyword_value(line, "return ") {
            match read_short(code) {
                Some(n) => {
                    route.redirect = Some((n, text::string_of(url)));
                },
                None => {
                    return Err(message("Invalid redirect code: ", code));
                },
            }
        }
    } else if let Some(value) = directive_value(line, "root") {
        route.root = Some(text::string_of(value));
    } else if let Some(value) = directive_value(line, "index") {
        route.default_file = Some(text::string_of(value));
    } else if let Some(value) = directive_value(line, "cgi_extension") {
        route.cgi_extension = Some(text::string_of(value));
    } else if let Some(value) = directive_value(line, "autoindex") {
        route.directory_listing = text::is_text(value, "on");
    } else if let Some(value) = directive_value(line, "upload_dir") {
        route.upload_dir = Some(text::string_of(value));
    }
    Ok(())
}

/// The location whose lines start at `start`, and the line after its closing brace.
fn parse_location_block(path: String, lines: &Vec<&[char]>, start: usize) -> (r: Result<
    (RouteConfig, usize),
    String,
>)
    requires
        start <= lines@.len(),
    ensures
        match route_block(text::slices(lines@), start as int, new_route(path@)) {
            Ok((v, next)) => r matches Ok((route, j)) && route@ == v && j == next && start <= j
                <= lines@.len(),
            Err(e) => reports(r, e),
        },
{
    let ghost all = text::slices(lines@);
    let ghost model = route_block(all, start as int, new_route(path@));
    let mut methods: Vec<String> = Vec::new();
    methods.push("GET".to_owned());
    assert(text::views(methods@) =~= seq!["GET"@]);
    let mut route = RouteConfig {
        path,
        allowed_methods: methods,
        redirect: None,
        root: None,
        default_file: None,
        cgi_extension: None,
        directory_listing: false,
        upload_dir: None,
    };
    let mut i: usize = start;
    while i < lines.len()
        invariant
            start <= i <= lines@.len(),
            all == text::slices(lines@),
            model == route_block(all, start as int, new_route(path@)),
            model == route_block(all, i as int, route@),
        decreases lines@.len() - i,
    {
        assert(all[i as int] == lines@[i as int]@);
        let line = text::trimmed(lines[i]);
        if text::is_text(line, "}") {
            return Ok((route, i + 1));
        }
        if line.len() > 0 {
            read_route_line(&mut route, line)?;
        }
        i = i + 1;
    }
    Ok((route, i))
}

/// Takes one more line of a server block.
fn read_server_line(server: &mut ServerConfig, line: &[char]) -> (r: Result<(), String>)
    ensures
        match server_line(old(server)@, line@) {
            Ok(v) => r is Ok && final(server)@ == v,
            Err(e) => reports(r, e),
        },
{
    if let Some(value) = directive_value(line, "host") {
        server.host = text::string_of(value);
    } else if let Some(value) = directive_value(line, "listen") {
        match read_short(value) {
            Some(port) => {
                server.ports.push(port);
            },
            None => {
                return Err(message("Invalid port: ", value));
            },
        }
    } else if let Some(value) = directive_value(line, "server_name") {
        let ghost before = text::views(server.server_names@);
        let mut names = text::words_of(value);
        let ghost added = text::views(names@);
        server.server_names.append(&mut names);
        assert(text::views(server.server_names@) =~= before + added);
    } else if let Some(value) = directive_value(line, "client_max_body_size") {
        let s = text::string_of(value);
        match parse_size(s.as_str()) {
            Ok(n) => {
                server.client_max_body_size = n;
            },
            Err(e) => {
                return Err(e);
            },
        }
    } else if text::starts_with_text(line, "error_page ") {
        if let Some((code, page)) = keyword_value(line, "error_page ") {
            match read_short(code) {
                Some(n) => {
                    let ghost before = pages_view(server.error_pages@);
                    let path = text::string_of(page);
                    server.error_pages.insert(n, path);
                    assert(pages_view(server.error_pages@) =~= before.insert(n, page@));
                },
                None => {
                    return Err(message("Invalid error code: ", code));
                },
            }
        }
    }
    Ok(())
}

/// The server whose lines start at `start`, and the line after its closing brace.
fn parse_server_block(lines: &Vec<&[char]>, start: usize) -> (r: Result<
    (ServerConfig, usize),
    String,
>)
    requires
        start <= lines@.len(),
    ensures
        match server_block(text::slices(lines@), start as int, new_server()) {
            Ok((v, next)) => r matches Ok((server, j)) && server@ == v && j == next && start <= j
                <= lines@.len(),
            Err(e) => reports(r, e),
        },
{
    let ghost all = text::slices(lines@);
    let mut server = ServerConfig {
        host: "0.0.0.0".to_owned(),
        ports: Vec::new(),
        server_names: Vec::new(),
        error_pages: HashMap::new(),
        client_max_body_size: 1048576,
        routes: Vec::new(),
    };
    assert(server@ =~= new_server());
    let ghost model = server_block(all, start as int, new_server());
    let mut i: usize = start;
    let mut open: bool = true;
    while open && i < lines.len()
        invariant
            start <= i <= lines@.len(),
            all == text::slices(lines@),
            model == server_block(all, start as int, new_server()),
            open ==> model == server_block(all, i as int, server@),
            !open ==> model == finished_server(server@, i as int),
        decreases lines@.len() - i,
    {
        assert(all[i as int] == lines@[i as int]@);
        let line = text::trimmed(lines[i]);
        if text::is_text(line, "}") {
            open = false;
            i = i + 1;
        } else if line.len() == 0 {
            i = i + 1;
        } else if text::starts_with_text(line, "location ") {
            let path = text::string_of(
                text::trimmed(
                    text::trimmed_end_char(text::trimmed_start_text(line, "location "), '{'),
                ),
            );
            let (route, next) = parse_location_block(path, lines, i + 1)?;
            let ghost before = server@;
            let ghost added = route@;
            server.routes.push(route);
            assert(server@ =~= ServerView { routes: before.routes.push(added), ..before });
            i = next;
        } else {
            read_server_line(&mut server, line)?;
            i = i + 1;
        }
    }
    if server.ports.len() == 0 {
        return Err("Server block missing 'listen' directive".to_owned());
    }
    Ok((server, i))
}

// ---------------------------------------------------------------------------
// Validation
// ---------------------------------------------------------------------------

/// Whether `ports` lists `port`.
pub fn lists_port(ports: &Vec<u16>, port: u16) -> (r: bool)
    ensures
        r == ports@.contains(port),
{
    let mut i: usize = 0;
    while i < ports.len()
        invariant
            i <= ports@.len(),
            forall|j: int| 0 <= j < i ==> ports@[j] != port,
        decreases ports@.len() - i,
    {
        if ports[i] == port {
            return true;
        }
        i = i + 1;
    }
    false
}

/// Whether `names` lists `name`.
pub fn lists_name(names: &Vec<String>, name: &str) -> (r: bool)
    ensures
        r == text::views(names@).contains(name@),
{
    let mut i: usize = 0;
    while i < names.len()
        invariant
            i <= names@.len(),
            forall|j: int| 0 <= j < i ==> text::views(names@)[j] != name@,
        decreases names@.len() - i,
    {
        assert(text::views(names@)[i as int] == names@[i as int]@);
        if text::same_text(names[i].as_str(), name) {
            return true;
        }
        i = i + 1;
    }
    false
}

/// The first port of `ports` that stands before it too.
fn find_repeated_port(ports: &Vec<u16>) -> (r: Option<u16>)
    ensures
        r == repeated_port(ports@, 0),
{
    let mut seen: Vec<u16> = Vec::new();
    let mut i: usize = 0;
    while i < ports.len()
        invariant
            i <= ports@.len(),
            seen@ == ports@.take(i as int),
            repeated_port(ports@, 0) == repeated_port(ports@, i as int),
        decreases ports@.len() - i,
    {
        if lists_port(&seen, ports[i]) {
            return Some(ports[i]);
        }
        seen.push(ports[i]);
        assert(ports@.take(i + 1) =~= ports@.take(i as int).push(ports@[i as int]));
        i = i + 1;
    }
    None
}

/// Whether no server name tells the two servers apart.
fn cannot_distinguish(a: &ServerConfig, b: &ServerConfig) -> (r: bool)
    ensures
        r == indistinguishable(a@, b@),
{
    if a.server_names.len() == 0 && b.server_names.len() == 0 {
        return true;
    }
    let ghost names = text::views(a.server_names@);
    let mut i: usize = 0;
    while i < a.server_names.len()
        invariant
            i <= a.server_names@.len(),
            names == text::views(a.server_names@),
            forall|j: int| 0 <= j < i ==> !b@.server_names.contains(#[trigger] names[j]),
        decreases a.server_names@.len() - i,
    {
        assert(names[i as int] == a.server_names@[i as int]@);
        if lists_name(&b.server_names, a.server_names[i].as_str()) {
            assert(a@.server_names.contains(names[i as int]));
            return true;
        }
        i = i + 1;
    }
    false
}

/// The first port of `a` that `b` lists too.
fn find_shared_port(a: &Vec<u16>, b: &Vec<u16>) -> (r: Option<u16>)
    ensures
        r == shared_port(a@, b@, 0),
{
    let mut i: usize = 0;
    while i < a.len()
        invariant
            i <= a@.len(),
            shared_port(a@, b@, 0) == shared_port(a@, b@, i as int),
        decreases a@.len() - i,
    {
        if lists_port(b, a[i]) {
            return Some(a[i]);
        }
        i = i + 1;
    }
    None
}

/// What is said of two servers that claim the same endpoint and cannot be told apart.
fn find_conflict(a: &ServerConfig, b: &ServerConfig) -> (r: Option<String>)
    ensures
        opt_view(r) == conflict(a@, b@),
{
    if !text::same_text(a.host.as_str(), b.host.as_str()) {
        return None;
    }
    if !cannot_distinguish(a, b) {
        return None;
    }
    match find_shared_port(&a.ports, &b.ports) {
        Some(p) => {
            let mut m = "Conflicting configuration: ".to_owned();
            m.append(a.host.as_str());
            m.append(":");
            let port = number::to_decimal(p as u64);
            m.append(port.as_str());
            m.append(
                " is claimed by more than one server block with no distinguishing server_name",
            );
            Some(m)
        },
        None => None,
    }
}

/// Refuses servers that list a port twice, and servers that claim the same host and port with no
/// name to tell them apart. Different names on one host and port are virtual hosting.
pub fn validate_config(servers: &[ServerConfig]) -> (r: Result<(), String>)
    ensures
        match objection(server_views(servers@)) {
            Some(m) => r matches Err(e) && e@ == m,
            None => r is Ok,
        },
{
    let ghost all = server_views(servers@);
    let n: usize = servers.len();
    let mut i: usize = 0;
    while i < n
        invariant
            n == servers@.len(),
            i <= n,
            all == server_views(servers@),
            repeated_ports(all, 0) == repeated_ports(all, i as int),
        decreases n - i,
    {
        assert(all[i as int] == servers@[i as int]@);
        if let Some(port) = find_repeated_port(&servers[i].ports) {
            let mut m = "Duplicate 'listen ".to_owned();
            let digits = number::to_decimal(port as u64);
            m.append(digits.as_str());
            m.append("' in the same server block (");
            m.append(servers[i].host.as_str());
            m.append(")");
            assert(m@ =~= repeated_port_message(all[i as int], port));
            return Err(m);
        }
        i = i + 1;
    }
    i = 0;
    while i < n
        invariant
            n == servers@.len(),
            i <= n,
            all == server_views(servers@),
            repeated_ports(all, 0) is None,
            conflicts(all, 0) == conflicts(all, i as int),
        decreases n - i,
    {
        let mut j: usize = i + 1;
        while j < n
            invariant
                n == servers@.len(),
                i < n,
                i < j <= n,
                all == server_views(servers@),
                repeated_ports(all, 0) is None,
                conflicts(all, 0) == conflicts(all, i as int),
                conflict_with(all, i as int, i + 1) == conflict_with(all, i as int, j as int),
            decreases n - j,
        {
            assert(all[i as int] == servers@[i as int]@);
            assert(all[j as int] == servers@[j as int]@);
            if let Some(m) = find_conflict(&servers[i], &servers[j]) {
                return Err(m);
            }
            j = j + 1;
        }
        i = i + 1;
    }
    Ok(())
}

// ---------------------------------------------------------------------------
// Whole configurations
// ---------------------------------------------------------------------------

/// The configuration that a text writes.
pub fn parse_config_str(content: &str) -> (r: Result<Config, String>)
    ensures
        match configuration(content@) {
            Ok(v) => r matches Ok(c) && c@ == v,
            Err(e) => r matches Err(m) && m@ == e,
        },
{
    let chars = text::chars_of(content);
    let lines = text::lines_of(chars.as_slice());
    let ghost all = text::slices(lines@);
    let mut servers: Vec<ServerConfig> = Vec::new();
    assert(server_views(servers@) =~= Seq::empty());
    let ghost model = server_blocks(all, 0, Seq::empty());
    let mut i: usize = 0;
    while i < lines.len()
        invariant
            i <= lines@.len(),
            all == text::slices(lines@),
            all == text::lines(content@),
            model == server_blocks(all, 0, Seq::empty()),
            model == server_blocks(all, i as int, server_views(servers@)),
        decreases lines@.len() - i,
    {
        assert(all[i as int] == lines@[i as int]@);
        let line = text::trimmed(lines[i]);
        if text::is_text(line, "server {") || text::is_text(line, "server{") {
            let (server, next) = parse_server_block(&lines, i + 1)?;
            let ghost before = server_views(servers@);
            let ghost added = server@;
            servers.push(server);
            assert(server_views(servers@) =~= before.push(added));
            i = next;
        } else {
            i = i + 1;
        }
    }
    if servers.len() == 0 {
        return Err("No server blocks found in config".to_owned());
    }
    validate_config(servers.as_slice())?;
    Ok(Config { servers })
}

/// The configuration of the file at `path`, of which `contents` was read, or which could not be
/// read for the reason given.
pub fn parse_config(path: &str, contents: Result<String, String>) -> (r: Result<Config, String>)
    ensures
        match contents {
            Err(reason) => r matches Err(m) && m@ == "Cannot read config file '"@ + path@ + "': "@
                + reason@,
            Ok(text) => match configuration(text@) {
                Ok(v) => r matches Ok(c) && c@ == v,
                Err(e) => r matches Err(m) && m@ == e,
            },
        },
{
    match contents {
        Err(reason) => {
            let mut m = "Cannot read config file '".to_owned();
            m.append(path);
            m.append("': ");
            m.append(reason.as_str());
            Err(m)
        },
        Ok(text) => parse_config_str(text.as_str()),
    }
}

// ---------------------------------------------------------------------------
// Laws
// ---------------------------------------------------------------------------

/// No port stands twice.
pub open spec fn ports_once(s: ServerView) -> bool {
    forall|i: int, j: int|
        0 <= i < j < s.ports.len() ==> #[trigger] s.ports[i] != #[trigger] s.ports[j]
}

/// The two servers claim the same address and port, and nothing tells them apart.
pub open spec fn clash(a: ServerView, b: ServerView) -> bool {
    a.host == b.host && indistinguishable(a, b) && exists|p: u16|
        a.ports.contains(p) && b.ports.contains(p)
}

proof fn lemma_repeated_port(ports: Seq<u16>, i: int)
    requires
        0 <= i <= ports.len(),
    ensures
        repeated_port(ports, i) is None <==> forall|j: int|
            i <= j < ports.len() ==> !ports.take(j).contains(#[trigger] ports[j]),
    decreases ports.len() - i,
{
    if i < ports.len() {
        lemma_repeated_port(ports, i + 1);
    }
}

proof fn lemma_ports_once(s: ServerView)
    ensures
        repeated_port(s.ports, 0) is None <==> ports_once(s),
{
    let ports = s.ports;
    lemma_repeated_port(ports, 0);
    if repeated_port(ports, 0) is None {
        assert forall|i: int, j: int| 0 <= i < j < ports.len() implies #[trigger] ports[i]
            != #[trigger] ports[j] by {
            assert(!ports.take(j).contains(ports[j]));
            assert(ports.take(j)[i] == ports[i]);
        }
    }
    if ports_once(s) {
        assert forall|j: int| 0 <= j < ports.len() implies !ports.take(j).contains(
            #[trigger] ports[j],
        ) by {
            if ports.take(j).contains(ports[j]) {
                let i = choose|i: int| 0 <= i < j && ports.take(j)[i] == ports[j];
                assert(ports[i] == ports[j]);
            }
        }
    }
}

proof fn lemma_repeated_ports(servers: Seq<ServerView>, i: int)
    requires
        0 <= i <= servers.len(),
    ensures
        repeated_ports(servers, i) is None <==> forall|j: int|
            i <= j < servers.len() ==> ports_once(#[trigger] servers[j]),
    decreases servers.len() - i,
{
    if i < servers.len() {
        lemma_ports_once(servers[i]);
        lemma_repeated_ports(servers, i + 1);
    }
}

proof fn lemma_shared_port(a: Seq<u16>, b: Seq<u16>, i: int)
    requires
        0 <= i <= a.len(),
    ensures
        shared_port(a, b, i) is None <==> forall|j: int|
            i <= j < a.len() ==> !b.contains(#[trigger] a[j]),
    decreases a.len() - i,
{
    if i < a.len() {
        lemma_shared_port(a, b, i + 1);
    }
}

proof fn lemma_clash(a: ServerView, b: ServerView)
    ensures
        conflict(a, b) is None <==> !clash(a, b),
{
    lemma_shared_port(a.ports, b.ports, 0);
    if shared_port(a.ports, b.ports, 0) is Some {
        let j = choose|j: int| 0 <= j < a.ports.len() && b.ports.contains(#[trigger] a.ports[j]);
        assert(a.ports.contains(a.ports[j]));
    } else if exists|p: u16| a.ports.contains(p) && b.ports.contains(p) {
        let p = choose|p: u16| a.ports.contains(p) && b.ports.contains(p);
        let j = choose|j: int| 0 <= j < a.ports.len() && a.ports[j] == p;
        assert(b.ports.contains(a.ports[j]));
    }
}

proof fn lemma_conflict_with(servers: Seq<ServerView>, i: int, j: int)
    requires
        0 <= i < servers.len(),
        0 <= j <= servers.len(),
    ensures
        conflict_with(servers, i, j) is None <==> forall|k: int|
            j <= k < servers.len() ==> !clash(servers[i], #[trigger] servers[k]),
    decreases servers.len() - j,
{
    if j < servers.len() {
        lemma_clash(servers[i], servers[j]);
        lemma_conflict_with(servers, i, j + 1);
    }
}

proof fn lemma_conflicts(servers: Seq<ServerView>, i: int)
    requires
        0 <= i <= servers.len(),
    ensures
        conflicts(servers, i) is None <==> forall|a: int, b: int|
            i <= a < b < servers.len() ==> !clash(#[trigger] servers[a], #[trigger] servers[b]),
    decreases servers.len() - i,
{
    if i < servers.len() {
        lemma_conflict_with(servers, i, i + 1);
        lemma_conflicts(servers, i + 1);
        if conflicts(servers, i) is None {
            assert forall|a: int, b: int| i <= a < b < servers.len() implies !clash(
                #[trigger] servers[a],
                #[trigger] servers[b],
            ) by {
                if a == i {
                    assert(!clash(servers[i], servers[b]));
                }
            }
        }
    }
}

/// Servers are refused exactly if one of them lists a port twice, or two of them claim the same
/// address and port with no name to tell them apart. Servers that share an address and a port
/// under different names are accepted.
pub proof fn law_servers_accepted(servers: Seq<ServerView>)
    ensures
        objection(servers) is None <==> {
            &&& forall|i: int| 0 <= i < servers.len() ==> ports_once(#[trigger] servers[i])
            &&& forall|i: int, j: int|
                0 <= i < j < servers.len() ==> !clash(#[trigger] servers[i], #[trigger] servers[j])
        },
{
    lemma_repeated_ports(servers, 0);
    lemma_conflicts(servers, 0);
}

/// Two servers with names, none of which belongs to both, may share an address and a port.
pub proof fn law_virtual_hosts(a: ServerView, b: ServerView)
    requires
        a.server_names.len() > 0 || b.server_names.len() > 0,
        forall|n: Seq<char>| #[trigger]
            a.server_names.contains(n) ==> !b.server_names.contains(n),
    ensures
        conflict(a, b) is None,
{
    lemma_clash(a, b);
}

/// A server block that was read listens somewhere.
proof fn lemma_block_listens(lines: Seq<Seq<char>>, i: int, s: ServerView)
    requires
        i <= lines.len(),
    ensures
        server_block(lines, i, s) matches Ok((s2, j)) ==> s2.ports.len() > 0,
    decreases lines.len() - i,
{
    if i < lines.len() {
        let line = text::trim(lines[i]);
        if line != "}"@ {
            if line.len() == 0 {
                lemma_block_listens(lines, i + 1, s);
            } else if "location "@.is_prefix_of(line) {
                let first = new_route(location_path(line));
                lemma_route_block_end(lines, i + 1, first);
                if let Ok((r, j)) = route_block(lines, i + 1, first) {
                    lemma_block_listens(lines, j, ServerView { routes: s.routes.push(r), ..s });
                }
            } else if let Ok(s2) = server_line(s, line) {
                lemma_block_listens(lines, i + 1, s2);
            }
        }
    }
}

proof fn lemma_blocks_listen(lines: Seq<Seq<char>>, i: int, servers: Seq<ServerView>)
    requires
        i <= lines.len(),
        forall|k: int| 0 <= k < servers.len() ==> (#[trigger] servers[k]).ports.len() > 0,
    ensures
        server_blocks(lines, i, servers) matches Ok(all) ==> forall|k: int|
            0 <= k < all.len() ==> (#[trigger] all[k]).ports.len() > 0,
    decreases lines.len() - i,
{
    if i < lines.len() {
        let line = text::trim(lines[i]);
        if line == "server {"@ || line == "server{"@ {
            lemma_block_listens(lines, i + 1, new_server());
            lemma_server_block_end(lines, i + 1, new_server());
            if let Ok((s, j)) = server_block(lines, i + 1, new_server()) {
                lemma_blocks_listen(lines, j, servers.push(s));
            }
        } else {
            lemma_blocks_listen(lines, i + 1, servers);
        }
    }
}

/// An accepted configuration has a server; every server listens on some port and on none twice;
/// and no two servers claim the same address and port with no name to tell them apart.
pub proof fn law_configuration_is_usable(content: Seq<char>)
    ensures
        configuration(content) matches Ok(servers) ==> {
            &&& servers.len() > 0
            &&& forall|i: int|
                0 <= i < servers.len() ==> (#[trigger] servers[i]).ports.len() > 0 && ports_once(
                    servers[i],
                )
            &&& forall|i: int, j: int|
                0 <= i < j < servers.len() ==> !clash(#[trigger] servers[i], #[trigger] servers[j])
        },
{
    lemma_blocks_listen(text::lines(content), 0, Seq::empty());
    if let Ok(servers) = configuration(content) {
        law_servers_accepted(servers);
    }
}

/// A directive as it is written.
pub open spec fn directive_line(name: Seq<char>, value: Seq<char>) -> Seq<char> {
    name + " "@ + value + ";"@
}

/// A value that a directive can have: it does not end in a semicolon, nor start or end with white
/// space.
pub open spec fn plain_value(value: Seq<char>) -> bool {
    text::trim(value) == value && (value.len() > 0 ==> value.last() != ';')
}

/// The value of a directive is what was written.
proof fn lemma_directive(name: Seq<char>, value: Seq<char>)
    requires
        plain_value(value),
    ensures
        directive(directive_line(name, value), name) == Some(value),
{
    reveal_strlit(";");
    let prefix = name + " "@;
    let line = directive_line(name, value);
    let rest = value + ";"@;
    assert(line =~= prefix + rest);
    assert(line.take(prefix.len() as int) =~= prefix);
    assert(line.skip(prefix.len() as int) =~= rest);
    lemma_semicolon(value);
}

/// The semicolon that ends a directive is dropped.
proof fn lemma_semicolon(value: Seq<char>)
    requires
        value.len() > 0 ==> value.last() != ';',
    ensures
        text::trim_end_char(value + ";"@, ';') == value,
{
    reveal_strlit(";");
    let s = value + ";"@;
    assert(s.drop_last() =~= value);
    reveal_with_fuel(text::trim_end_char, 2);
}

/// A line that differs from the start of another in one character is not that directive.
proof fn lemma_other_directive(line: Seq<char>, name: Seq<char>, i: int)
    requires
        0 <= i < name.len(),
        i < line.len(),
        line[i] != name[i],
    ensures
        directive(line, name) is None,
        !name.is_prefix_of(line),
{
    let prefix = name + " "@;
    if prefix.is_prefix_of(line) {
        assert(prefix[i] == name[i]);
        assert(line.take(prefix.len() as int)[i] == line[i]);
    }
}

/// The keyword in front of a code, and the code and the rest behind it, are told apart.
proof fn lemma_keyword_pair(keyword: Seq<char>, code: u16, value: Seq<char>)
    requires
        keyword.len() > 0,
        !('0' <= keyword[0] <= '9'),
        value.len() > 0,
        value.last() != ';',
    ensures
        keyword_pair(keyword + number::decimal(code as nat) + " "@ + value + ";"@, keyword)
            == Some((number::decimal(code as nat), value)),
        keyword.is_prefix_of(keyword + number::decimal(code as nat) + " "@ + value + ";"@),
        short_number(number::decimal(code as nat)) == Some(code as nat),
{
    reveal_strlit(" ");
    reveal_strlit(";");
    let digits = number::decimal(code as nat);
    number::lemma_written(code as nat, 10);
    number::law_written_reads_back(code as nat, 10, u16::MAX as nat);
    let line = keyword + digits + " "@ + value + ";"@;
    let rest = digits + " "@ + value;
    assert(line =~= keyword + (rest + ";"@));
    assert(line.take(keyword.len() as int) =~= keyword);
    assert(line.skip(keyword.len() as int) =~= rest + ";"@);
    if keyword.is_prefix_of(rest + ";"@) {
        assert((rest + ";"@)[0] == digits[0]);
        assert((rest + ";"@).take(keyword.len() as int)[0] == keyword[0]);
    }
    reveal_with_fuel(text::trim_start_text, 2);
    lemma_semicolon(rest);
    let n = digits.len() as int;
    assert forall|j: int| 0 <= j < n implies rest[j] != ' ' by {
        assert(rest[j] == digits[j]);
    }
    seqs::lemma_index_is(rest, ' ', 0, n);
    assert(rest.take(n) =~= digits);
    assert(rest.skip(n + 1) =~= value);
}

/// Every directive of a server block says what it is meant to say: the address, one more port, more
/// names, and a page for a status.
pub proof fn law_server_directives(s: ServerView, value: Seq<char>, port: u16, code: u16)
    requires
        plain_value(value),
        value.len() > 0,
    ensures
        server_line(s, directive_line("host"@, value)) == Ok::<ServerView, Seq<char>>(
            ServerView { host: value, ..s },
        ),
        server_line(s, directive_line("listen"@, number::decimal(port as nat))) == Ok::<
            ServerView,
            Seq<char>,
        >(ServerView { ports: s.ports.push(port), ..s }),
        server_line(s, directive_line("server_name"@, value)) == Ok::<ServerView, Seq<char>>(
            ServerView { server_names: s.server_names + text::words(value), ..s },
        ),
        server_line(s, directive_line("client_max_body_size"@, value)) == match size(value) {
            Ok(n) => Ok::<ServerView, Seq<char>>(ServerView { client_max_body_size: n, ..s }),
            Err(e) => Err(e),
        },
        server_line(
            s,
            "error_page "@ + number::decimal(code as nat) + " "@ + value + ";"@,
        ) == Ok::<ServerView, Seq<char>>(
            ServerView { error_pages: s.error_pages.insert(code, value), ..s },
        ),
{
    reveal_strlit("host");
    reveal_strlit("listen");
    reveal_strlit("server_name");
    reveal_strlit("client_max_body_size");
    reveal_strlit("error_page ");
    let digits = number::decimal(port as nat);
    number::lemma_written(port as nat, 10);
    number::law_written_reads_back(port as nat, 10, u16::MAX as nat);
    text::lemma_trim_keeps(digits);
    lemma_directive("host"@, value);
    lemma_directive("listen"@, digits);
    lemma_other_directive(directive_line("listen"@, digits), "host"@, 0);
    let names = directive_line("server_name"@, value);
    lemma_directive("server_name"@, value);
    lemma_other_directive(names, "host"@, 0);
    lemma_other_directive(names, "listen"@, 0);
    let limit = directive_line("client_max_body_size"@, value);
    lemma_directive("client_max_body_size"@, value);
    lemma_other_directive(limit, "host"@, 0);
    lemma_other_directive(limit, "listen"@, 0);
    lemma_other_directive(limit, "server_name"@, 0);
    let page = "error_page "@ + number::decimal(code as nat) + " "@ + value + ";"@;
    lemma_keyword_pair("error_page "@, code, value);
    lemma_other_directive(page, "host"@, 0);
    lemma_other_directive(page, "listen"@, 0);
    lemma_other_directive(page, "server_name"@, 0);
    lemma_other_directive(page, "client_max_body_size"@, 0);
}

/// Every directive of a location says what it is meant to say: the methods, where to redirect to,
/// the root, the default file, the extension of scripts, whether directories are listed, and where
/// uploads go.
pub proof fn law_location_directives(r: RouteView, value: Seq<char>, code: u16)
    requires
        plain_value(value),
        value.len() > 0,
    ensures
        route_line(r, directive_line("allow_methods"@, value)) == Ok::<RouteView, Seq<char>>(
            RouteView { allowed_methods: text::words(value), ..r },
        ),
        route_line(r, "return "@ + number::decimal(code as nat) + " "@ + value + ";"@) == Ok::<
            RouteView,
            Seq<char>,
        >(RouteView { redirect: Some((code, value)), ..r }),
        route_line(r, directive_line("root"@, value)) == Ok::<RouteView, Seq<char>>(
            RouteView { root: Some(value), ..r },
        ),
        route_line(r, directive_line("index"@, value)) == Ok::<RouteView, Seq<char>>(
            RouteView { default_file: Some(value), ..r },
        ),
        route_line(r, directive_line("cgi_extension"@, value)) == Ok::<RouteView, Seq<char>>(
            RouteView { cgi_extension: Some(value), ..r },
        ),
        route_line(r, directive_line("autoindex"@, value)) == Ok::<RouteView, Seq<char>>(
            RouteView { directory_listing: value == "on"@, ..r },
        ),
        route_line(r, directive_line("upload_dir"@, value)) == Ok::<RouteView, Seq<char>>(
            RouteView { upload_dir: Some(value), ..r },
        ),
{
    reveal_strlit("allow_methods");
    reveal_strlit("return ");
    reveal_strlit("root");
    reveal_strlit("index");
    reveal_strlit("cgi_extension");
    reveal_strlit("autoindex");
    reveal_strlit("upload_dir");
    lemma_directive("allow_methods"@, value);
    let redirect = "return "@ + number::decimal(code as nat) + " "@ + value + ";"@;
    lemma_keyword_pair("return "@, code, value);
    lemma_other_directive(redirect, "allow_methods"@, 0);
    let root = directive_line("root"@, value);
    lemma_directive("root"@, value);
    lemma_other_directive(root, "allow_methods"@, 0);
    lemma_other_directive(root, "return "@, 1);
    let index = directive_line("index"@, value);
    lemma_directive("index"@, value);
    lemma_other_directive(index, "allow_methods"@, 0);
    lemma_other_directive(index, "return "@, 0);
    lemma_other_directive(index, "root"@, 0);
    let cgi = directive_line("cgi_extension"@, value);
    lemma_directive("cgi_extension"@, value);
    lemma_other_directive(cgi, "allow_methods"@, 0);
    lemma_other_directive(cgi, "return "@, 0);
    lemma_other_directive(cgi, "root"@, 0);
    lemma_other_directive(cgi, "index"@, 0);
    let listing = directive_line("autoindex"@, value);
    lemma_directive("autoindex"@, value);
    lemma_other_directive(listing, "allow_methods"@, 1);
    lemma_other_directive(listing, "return "@, 0);
    lemma_other_directive(listing, "root"@, 0);
    lemma_other_directive(listing, "index"@, 0);
    lemma_other_directive(listing, "cgi_extension"@, 0);
    let upload = directive_line("upload_dir"@, value);
    lemma_directive("upload_dir"@, value);
    lemma_other_directive(upload, "allow_methods"@, 0);
    lemma_other_directive(upload, "return "@, 0);
    lemma_other_directive(upload, "root"@, 0);
    lemma_other_directive(upload, "index"@, 0);
    lemma_other_directive(upload, "cgi_extension"@, 0);
    lemma_other_directive(upload, "autoindex"@, 0);
}

/// What `usize` holds does not wrap around.
proof fn lemma_small_size(n: nat)
    requires
        n <= usize::MAX,
    ensures
        n % (usize::MAX as nat + 1) == n,
{
    vstd::arithmetic::div_mod::lemma_small_mod(n, usize::MAX as nat + 1);
}

/// Sizes are written in bytes, in units of 1024 or in units of 1024 * 1024.
pub proof fn law_sizes(n: nat)
    ensures
        n <= usize::MAX ==> size(number::decimal(n)) == Ok::<usize, Seq<char>>(n as usize),
        n * 1024 <= usize::MAX ==> size(number::decimal(n).push('K')) == Ok::<usize, Seq<char>>(
            (n * 1024) as usize,
        ),
        n * 1048576 <= usize::MAX ==> size(number::decimal(n).push('M')) == Ok::<
            usize,
            Seq<char>,
        >((n * 1048576) as usize),
{
    let digits = number::decimal(n);
    number::lemma_written(n, 10);
    assert('0' <= digits[digits.len() - 1] <= 'f');
    assert(text::trim_end_char(digits, ';') == digits);
    if n <= usize::MAX {
        number::law_written_reads_back(n, 10, usize::MAX as nat);
        lemma_small_size(n * 1);
        assert(scaled(digits, 1) == Some(n as usize));
        assert('0' <= digits.last() <= '9') by {
            assert(number::digit_value(digits[digits.len() - 1], 10) is Some);
        }
    }
    if n * 1024 <= usize::MAX {
        lemma_small_size(n * 1024);
    }
    if n * 1048576 <= usize::MAX {
        lemma_small_size(n * 1048576);
    }
    assert(digits.push('K').drop_last() =~= digits);
    assert(digits.push('M').drop_last() =~= digits);
}

// ---------------------------------------------------------------------------
// Whole blocks
// ---------------------------------------------------------------------------

/// The line holds nothing but white space.
pub open spec fn blank(line: Seq<char>) -> bool {
    text::trim(line).len() == 0
}

/// The line closes a block.
pub open spec fn closing(line: Seq<char>) -> bool {
    text::trim(line) == seq!['}']
}

/// What the lines of a location, one after the other, say; blank lines say nothing.
pub open spec fn route_said(r: RouteView, body: Seq<Seq<char>>) -> Result<RouteView, Seq<char>>
    decreases body.len(),
{
    if body.len() == 0 {
        Ok(r)
    } else if blank(body[0]) {
        route_said(r, body.drop_first())
    } else {
        match route_line(r, text::trim(body[0])) {
            Ok(r2) => route_said(r2, body.drop_first()),
            Err(e) => Err(e),
        }
    }
}

/// A location says what its lines say, up to the line that closes it and no further; blank lines,
/// wherever they stand, neither say anything nor close it.
pub proof fn law_location_block(
    before: Seq<Seq<char>>,
    body: Seq<Seq<char>>,
    close: Seq<char>,
    behind: Seq<Seq<char>>,
    r: RouteView,
)
    requires
        forall|i: int| 0 <= i < body.len() ==> !closing(#[trigger] body[i]),
        closing(close),
    ensures
        route_block(before + body + seq![close] + behind, before.len() as int, r) == match route_said(
            r,
            body,
        ) {
            Ok(r2) => Ok::<(RouteView, int), Seq<char>>(
                (r2, before.len() as int + body.len() as int + 1),
            ),
            Err(e) => Err(e),
        },
    decreases body.len(),
{
    reveal_strlit("}");
    assert("}"@ =~= seq!['}']);
    let lines = before + body + seq![close] + behind;
    let n = before.len() as int;
    if body.len() == 0 {
        assert(lines[n] == close);
    } else {
        let first = body[0];
        let rest = body.drop_first();
        assert(lines[n] == first);
        assert(!closing(first));
        assert forall|i: int| 0 <= i < rest.len() implies !closing(#[trigger] rest[i]) by {
            assert(rest[i] == body[i + 1]);
        }
        assert(lines =~= before.push(first) + rest + seq![close] + behind);
        if blank(first) {
            law_location_block(before.push(first), rest, close, behind, r);
        } else if let Ok(r2) = route_line(r, text::trim(first)) {
            law_location_block(before.push(first), rest, close, behind, r2);
        }
    }
}

/// Blank lines among the lines of a location can be left out.
pub proof fn law_blank_lines_in_location(
    a: Seq<Seq<char>>,
    line: Seq<char>,
    b: Seq<Seq<char>>,
    r: RouteView,
)
    requires
        blank(line),
    ensures
        route_said(r, a + seq![line] + b) == route_said(r, a + b),
    decreases a.len(),
{
    let with = a + seq![line] + b;
    if a.len() == 0 {
        assert(with.drop_first() =~= b);
        assert(a + b =~= b);
        assert(with[0] == line);
    } else {
        let rest = a.drop_first();
        assert(with.drop_first() =~= rest + seq![line] + b);
        assert((a + b).drop_first() =~= rest + b);
        assert(with[0] == a[0] && (a + b)[0] == a[0]);
        if blank(a[0]) {
            law_blank_lines_in_location(rest, line, b, r);
        } else if let Ok(r2) = route_line(r, text::trim(a[0])) {
            law_blank_lines_in_location(rest, line, b, r2);
        }
    }
}

/// A blank line at the start of what is left of a block can be left out, be it a location or a
/// server.
pub proof fn law_blank_line_is_skipped(
    lines: Seq<Seq<char>>,
    i: int,
    r: RouteView,
    s: ServerView,
)
    requires
        0 <= i < lines.len(),
        blank(lines[i]),
    ensures
        route_block(lines, i, r) == route_block(lines, i + 1, r),
        server_block(lines, i, s) == server_block(lines, i + 1, s),
{
    reveal_strlit("}");
}

/// A part of a server block: a line that is neither blank nor opens a location nor closes the
/// block, a blank line, or a location with the line that opens it, its lines and the line that
/// closes it.
pub enum Item {
    Line(Seq<char>),
    Blank(Seq<char>),
    Location { open: Seq<char>, path: Seq<char>, body: Seq<Seq<char>>, close: Seq<char> },
}

/// A line that opens a location, without white space around it: the word, a space, the path, white
/// space if any, and a brace.
pub open spec fn opens_location(line: Seq<char>, path: Seq<char>) -> bool {
    exists|gap: Seq<char>|
        line == #[trigger] ("location "@ + path + gap + seq!['{']) && forall|i: int|
            0 <= i < gap.len() ==> text::is_space(#[trigger] gap[i])
}

/// A path that can stand in a location.
pub open spec fn plain_path(path: Seq<char>) -> bool {
    path.len() > 0 && path[0] == '/' && path.last() != '{' && !text::is_space(path.last())
}

/// The part of a server block can be written.
pub open spec fn writable_item(item: Item) -> bool {
    match item {
        Item::Line(line) => !closing(line) && !blank(line) && !"location "@.is_prefix_of(
            text::trim(line),
        ),
        Item::Blank(line) => blank(line),
        Item::Location { open, path, body, close } => {
            &&& opens_location(text::trim(open), path)
            &&& plain_path(path)
            &&& forall|i: int| 0 <= i < body.len() ==> !closing(#[trigger] body[i])
            &&& closing(close)
        },
    }
}

/// The lines of a part of a server block.
pub open spec fn item_lines(item: Item) -> Seq<Seq<char>> {
    match item {
        Item::Line(line) => seq![line],
        Item::Blank(line) => seq![line],
        Item::Location { open, path, body, close } => seq![open] + body + seq![close],
    }
}

/// The lines of the parts of a server block.
pub open spec fn items_lines(items: Seq<Item>) -> Seq<Seq<char>>
    decreases items.len(),
{
    if items.len() == 0 {
        Seq::empty()
    } else {
        item_lines(items[0]) + items_lines(items.drop_first())
    }
}

/// What a part of a server block says: a line gives a directive, and a location is one more route.
pub open spec fn item_said(s: ServerView, item: Item) -> Result<ServerView, Seq<char>> {
    match item {
        Item::Line(line) => server_line(s, text::trim(line)),
        Item::Blank(line) => Ok(s),
        Item::Location { open, path, body, close } => match route_said(new_route(path), body) {
            Ok(r) => Ok(ServerView { routes: s.routes.push(r), ..s }),
            Err(e) => Err(e),
        },
    }
}

/// What the parts of a server block, one after the other, say.
pub open spec fn server_said(s: ServerView, items: Seq<Item>) -> Result<ServerView, Seq<char>>
    decreases items.len(),
{
    if items.len() == 0 {
        Ok(s)
    } else {
        match item_said(s, items[0]) {
            Ok(s2) => server_said(s2, items.drop_first()),
            Err(e) => Err(e),
        }
    }
}

/// The path of a location is what stands between its keyword and its brace.
pub proof fn law_location_path(line: Seq<char>, path: Seq<char>)
    requires
        opens_location(line, path),
        plain_path(path),
    ensures
        location_path(line) == path,
        "location "@.is_prefix_of(line),
{
    reveal_strlit("location ");
    let gap = choose|gap: Seq<char>|
        line == #[trigger] ("location "@ + path + gap + seq!['{']) && forall|i: int|
            0 <= i < gap.len() ==> text::is_space(#[trigger] gap[i]);
    let key = "location "@;
    let rest = path + gap + seq!['{'];
    assert(line =~= key + rest);
    assert(line.take(key.len() as int) =~= key);
    assert(line.skip(key.len() as int) =~= rest);
    if key.is_prefix_of(rest) {
        assert(rest.take(key.len() as int)[0] == rest[0]);
    }
    reveal_with_fuel(text::trim_start_text, 2);
    let inner = path + gap;
    assert(inner.last() != '{') by {
        if gap.len() > 0 {
            assert(inner.last() == gap[gap.len() - 1]);
        }
    }
    text::law_trim_end_char(inner, seq!['{'], '{');
    let none = Seq::<char>::empty();
    assert(none + path + gap =~= inner);
    text::law_trim(none, path, gap);
}

proof fn lemma_item_read(
    before: Seq<Seq<char>>,
    item: Item,
    behind: Seq<Seq<char>>,
    s: ServerView,
)
    requires
        writable_item(item),
    ensures
        ({
            let lines = before + item_lines(item) + behind;
            let i = before.len() as int;
            server_block(lines, i, s) == match item_said(s, item) {
                Ok(s2) => server_block(lines, i + item_lines(item).len(), s2),
                Err(e) => Err(e),
            }
        }),
{
    reveal_strlit("}");
    reveal_strlit("location ");
    assert("}"@ =~= seq!['}']);
    let lines = before + item_lines(item) + behind;
    let i = before.len() as int;
    match item {
        Item::Line(line) => {
            assert(lines[i] == line);
        },
        Item::Blank(line) => {
            assert(lines[i] == line);
        },
        Item::Location { open, path, body, close } => {
            assert(lines[i] == open);
            law_location_path(text::trim(open), path);
            assert(!closing(open)) by {
                assert("location "@.is_prefix_of(text::trim(open)));
            }
            assert(lines =~= before.push(open) + body + seq![close] + behind);
            law_location_block(before.push(open), body, close, behind, new_route(path));
        },
    }
}

/// A server block says what its parts say, up to the line that closes it and no further, and is
/// refused if no part of it says where to listen. Blank lines, wherever they stand, change nothing.
pub proof fn law_server_block(
    before: Seq<Seq<char>>,
    items: Seq<Item>,
    close: Seq<char>,
    behind: Seq<Seq<char>>,
    s: ServerView,
)
    requires
        forall|i: int| 0 <= i < items.len() ==> writable_item(#[trigger] items[i]),
        closing(close),
    ensures
        ({
            let lines = before + items_lines(items) + seq![close] + behind;
            let r = server_block(lines, before.len() as int, s);
            match server_said(s, items) {
                Ok(s2) => if s2.ports.len() == 0 {
                    r is Err
                } else {
                    r == Ok::<(ServerView, int), Seq<char>>(
                        (s2, before.len() as int + items_lines(items).len() as int + 1),
                    )
                },
                Err(e) => r == Err::<(ServerView, int), Seq<char>>(e),
            }
        }),
    decreases items.len(),
{
    reveal_strlit("}");
    assert("}"@ =~= seq!['}']);
    let lines = before + items_lines(items) + seq![close] + behind;
    let n = before.len() as int;
    if items.len() == 0 {
        assert(lines[n] == close);
    } else {
        let first = items[0];
        let rest = items.drop_first();
        assert(writable_item(first));
        assert forall|i: int| 0 <= i < rest.len() implies writable_item(#[trigger] rest[i]) by {
            assert(rest[i] == items[i + 1]);
        }
        let tail = items_lines(rest) + seq![close] + behind;
        assert(lines =~= before + item_lines(first) + tail);
        lemma_item_read(before, first, tail, s);
        let next = before + item_lines(first);
        assert(lines =~= next + items_lines(rest) + seq![close] + behind);
        if let Ok(s2) = item_said(s, first) {
            law_server_block(next, rest, close, behind, s2);
        }
    }
}

/// A server block as it is written: lines that open no block, the line that opens it, its parts and
/// the line that closes it.
pub struct Block {
    pub lead: Seq<Seq<char>>,
    pub open: Seq<char>,
    pub items: Seq<Item>,
    pub close: Seq<char>,
}

/// The line opens a server block.
pub open spec fn opens_server(line: Seq<char>) -> bool {
    text::trim(line) == "server {"@ || text::trim(line) == "server{"@
}

/// The block can be written.
pub open spec fn writable_block(b: Block) -> bool {
    &&& forall|i: int| 0 <= i < b.lead.len() ==> !opens_server(#[trigger] b.lead[i])
    &&& opens_server(b.open)
    &&& forall|i: int| 0 <= i < b.items.len() ==> writable_item(#[trigger] b.items[i])
    &&& closing(b.close)
}

/// The lines of a server block.
pub open spec fn block_lines(b: Block) -> Seq<Seq<char>> {
    b.lead + seq![b.open] + items_lines(b.items) + seq![b.close]
}

/// The lines of the server blocks.
pub open spec fn blocks_lines(blocks: Seq<Block>) -> Seq<Seq<char>>
    decreases blocks.len(),
{
    if blocks.len() == 0 {
        Seq::empty()
    } else {
        block_lines(blocks[0]) + blocks_lines(blocks.drop_first())
    }
}

/// Lines that open no server block are passed over.
proof fn lemma_lead_skipped(
    before: Seq<Seq<char>>,
    lead: Seq<Seq<char>>,
    behind: Seq<Seq<char>>,
    servers: Seq<ServerView>,
)
    requires
        forall|i: int| 0 <= i < lead.len() ==> !opens_server(#[trigger] lead[i]),
    ensures
        server_blocks(before + lead + behind, before.len() as int, servers) == server_blocks(
            before + lead + behind,
            before.len() as int + lead.len() as int,
            servers,
        ),
    decreases lead.len(),
{
    if lead.len() > 0 {
        let rest = lead.drop_first();
        let lines = before + lead + behind;
        assert(lines[before.len() as int] == lead[0]);
        assert(!opens_server(lead[0]));
        assert forall|i: int| 0 <= i < rest.len() implies !opens_server(#[trigger] rest[i]) by {
            assert(rest[i] == lead[i + 1]);
        }
        assert(lines =~= before.push(lead[0]) + rest + behind);
        lemma_lead_skipped(before.push(lead[0]), rest, behind, servers);
    }
}

proof fn lemma_blocks_read(
    before: Seq<Seq<char>>,
    blocks: Seq<Block>,
    said: Seq<ServerView>,
    behind: Seq<Seq<char>>,
    known: Seq<ServerView>,
)
    requires
        said.len() == blocks.len(),
        forall|i: int|
            0 <= i < blocks.len() ==> writable_block(#[trigger] blocks[i]) && server_said(
                new_server(),
                blocks[i].items,
            ) == Ok::<ServerView, Seq<char>>(said[i]) && said[i].ports.len() > 0,
    ensures
        server_blocks(
            before + blocks_lines(blocks) + behind,
            before.len() as int,
            known,
        ) == server_blocks(
            before + blocks_lines(blocks) + behind,
            before.len() as int + blocks_lines(blocks).len() as int,
            known + said,
        ),
    decreases blocks.len(),
{
    let lines = before + blocks_lines(blocks) + behind;
    if blocks.len() == 0 {
        assert(known + said =~= known);
    } else {
        let b = blocks[0];
        let rest = blocks.drop_first();
        let others = said.drop_first();
        let tail = blocks_lines(rest) + behind;
        assert(writable_block(b));
        assert forall|i: int| 0 <= i < rest.len() implies writable_block(#[trigger] rest[i])
            && server_said(new_server(), rest[i].items) == Ok::<ServerView, Seq<char>>(others[i])
            && others[i].ports.len() > 0 by {
            assert(rest[i] == blocks[i + 1]);
        }
        assert(lines =~= before + block_lines(b) + tail);
        lemma_block_read(before, b, tail, known);
        let next = before + block_lines(b);
        assert(lines =~= next + blocks_lines(rest) + behind);
        lemma_blocks_read(next, rest, others, behind, known.push(said[0]));
        assert(known.push(said[0]) + others =~= known + said);
    }
}

/// A server block is read as what it says, and refused if it says something wrong or does not say
/// where to listen.
proof fn lemma_block_read(
    before: Seq<Seq<char>>,
    b: Block,
    tail: Seq<Seq<char>>,
    known: Seq<ServerView>,
)
    requires
        writable_block(b),
    ensures
        ({
            let lines = before + block_lines(b) + tail;
            let r = server_blocks(lines, before.len() as int, known);
            match server_said(new_server(), b.items) {
                Ok(s) => if s.ports.len() == 0 {
                    r is Err
                } else {
                    r == server_blocks(
                        lines,
                        before.len() as int + block_lines(b).len() as int,
                        known.push(s),
                    )
                },
                Err(e) => r == Err::<Seq<ServerView>, Seq<char>>(e),
            }
        }),
{
    let lines = before + block_lines(b) + tail;
    let behind = seq![b.open] + items_lines(b.items) + seq![b.close] + tail;
    assert(lines =~= before + b.lead + behind);
    lemma_lead_skipped(before, b.lead, behind, known);
    let at = before.len() as int + b.lead.len() as int;
    assert(lines[at] == b.open);
    let opened = before + b.lead + seq![b.open];
    assert(lines =~= opened + items_lines(b.items) + seq![b.close] + tail);
    law_server_block(opened, b.items, b.close, tail, new_server());
}

/// The lines can be told apart by their ends.
pub open spec fn plain_lines(lines: Seq<Seq<char>>) -> bool {
    forall|i: int|
        0 <= i < lines.len() ==> !(#[trigger] lines[i]).contains('\n') && (lines[i].len() > 0
            ==> lines[i].last() != '\r')
}

/// A configuration of server blocks, whatever lines stand between and behind them, with line ends of
/// either kind, is read as the servers that the blocks say, in their order, if nothing is to be said
/// against them, and is refused with what is said against them.
pub proof fn law_configuration_read_back(
    blocks: Seq<Block>,
    said: Seq<ServerView>,
    behind: Seq<Seq<char>>,
    with_cr: bool,
)
    requires
        blocks.len() > 0,
        said.len() == blocks.len(),
        forall|i: int|
            0 <= i < blocks.len() ==> writable_block(#[trigger] blocks[i]) && server_said(
                new_server(),
                blocks[i].items,
            ) == Ok::<ServerView, Seq<char>>(said[i]) && said[i].ports.len() > 0,
        forall|i: int| 0 <= i < behind.len() ==> !opens_server(#[trigger] behind[i]),
        plain_lines(blocks_lines(blocks) + behind),
    ensures
        objection(said) is None ==> configuration(
            text::ended(blocks_lines(blocks) + behind, with_cr),
        ) == Ok::<Seq<ServerView>, Seq<char>>(said),
        objection(said) matches Some(m) ==> configuration(
            text::ended(blocks_lines(blocks) + behind, with_cr),
        ) == Err::<Seq<ServerView>, Seq<char>>(m),
{
    let lines = blocks_lines(blocks) + behind;
    text::law_lines_read_back(lines, with_cr);
    let none = Seq::<Seq<char>>::empty();
    lemma_blocks_read(none, blocks, said, behind, Seq::empty());
    assert(none + blocks_lines(blocks) + behind =~= lines);
    assert(Seq::<ServerView>::empty() + said =~= said);
    lemma_lead_skipped(blocks_lines(blocks), behind, none, said);
    assert(blocks_lines(blocks) + behind + none =~= lines);
}

/// A configuration with a server block that says something wrong, or does not say where to listen,
/// is refused, whatever blocks stand before and behind it.
pub proof fn law_bad_block_is_refused(
    blocks: Seq<Block>,
    said: Seq<ServerView>,
    bad: Block,
    behind: Seq<Seq<char>>,
    with_cr: bool,
)
    requires
        said.len() == blocks.len(),
        forall|i: int|
            0 <= i < blocks.len() ==> writable_block(#[trigger] blocks[i]) && server_said(
                new_server(),
                blocks[i].items,
            ) == Ok::<ServerView, Seq<char>>(said[i]) && said[i].ports.len() > 0,
        writable_block(bad),
        match server_said(new_server(), bad.items) {
            Ok(s) => s.ports.len() == 0,
            Err(_) => true,
        },
        plain_lines(blocks_lines(blocks) + block_lines(bad) + behind),
    ensures
        configuration(text::ended(blocks_lines(blocks) + block_lines(bad) + behind, with_cr))
            is Err,
{
    let front = blocks_lines(blocks);
    let lines = front + block_lines(bad) + behind;
    text::law_lines_read_back(lines, with_cr);
    let none = Seq::<Seq<char>>::empty();
    lemma_blocks_read(none, blocks, said, block_lines(bad) + behind, Seq::empty());
    assert(none + front + (block_lines(bad) + behind) =~= lines);
    lemma_block_read(front, bad, behind, Seq::empty() + said);
}

/// One more block in front of the others is its lines in front of theirs: what leads up to it, the
/// line that opens it, its parts and the line that closes it.
pub proof fn law_configuration_lines(b: Block, blocks: Seq<Block>)
    ensures
        blocks_lines(seq![b] + blocks) == b.lead + seq![b.open] + items_lines(b.items) + seq![
            b.close,
        ] + blocks_lines(blocks),
        blocks_lines(Seq::empty()) == Seq::<Seq<char>>::empty(),
{
    assert((seq![b] + blocks).drop_first() =~= blocks);
    assert((seq![b] + blocks)[0] == b);
}

/// A location or a server that the text ends in is closed by the end.
pub proof fn law_unclosed_blocks(
    before: Seq<Seq<char>>,
    body: Seq<Seq<char>>,
    r: RouteView,
    s: ServerView,
)
    requires
        forall|i: int| 0 <= i < body.len() ==> !closing(#[trigger] body[i]),
    ensures
        route_block(before + body, before.len() as int, r) == match route_said(r, body) {
            Ok(r2) => Ok::<(RouteView, int), Seq<char>>(
                (r2, before.len() as int + body.len() as int),
            ),
            Err(e) => Err(e),
        },
        s.ports.len() > 0 ==> server_block(before, before.len() as int, s) == Ok::<
            (ServerView, int),
            Seq<char>,
        >((s, before.len() as int)),
        s.ports.len() == 0 ==> server_block(before, before.len() as int, s) is Err,
    decreases body.len(),
{
    reveal_strlit("}");
    assert("}"@ =~= seq!['}']);
    if body.len() > 0 {
        let first = body[0];
        let rest = body.drop_first();
        let lines = before + body;
        assert(lines[before.len() as int] == first);
        assert(!closing(first));
        assert forall|i: int| 0 <= i < rest.len() implies !closing(#[trigger] rest[i]) by {
            assert(rest[i] == body[i + 1]);
        }
        assert(lines =~= before.push(first) + rest);
        if blank(first) {
            law_unclosed_blocks(before.push(first), rest, r, s);
        } else if let Ok(r2) = route_line(r, text::trim(first)) {
            law_unclosed_blocks(before.push(first), rest, r2, s);
        }
    }
}

/// A text in which no line opens a server block is refused.
pub proof fn law_configuration_needs_server(lines: Seq<Seq<char>>, with_cr: bool)
    requires
        forall|i: int|
            0 <= i < lines.len() ==> !(#[trigger] lines[i]).contains('\n') && (lines[i].len() > 0
                ==> lines[i].last() != '\r') && !opens_server(lines[i]),
    ensures
        configuration(text::ended(lines, with_cr)) is Err,
{
    text::law_lines_read_back(lines, with_cr);
    let none = Seq::<Seq<char>>::empty();
    lemma_lead_skipped(none, lines, none, Seq::empty());
    assert(none + lines + none =~= lines);
}

/// Servers of which nothing more is said listen on every address and take bodies of up to a
/// mebibyte; locations of which nothing more is said take the method GET alone, serve nothing, list
/// no directory and run no script.
pub proof fn law_defaults(path: Seq<char>)
    ensures
        new_server().host == "0.0.0.0"@,
        new_server().ports.len() == 0,
        new_server().server_names.len() == 0,
        new_server().error_pages == Map::<u16, Seq<char>>::empty(),
        new_server().client_max_body_size == 1024 * 1024,
        new_server().routes.len() == 0,
        new_route(path).path == path,
        new_route(path).allowed_methods == seq!["GET"@],
        new_route(path).redirect is None,
        new_route(path).root is None,
        new_route(path).default_file is None,
        new_route(path).cgi_extension is None,
        !new_route(path).directory_listing,
        new_route(path).upload_dir is None,
{
}

/// The line starts with no directive of a location or of a server.
pub open spec fn says_nothing(line: Seq<char>) -> bool {
    &&& !"allow_methods "@.is_prefix_of(line)
    &&& !"return "@.is_prefix_of(line)
    &&& !"root "@.is_prefix_of(line)
    &&& !"index "@.is_prefix_of(line)
    &&& !"cgi_extension "@.is_prefix_of(line)
    &&& !"autoindex "@.is_prefix_of(line)
    &&& !"upload_dir "@.is_prefix_of(line)
    &&& !"host "@.is_prefix_of(line)
    &&& !"listen "@.is_prefix_of(line)
    &&& !"server_name "@.is_prefix_of(line)
    &&& !"client_max_body_size "@.is_prefix_of(line)
    &&& !"error_page "@.is_prefix_of(line)
}

/// A line with no directive, such as a comment, changes nothing.
pub proof fn law_other_lines(line: Seq<char>, r: RouteView, s: ServerView)
    ensures
        says_nothing(line) ==> route_line(r, line) == Ok::<RouteView, Seq<char>>(r),
        says_nothing(line) ==> server_line(s, line) == Ok::<ServerView, Seq<char>>(s),
        line.len() > 0 && line[0] == '#' ==> says_nothing(line),
{
    reveal_strlit(" ");
    reveal_strlit("allow_methods");
    reveal_strlit("allow_methods ");
    reveal_strlit("return ");
    reveal_strlit("root");
    reveal_strlit("root ");
    reveal_strlit("index");
    reveal_strlit("index ");
    reveal_strlit("cgi_extension");
    reveal_strlit("cgi_extension ");
    reveal_strlit("autoindex");
    reveal_strlit("autoindex ");
    reveal_strlit("upload_dir");
    reveal_strlit("upload_dir ");
    reveal_strlit("host");
    reveal_strlit("host ");
    reveal_strlit("listen");
    reveal_strlit("listen ");
    reveal_strlit("server_name");
    reveal_strlit("server_name ");
    reveal_strlit("client_max_body_size");
    reveal_strlit("client_max_body_size ");
    reveal_strlit("error_page ");
    assert("allow_methods"@ + " "@ =~= "allow_methods "@);
    assert("root"@ + " "@ =~= "root "@);
    assert("index"@ + " "@ =~= "index "@);
    assert("cgi_extension"@ + " "@ =~= "cgi_extension "@);
    assert("autoindex"@ + " "@ =~= "autoindex "@);
    assert("upload_dir"@ + " "@ =~= "upload_dir "@);
    assert("host"@ + " "@ =~= "host "@);
    assert("listen"@ + " "@ =~= "listen "@);
    assert("server_name"@ + " "@ =~= "server_name "@);
    assert("client_max_body_size"@ + " "@ =~= "client_max_body_size "@);
    if line.len() > 0 && line[0] == '#' {
        lemma_other_start(line, "allow_methods "@);
        lemma_other_start(line, "return "@);
        lemma_other_start(line, "root "@);
        lemma_other_start(line, "index "@);
        lemma_other_start(line, "cgi_extension "@);
        lemma_other_start(line, "autoindex "@);
        lemma_other_start(line, "upload_dir "@);
        lemma_other_start(line, "host "@);
        lemma_other_start(line, "listen "@);
        lemma_other_start(line, "server_name "@);
        lemma_other_start(line, "client_max_body_size "@);
        lemma_other_start(line, "error_page "@);
    }
}

proof fn lemma_other_start(line: Seq<char>, key: Seq<char>)
    requires
        line.len() > 0,
        key.len() > 0,
        line[0] != key[0],
    ensures
        !key.is_prefix_of(line),
{
    if key.is_prefix_of(line) {
        assert(line.take(key.len() as int)[0] == line[0]);
    }
}

/// A directive may be indented and may have more than one semicolon, or none: its value is the same.
pub proof fn law_directive_value(name: Seq<char>, lead: Seq<char>, value: Seq<char>, ends: Seq<char>)
    requires
        forall|i: int| 0 <= i < lead.len() ==> text::is_space(#[trigger] lead[i]),
        value.len() > 0,
        !text::is_space(value[0]),
        !text::is_space(value.last()),
        value.last() != ';',
        forall|i: int| 0 <= i < ends.len() ==> #[trigger] ends[i] == ';',
    ensures
        directive(name + seq![' '] + lead + value + ends, name) == Some(value),
{
    reveal_strlit(" ");
    assert(" "@ =~= seq![' ']);
    let line = name + seq![' '] + lead + value + ends;
    let prefix = name + " "@;
    let rest = lead + value + ends;
    assert(line =~= prefix + rest);
    assert(line.take(prefix.len() as int) =~= prefix);
    assert(line.skip(prefix.len() as int) =~= rest);
    assert(rest =~= (lead + value) + ends);
    text::law_trim_end_char(lead + value, ends, ';');
    let none = Seq::<char>::empty();
    assert(lead + value =~= lead + value + none);
    text::law_trim(lead, value, none);
}

/// Several names, or several methods, are given in one directive with spaces between them.
pub proof fn law_listed_words(s: ServerView, r: RouteView, parts: Seq<Seq<char>>)
    requires
        parts.len() > 0,
        forall|i: int| 0 <= i < parts.len() ==> text::is_word(#[trigger] parts[i]),
        parts.last().last() != ';',
    ensures
        server_line(s, directive_line("server_name"@, text::joined(parts, seq![' ']))) == Ok::<
            ServerView,
            Seq<char>,
        >(ServerView { server_names: s.server_names + parts, ..s }),
        route_line(r, directive_line("allow_methods"@, text::joined(parts, seq![' ']))) == Ok::<
            RouteView,
            Seq<char>,
        >(RouteView { allowed_methods: parts, ..r }),
{
    let value = text::joined(parts, seq![' ']);
    text::law_words_read_back(parts);
    lemma_joined_ends(parts);
    text::lemma_trim_keeps(value);
    law_server_directives(s, value, 0, 0);
    law_location_directives(r, value, 0);
}

/// Words with spaces between them start with the first and end with the last.
proof fn lemma_joined_ends(parts: Seq<Seq<char>>)
    requires
        parts.len() > 0,
        forall|i: int| 0 <= i < parts.len() ==> text::is_word(#[trigger] parts[i]),
    ensures
        ({
            let value = text::joined(parts, seq![' ']);
            value.len() > 0 && !text::is_space(value[0]) && !text::is_space(value.last())
                && value.last() == parts.last().last()
        }),
{
    let value = text::joined(parts, seq![' ']);
    assert(text::is_word(parts[0]));
    assert(text::is_word(parts[parts.len() - 1]));
    assert(!text::is_space(parts[0][0]));
    let last = parts.last();
    assert(!text::is_space(last[last.len() - 1]));
    if parts.len() > 1 {
        text::lemma_joined_first(parts, seq![' ']);
        assert(value[0] == parts[0][0]);
        assert(value.last() == last.last());
    }
}

/// The text holds something that is no digit, other than a sign at its start.
pub open spec fn no_number(s: Seq<char>) -> bool {
    s.len() == 0 || exists|i: int|
        0 <= i < s.len() && !('0' <= #[trigger] s[i] <= '9') && (i == 0 ==> s[i] != '+')
}

proof fn lemma_no_number(s: Seq<char>, max: nat)
    requires
        no_number(s),
    ensures
        number::parse_unsigned(s, 10, max) is None,
{
    if s.len() > 0 {
        let i = choose|i: int|
            0 <= i < s.len() && !('0' <= #[trigger] s[i] <= '9') && (i == 0 ==> s[i] != '+');
        let d = number::unsigned_digits(s);
        let j = if d == s { i } else { i - 1 };
        assert(d[j] == s[i]);
        assert(number::digit_value(d[j], 10) is None);
    }
}

/// A port that is no number, or none of at most sixteen bits, is refused, and so is a size that is
/// no number.
pub proof fn law_bad_values(s: ServerView, value: Seq<char>, n: nat)
    requires
        plain_value(value),
        value.len() > 0,
    ensures
        no_number(value) ==> server_line(s, directive_line("listen"@, value)) is Err,
        n > u16::MAX ==> server_line(s, directive_line("listen"@, number::decimal(n))) is Err,
        no_number(value) && no_number(value.drop_last()) ==> server_line(
            s,
            directive_line("client_max_body_size"@, value),
        ) is Err,
{
    reveal_strlit("host");
    reveal_strlit("listen");
    lemma_directive("listen"@, value);
    lemma_other_directive(directive_line("listen"@, value), "host"@, 0);
    if no_number(value) {
        lemma_no_number(value, u16::MAX as nat);
        lemma_no_number(value, usize::MAX as nat);
    }
    let digits = number::decimal(n);
    number::lemma_written(n, 10);
    text::lemma_trim_keeps(digits);
    lemma_directive("listen"@, digits);
    lemma_other_directive(directive_line("listen"@, digits), "host"@, 0);
    assert(digits[0] != '+');
    law_server_directives(s, value, 0, 0);
    if no_number(value.drop_last()) {
        lemma_no_number(value.drop_last(), usize::MAX as nat);
    }
}

/// The units of sizes may be written small.
pub proof fn law_small_units(n: nat)
    ensures
        n * 1024 <= usize::MAX ==> size(number::decimal(n).push('k')) == Ok::<usize, Seq<char>>(
            (n * 1024) as usize,
        ),
        n * 1048576 <= usize::MAX ==> size(number::decimal(n).push('m')) == Ok::<
            usize,
            Seq<char>,
        >((n * 1048576) as usize),
{
    let digits = number::decimal(n);
    number::lemma_written(n, 10);
    if n <= usize::MAX {
        number::law_written_reads_back(n, 10, usize::MAX as nat);
    }
    if n * 1024 <= usize::MAX {
        lemma_small_size(n * 1024);
    }
    if n * 1048576 <= usize::MAX {
        lemma_small_size(n * 1048576);
    }
    assert(digits.push('k').drop_last() =~= digits);
    assert(digits.push('m').drop_last() =~= digits);
}

/// Two servers on the same address and port are refused if neither has a name, or if some name
/// belongs to both; else they are accepted together, as are servers on different addresses or
/// ports. A port that is listed twice is refused.
pub proof fn law_pairs_of_servers(a: ServerView, b: ServerView, port: u16, name: Seq<char>)
    ensures
        a.host == b.host && a.ports.contains(port) && b.ports.contains(port) && a.server_names.len()
            == 0 && b.server_names.len() == 0 ==> objection(seq![a, b]) is Some,
        a.host == b.host && a.ports.contains(port) && b.ports.contains(port)
            && a.server_names.contains(name) && b.server_names.contains(name) ==> objection(
            seq![a, b],
        ) is Some,
        a.ports.no_duplicates() && b.ports.no_duplicates() && a.host != b.host ==> objection(
            seq![a, b],
        ) is None,
        a.ports.no_duplicates() && b.ports.no_duplicates() && (forall|p: u16| #[trigger]
            a.ports.contains(p) ==> !b.ports.contains(p)) ==> objection(seq![a, b]) is None,
        a.ports.no_duplicates() && b.ports.no_duplicates() && (a.server_names.len() > 0
            || b.server_names.len() > 0) && (forall|n: Seq<char>| #[trigger]
            a.server_names.contains(n) ==> !b.server_names.contains(n)) ==> objection(
            seq![a, b],
        ) is None,
        !a.ports.no_duplicates() ==> objection(seq![a, b]) is Some,
{
    let servers = seq![a, b];
    law_servers_accepted(servers);
    assert(servers[0] == a && servers[1] == b);
    assert(ports_once(a) <==> a.ports.no_duplicates());
    assert(ports_once(b) <==> b.ports.no_duplicates());
    if a.server_names.contains(name) && b.server_names.contains(name) {
        assert(share_name(a, b));
    }
}

/// One more line in front of those of a location is said before them, and none says nothing.
pub proof fn law_location_lines(r: RouteView, line: Seq<char>, rest: Seq<Seq<char>>)
    requires
        !blank(line),
    ensures
        route_line(r, text::trim(line)) matches Ok(r2) ==> route_said(r, seq![line] + rest)
            == route_said(r2, rest),
        route_line(r, text::trim(line)) is Err ==> route_said(r, seq![line] + rest) is Err,
        route_said(r, Seq::empty()) == Ok::<RouteView, Seq<char>>(r),
{
    let all = seq![line] + rest;
    assert(all.drop_first() =~= rest);
    assert(all[0] == line);
}

/// One more directive in front of those of a server is said before them; one more location in front
/// of the others is read as its lines say and comes before them; and blank lines say nothing.
pub proof fn law_server_items(
    s: ServerView,
    line: Seq<char>,
    open: Seq<char>,
    path: Seq<char>,
    body: Seq<Seq<char>>,
    close: Seq<char>,
    rest: Seq<Item>,
)
    ensures
        server_line(s, text::trim(line)) matches Ok(s2) ==> server_said(
            s,
            seq![Item::Line(line)] + rest,
        ) == server_said(s2, rest),
        server_line(s, text::trim(line)) is Err ==> server_said(s, seq![Item::Line(line)] + rest)
            is Err,
        route_said(new_route(path), body) matches Ok(r) ==> server_said(
            s,
            seq![Item::Location { open, path, body, close }] + rest,
        ) == server_said(ServerView { routes: s.routes.push(r), ..s }, rest),
        route_said(new_route(path), body) is Err ==> server_said(
            s,
            seq![Item::Location { open, path, body, close }] + rest,
        ) is Err,
        server_said(s, seq![Item::Blank(line)] + rest) == server_said(s, rest),
        server_said(s, Seq::empty()) == Ok::<ServerView, Seq<char>>(s),
{
    let place = Item::Location { open, path, body, close };
    assert((seq![Item::Line(line)] + rest).drop_first() =~= rest);
    assert((seq![place] + rest).drop_first() =~= rest);
    assert((seq![Item::Blank(line)] + rest).drop_first() =~= rest);
    assert((seq![Item::Line(line)] + rest)[0] == Item::Line(line));
    assert((seq![place] + rest)[0] == place);
    assert((seq![Item::Blank(line)] + rest)[0] == Item::Blank(line));
}

/// The lines of a server are those of its parts, one after the other.
pub proof fn law_server_lines(
    line: Seq<char>,
    open: Seq<char>,
    path: Seq<char>,
    body: Seq<Seq<char>>,
    close: Seq<char>,
    rest: Seq<Item>,
)
    ensures
        items_lines(seq![Item::Line(line)] + rest) == seq![line] + items_lines(rest),
        items_lines(seq![Item::Blank(line)] + rest) == seq![line] + items_lines(rest),
        items_lines(seq![Item::Location { open, path, body, close }] + rest) == seq![open] + body
            + seq![close] + items_lines(rest),
        items_lines(Seq::empty()) == Seq::<Seq<char>>::empty(),
{
    let place = Item::Location { open, path, body, close };
    assert((seq![Item::Line(line)] + rest).drop_first() =~= rest);
    assert((seq![place] + rest).drop_first() =~= rest);
    assert((seq![Item::Blank(line)] + rest).drop_first() =~= rest);
    assert((seq![Item::Line(line)] + rest)[0] == Item::Line(line));
    assert((seq![place] + rest)[0] == place);
    assert((seq![Item::Blank(line)] + rest)[0] == Item::Blank(line));
}

/// A status that is no number is refused, be it that of a redirect or that of a page.
pub proof fn law_bad_codes(r: RouteView, s: ServerView, code: Seq<char>, value: Seq<char>)
    requires
        code.len() > 0,
        no_number(code),
        !code.contains(' '),
        code[0] != 'r' && code[0] != 'e',
        value.len() > 0,
        value.last() != ';',
    ensures
        route_line(r, "return "@ + code + seq![' '] + value + seq![';']) is Err,
        server_line(s, "error_page "@ + code + seq![' '] + value + seq![';']) is Err,
{
    reveal_strlit("return ");
    reveal_strlit("error_page ");
    reveal_strlit("allow_methods");
    reveal_strlit("host");
    reveal_strlit("listen");
    reveal_strlit("server_name");
    reveal_strlit("client_max_body_size");
    lemma_no_number(code, u16::MAX as nat);
    lemma_any_pair("return "@, code, value);
    lemma_any_pair("error_page "@, code, value);
    let redirect = "return "@ + code + seq![' '] + value + seq![';'];
    lemma_other_directive(redirect, "allow_methods"@, 0);
    let page = "error_page "@ + code + seq![' '] + value + seq![';'];
    lemma_other_directive(page, "host"@, 0);
    lemma_other_directive(page, "listen"@, 0);
    lemma_other_directive(page, "server_name"@, 0);
    lemma_other_directive(page, "client_max_body_size"@, 0);
}

/// What follows a keyword is cut at its first space.
proof fn lemma_any_pair(keyword: Seq<char>, code: Seq<char>, value: Seq<char>)
    requires
        keyword.len() > 0,
        code.len() > 0,
        code[0] != keyword[0],
        !code.contains(' '),
        value.len() > 0,
        value.last() != ';',
    ensures
        keyword_pair(keyword + code + seq![' '] + value + seq![';'], keyword) == Some(
            (code, value),
        ),
        keyword.is_prefix_of(keyword + code + seq![' '] + value + seq![';']),
{
    let line = keyword + code + seq![' '] + value + seq![';'];
    let rest = code + seq![' '] + value;
    assert(line =~= keyword + (rest + seq![';']));
    assert(line.take(keyword.len() as int) =~= keyword);
    assert(line.skip(keyword.len() as int) =~= rest + seq![';']);
    if keyword.is_prefix_of(rest + seq![';']) {
        assert((rest + seq![';']).take(keyword.len() as int)[0] == code[0]);
    }
    reveal_with_fuel(text::trim_start_text, 2);
    text::law_trim_end_char(rest, seq![';'], ';');
    let n = code.len() as int;
    assert forall|j: int| 0 <= j < n implies rest[j] != ' ' by {
        assert(code.contains(code[j]));
    }
    seqs::lemma_index_is(rest, ' ', 0, n);
    assert(rest.take(n) =~= code);
    assert(rest.skip(n + 1) =~= value);
}

/// What is said against two servers names the address and a port that both claim.
pub proof fn law_conflict_names_place(a: ServerView, b: ServerView)
    ensures
        conflict(a, b) matches Some(message) ==> exists|p: u16|
            a.ports.contains(p) && b.ports.contains(p) && seqs::find(
                message,
                a.host + seq![':'] + #[trigger] number::decimal(p as nat),
            ) is Some,
{
    if let Some(message) = conflict(a, b) {
        lemma_shared_port_listed(a.ports, b.ports, 0);
        let p = shared_port(a.ports, b.ports, 0)->0;
        reveal_strlit(":");
        assert(":"@ =~= seq![':']);
        let place = a.host + seq![':'] + number::decimal(p as nat);
        let before = "Conflicting configuration: "@;
        let behind =
            " is claimed by more than one server block with no distinguishing server_name"@;
        assert(message =~= before + place + behind);
        seqs::law_find(before, place, behind, message, 0);
    }
}

proof fn lemma_shared_port_listed(a: Seq<u16>, b: Seq<u16>, i: int)
    requires
        0 <= i,
    ensures
        shared_port(a, b, i) matches Some(p) ==> a.contains(p) && b.contains(p),
    decreases a.len() - i,
{
    if i < a.len() {
        assert(a.contains(a[i]));
        lemma_shared_port_listed(a, b, i + 1);
    }
}

/// What is said of a port that a server lists twice names the port and the address of the server.
pub proof fn law_repeated_port_named(s: ServerView, port: u16)
    ensures
        seqs::find(repeated_port_message(s, port), number::decimal(port as nat)) is Some,
        seqs::find(repeated_port_message(s, port), s.host) is Some,
{
    let all = repeated_port_message(s, port);
    let a = "Duplicate 'listen "@;
    let b = number::decimal(port as nat);
    let c = "' in the same server block ("@;
    assert(all =~= a + b + (c + s.host + ")"@));
    seqs::law_find(a, b, c + s.host + ")"@, all, 0);
    assert(all =~= (a + b + c) + s.host + ")"@);
    seqs::law_find(a + b + c, s.host, ")"@, all, 0);
}

} // verus!
