//! Choice of the server and of the location for a request.

use crate::config;
use crate::config::{RouteConfig, ServerConfig};
use crate::request::Request;
use crate::text;
use crate::wire;
use vstd::prelude::*;

verus! {

// ---------------------------------------------------------------------------
// Model
// ---------------------------------------------------------------------------

/// The host of a `Host` header: what precedes its first colon.
pub open spec fn host_name(header: Seq<char>) -> Seq<char> {
    match text::cut(header, ':') {
        Some((name, rest)) => name,
        None => header,
    }
}

/// The first server, from `i` on, that listens on `port` and has the name `name`.
pub open spec fn named_server(
    servers: Seq<config::ServerView>,
    name: Seq<char>,
    port: u16,
    i: int,
) -> Option<int>
    decreases servers.len() - i,
{
    if i < 0 || i >= servers.len() {
        None
    } else if servers[i].ports.contains(port) && servers[i].server_names.contains(name) {
        Some(i)
    } else {
        named_server(servers, name, port, i + 1)
    }
}

/// The first server, from `i` on, that listens on `port`.
pub open spec fn listening_server(
    servers: Seq<config::ServerView>,
    port: u16,
    i: int,
) -> Option<int>
    decreases servers.len() - i,
{
    if i < 0 || i >= servers.len() {
        None
    } else if servers[i].ports.contains(port) {
        Some(i)
    } else {
        listening_server(servers, port, i + 1)
    }
}

/// The server for a request with the given `Host` header that arrived on `port`: the first one
/// on that port with that name, else the first one on that port, else the first one.
pub open spec fn server_for(
    servers: Seq<config::ServerView>,
    header: Seq<char>,
    port: u16,
) -> int {
    match named_server(servers, host_name(header), port, 0) {
        Some(i) => i,
        None => match listening_server(servers, port, 0) {
            Some(i) => i,
            None => 0,
        },
    }
}

/// The location `path` covers `uri`: it is a prefix that ends where a path segment ends.
pub open spec fn covers(path: Seq<char>, uri: Seq<char>) -> bool {
    path.is_prefix_of(uri) && (uri.len() == path.len() || uri[path.len() as int] == '/' || path
        == "/"@)
}

/// Among the first `n` routes that cover `uri`, the last one of those with the longest path.
pub open spec fn best_route(
    routes: Seq<config::RouteView>,
    uri: Seq<char>,
    n: int,
) -> Option<int>
    decreases n,
{
    if n <= 0 || n > routes.len() {
        None
    } else {
        let best = best_route(routes, uri, n - 1);
        let path = routes[n - 1].path;
        if covers(path, uri) && (best matches Some(b) ==> routes[b].path.len() <= path.len()) {
            Some(n - 1)
        } else {
            best
        }
    }
}

/// The route for a request.
pub open spec fn route_for(server: config::ServerView, uri: Seq<char>) -> Option<int> {
    best_route(server.routes, uri, server.routes.len() as int)
}

// ---------------------------------------------------------------------------
// Routing
// ---------------------------------------------------------------------------

/// The route of a request and the server it belongs to.
pub struct RouteMatch<'a> {
    pub route: &'a RouteConfig,
    pub server: &'a ServerConfig,
}

/// The server for a request with the given `Host` header that arrived on `port`.
pub fn match_server<'a>(servers: &'a [ServerConfig], host_header: &str, port: u16) -> (r:
    &'a ServerConfig)
    requires
        servers@.len() > 0,
    ensures
        ({
            let i = server_for(config::server_views(servers@), host_header@, port);
            0 <= i < servers@.len() && *r == servers@[i]
        }),
{
    let ghost all = config::server_views(servers@);
    let header = text::chars_of(host_header);
    let name = match text::cut_at(header.as_slice(), ':') {
        Some((a, b)) => text::string_of(a),
        None => host_header.to_owned(),
    };
    let n: usize = servers.len();
    let mut i: usize = 0;
    while i < n
        invariant
            n == servers@.len(),
            i <= n,
            all == config::server_views(servers@),
            name@ == host_name(host_header@),
            named_server(all, name@, port, 0) == named_server(all, name@, port, i as int),
        decreases n - i,
    {
        assert(all[i as int] == servers@[i as int]@);
        if config::lists_port(&servers[i].ports, port) && config::lists_name(
            &servers[i].server_names,
            name.as_str(),
        ) {
            return &servers[i];
        }
        i = i + 1;
    }
    i = 0;
    while i < n
        invariant
            n == servers@.len(),
            i <= n,
            all == config::server_views(servers@),
            named_server(all, host_name(host_header@), port, 0) is None,
            listening_server(all, port, 0) == listening_server(all, port, i as int),
        decreases n - i,
    {
        assert(all[i as int] == servers@[i as int]@);
        if config::lists_port(&servers[i].ports, port) {
            return &servers[i];
        }
        i = i + 1;
    }
    &servers[0]
}

/// Whether the location `path` covers `uri`.
fn path_covers(path: &[char], uri: &[char]) -> (r: bool)
    ensures
        r == covers(path@, uri@),
{
    text::starts_with(uri, path) && (uri.len() == path.len() || uri[path.len()] == '/'
        || text::is_text(path, "/"))
}

/// The route of `server` for a request.
pub fn match_route<'a>(server: &'a ServerConfig, req: &Request) -> (r: Option<RouteMatch<'a>>)
    ensures
        match route_for(server@, req@.uri) {
            Some(i) => 0 <= i < server.routes@.len() && (r matches Some(m) && *m.route
                == server.routes@[i] && *m.server == *server),
            None => r is None,
        },
{
    let ghost routes = config::route_views(server.routes@);
    let uri = text::chars_of(req.uri.as_str());
    let mut best: Option<usize> = None;
    let mut best_len: usize = 0;
    let mut i: usize = 0;
    while i < server.routes.len()
        invariant
            i <= server.routes@.len(),
            routes == config::route_views(server.routes@),
            uri@ == req@.uri,
            match best {
                Some(b) => b < i && best_route(routes, uri@, i as int) == Some(b as int)
                    && routes[b as int].path.len() == best_len,
                None => best_route(routes, uri@, i as int) is None && best_len == 0,
            },
        decreases server.routes@.len() - i,
    {
        assert(routes[i as int] == server.routes@[i as int]@);
        let path = text::chars_of(server.routes[i].path.as_str());
        if path_covers(path.as_slice(), uri.as_slice()) && path.len() >= best_len {
            best_len = path.len();
            best = Some(i);
        }
        i = i + 1;
    }
    match best {
        Some(b) => Some(RouteMatch { route: &server.routes[b], server }),
        None => None,
    }
}

// ---------------------------------------------------------------------------
// Laws
// ---------------------------------------------------------------------------

/// Among the first `n` routes, the chosen one covers the request, is at least as long as every
/// other that does, and comes after those of the same length. There is none only if no route
/// covers the request.
proof fn lemma_best_route(routes: Seq<config::RouteView>, uri: Seq<char>, n: int)
    requires
        0 <= n <= routes.len(),
    ensures
        match best_route(routes, uri, n) {
            Some(i) => 0 <= i < n && covers(routes[i].path, uri) && forall|j: int|
                0 <= j < n && covers((#[trigger] routes[j]).path, uri) ==> routes[j].path.len()
                    < routes[i].path.len() || (routes[j].path.len() == routes[i].path.len() && j
                    <= i),
            None => forall|j: int| 0 <= j < n ==> !covers((#[trigger] routes[j]).path, uri),
        },
    decreases n,
{
    if n > 0 {
        lemma_best_route(routes, uri, n - 1);
    }
}

/// A request goes to the longest location that covers it, and of equals to the last. It goes
/// nowhere only if no location covers it.
pub proof fn law_longest_prefix(server: config::ServerView, uri: Seq<char>)
    ensures
        match route_for(server, uri) {
            Some(i) => 0 <= i < server.routes.len() && covers(server.routes[i].path, uri)
                && forall|j: int|
                0 <= j < server.routes.len() && covers((#[trigger] server.routes[j]).path, uri)
                    ==> server.routes[j].path.len() < server.routes[i].path.len() || (
                server.routes[j].path.len() == server.routes[i].path.len() && j <= i),
            None => forall|j: int|
                0 <= j < server.routes.len() ==> !covers((#[trigger] server.routes[j]).path, uri),
        },
{
    lemma_best_route(server.routes, uri, server.routes.len() as int);
}

/// A location never covers a request for a longer name of the same beginning: what follows the
/// path, if anything, starts a new segment, unless the location is `/`.
pub proof fn law_segment_boundary(path: Seq<char>, uri: Seq<char>)
    requires
        covers(path, uri),
        path != "/"@,
    ensures
        uri == path || uri[path.len() as int] == '/',
{
    if uri.len() == path.len() {
        assert(uri =~= path);
    }
}

proof fn lemma_named_server(
    servers: Seq<config::ServerView>,
    name: Seq<char>,
    port: u16,
    i: int,
)
    requires
        0 <= i,
    ensures
        match named_server(servers, name, port, i) {
            Some(k) => i <= k < servers.len() && servers[k].ports.contains(port)
                && servers[k].server_names.contains(name) && forall|j: int|
                i <= j < k ==> !((#[trigger] servers[j]).ports.contains(port)
                    && servers[j].server_names.contains(name)),
            None => forall|j: int|
                i <= j < servers.len() ==> !((#[trigger] servers[j]).ports.contains(port)
                    && servers[j].server_names.contains(name)),
        },
    decreases servers.len() - i,
{
    if i < servers.len() {
        lemma_named_server(servers, name, port, i + 1);
    }
}

proof fn lemma_listening_server(servers: Seq<config::ServerView>, port: u16, i: int)
    requires
        0 <= i,
    ensures
        match listening_server(servers, port, i) {
            Some(k) => i <= k < servers.len() && servers[k].ports.contains(port) && forall|j: int|
                i <= j < k ==> !(#[trigger] servers[j]).ports.contains(port),
            None => forall|j: int|
                i <= j < servers.len() ==> !(#[trigger] servers[j]).ports.contains(port),
        },
    decreases servers.len() - i,
{
    if i < servers.len() {
        lemma_listening_server(servers, port, i + 1);
    }
}

/// A request goes to the first server on its port that has the name in its `Host` header. If no
/// name matches, it goes to the first server on its port.
pub proof fn law_server_selection(
    servers: Seq<config::ServerView>,
    header: Seq<char>,
    port: u16,
    k: int,
)
    requires
        0 <= k < servers.len(),
        servers[k].ports.contains(port),
    ensures
        ({
            let chosen = server_for(servers, header, port);
            let name = host_name(header);
            &&& 0 <= chosen < servers.len()
            &&& servers[chosen].ports.contains(port)
            &&& servers[k].server_names.contains(name) ==> chosen <= k
                && servers[chosen].server_names.contains(name)
            &&& !servers[chosen].server_names.contains(name) ==> chosen <= k
        }),
{
    lemma_named_server(servers, host_name(header), port, 0);
    lemma_listening_server(servers, port, 0);
}

/// A location covers its own path and all that follows it behind a slash, and `/` covers every path.
/// It covers no path that goes on otherwise, nor one that does not start with it.
pub proof fn law_covered_paths(path: Seq<char>, rest: Seq<char>, c: char)
    ensures
        covers(path, path),
        covers(path, path + seq!['/'] + rest),
        covers(seq!['/'], seq!['/'] + rest),
        c != '/' && path != seq!['/'] ==> !covers(path, path + seq![c] + rest),
        !path.is_prefix_of(rest) ==> !covers(path, rest),
{
    reveal_strlit("/");
    assert("/"@ =~= seq!['/']);
    assert(path.take(path.len() as int) =~= path);
    assert((path + seq!['/'] + rest).take(path.len() as int) =~= path);
    assert((seq!['/'] + rest).take(1) =~= seq!['/']);
    assert((path + seq![c] + rest)[path.len() as int] == c);
}

/// A `Host` header names the server by what precedes the port, if it gives one.
pub proof fn law_host_without_port(name: Seq<char>, port: Seq<char>)
    requires
        !name.contains(':'),
    ensures
        host_name(name + seq![':'] + port) == name,
        host_name(name) == name,
{
    wire::lemma_cut(name, ':', port);
    wire::lemma_no_cut(name, ':');
}

/// Of servers on one port, the first with the name in the `Host` header is chosen, and without such
/// a name the first.
pub proof fn law_chosen_server(
    servers: Seq<config::ServerView>,
    header: Seq<char>,
    port: u16,
    k: int,
)
    requires
        0 <= k < servers.len(),
        servers[k].ports.contains(port),
    ensures
        servers[k].server_names.contains(host_name(header)) && (forall|j: int|
            0 <= j < k ==> !((#[trigger] servers[j]).ports.contains(port)
                && servers[j].server_names.contains(host_name(header)))) ==> server_for(
            servers,
            header,
            port,
        ) == k,
        (forall|j: int|
            0 <= j < servers.len() && (#[trigger] servers[j]).ports.contains(port)
                ==> !servers[j].server_names.contains(host_name(header))) && (forall|j: int|
            0 <= j < k ==> !(#[trigger] servers[j]).ports.contains(port)) ==> server_for(
            servers,
            header,
            port,
        ) == k,
{
    lemma_named_server(servers, host_name(header), port, 0);
    lemma_listening_server(servers, port, 0);
}

/// Of the locations that cover a path, the one that is longer than every other is chosen.
pub proof fn law_chosen_location(server: config::ServerView, uri: Seq<char>, k: int)
    requires
        0 <= k < server.routes.len(),
        covers(server.routes[k].path, uri),
        forall|j: int|
            0 <= j < server.routes.len() && j != k && covers((#[trigger] server.routes[j]).path, uri)
                ==> server.routes[j].path.len() < server.routes[k].path.len(),
    ensures
        route_for(server, uri) == Some(k),
{
    lemma_best_route(server.routes, uri, server.routes.len() as int);
}

} // verus!
