//! Requests and their answers: redirects, static files, uploads, deletions and scripts.
//!
//! What a request asks of the file system or of another process is a [`Step`]. The answer to it
//! goes back into the function that the step names, which gives the next step.

use crate::assoc;
use crate::cgi;
use crate::cgi::{CgiError, CgiProcess, CgiResponse};
use crate::clock;
use crate::config;
use crate::config::ServerConfig;
use crate::multipart;
use crate::number;
use crate::path;
use crate::request;
use crate::request::{Method, Request};
use crate::response;
use crate::response::Response;
use crate::router;
use crate::router::RouteMatch;
use crate::seqs;
use crate::session;
use crate::session::SessionStore;
use crate::text;
use vstd::prelude::*;
use vstd::utf8::*;

verus! {

broadcast use vstd::std_specs::hash::group_hash_axioms;

// ---------------------------------------------------------------------------
// Types
// ---------------------------------------------------------------------------

/// What a request comes to.
pub enum HandleOutcome {
    Response(Response),
    Cgi(CgiProcess),
}

/// What is to be done next for a request.
pub enum Step<'a> {
    /// Nothing: this is the outcome.
    Done(HandleOutcome),
    /// Read the page for an error; [`error_page_read`] takes its contents.
    ReadErrorPage { response: Response, path: String },
    /// Find out whether the path is a directory; see [`directory_probed`].
    ProbeDirectory { m: RouteMatch<'a>, path: String },
    /// Find out whether the default file of a directory exists; see [`index_probed`].
    ProbeIndex { m: RouteMatch<'a>, dir: String, index: String },
    /// Find out whether the file exists; see [`file_probed`].
    ProbeFile { m: RouteMatch<'a>, path: String },
    /// Read the file; [`serve_file`] takes its contents.
    ReadFile { m: RouteMatch<'a>, path: String },
    /// List the directory; [`serve_directory_listing`] takes the names.
    ListDirectory { m: RouteMatch<'a>, path: String },
    /// Find out whether the file to delete exists; see [`removal_probed`].
    ProbeRemoval { m: RouteMatch<'a>, path: String },
    /// Delete the file; see [`file_removed`].
    RemoveFile { m: RouteMatch<'a>, path: String },
    /// Save the files of the body; see [`uploads_saved`].
    SaveUploads { m: RouteMatch<'a>, dir: String, boundary: String },
    /// Find out whether the script exists; see [`script_probed`].
    ProbeScript { m: RouteMatch<'a>, script: String, binary: &'static str },
    /// Start the script; see [`cgi_spawned`].
    Spawn { m: RouteMatch<'a>, script: String, binary: &'static str },
}

// ---------------------------------------------------------------------------
// Model
// ---------------------------------------------------------------------------

/// The route of a request and the server it belongs to.
pub struct MatchView {
    pub route: config::RouteView,
    pub server: config::ServerView,
}

/// What is to be done next for a request.
pub enum StepView {
    Respond(response::ResponseView),
    Cgi(CgiProcess),
    ReadErrorPage { response: response::ResponseView, path: Seq<char> },
    ProbeDirectory { m: MatchView, path: Seq<char> },
    ProbeIndex { m: MatchView, dir: Seq<char>, index: Seq<char> },
    ProbeFile { m: MatchView, path: Seq<char> },
    ReadFile { m: MatchView, path: Seq<char> },
    ListDirectory { m: MatchView, path: Seq<char> },
    ProbeRemoval { m: MatchView, path: Seq<char> },
    RemoveFile { m: MatchView, path: Seq<char> },
    SaveUploads { m: MatchView, dir: Seq<char>, boundary: Seq<char> },
    ProbeScript { m: MatchView, script: Seq<char>, binary: Seq<char> },
    Spawn { m: MatchView, script: Seq<char>, binary: Seq<char> },
}

/// The route of a request and the server it belongs to.
pub open spec fn match_view(m: RouteMatch) -> MatchView {
    MatchView { route: m.route@, server: m.server@ }
}

impl<'a> View for Step<'a> {
    type V = StepView;

    open spec fn view(&self) -> StepView {
        match *self {
            Step::Done(HandleOutcome::Response(r)) => StepView::Respond(r@),
            Step::Done(HandleOutcome::Cgi(p)) => StepView::Cgi(p),
            Step::ReadErrorPage { response, path } => StepView::ReadErrorPage {
                response: response@,
                path: path@,
            },
            Step::ProbeDirectory { m, path } => StepView::ProbeDirectory {
                m: match_view(m),
                path: path@,
            },
            Step::ProbeIndex { m, dir, index } => StepView::ProbeIndex {
                m: match_view(m),
                dir: dir@,
                index: index@,
            },
            Step::ProbeFile { m, path } => StepView::ProbeFile { m: match_view(m), path: path@ },
            Step::ReadFile { m, path } => StepView::ReadFile { m: match_view(m), path: path@ },
            Step::ListDirectory { m, path } => StepView::ListDirectory {
                m: match_view(m),
                path: path@,
            },
            Step::ProbeRemoval { m, path } => StepView::ProbeRemoval {
                m: match_view(m),
                path: path@,
            },
            Step::RemoveFile { m, path } => StepView::RemoveFile { m: match_view(m), path: path@ },
            Step::SaveUploads { m, dir, boundary } => StepView::SaveUploads {
                m: match_view(m),
                dir: dir@,
                boundary: boundary@,
            },
            Step::ProbeScript { m, script, binary } => StepView::ProbeScript {
                m: match_view(m),
                script: script@,
                binary: binary@,
            },
            Step::Spawn { m, script, binary } => StepView::Spawn {
                m: match_view(m),
                script: script@,
                binary: binary@,
            },
        }
    }
}

/// Steps that are at most still to come, the outcome included.
pub open spec fn steps_left(s: StepView) -> nat {
    match s {
        StepView::Respond(r) => 0,
        StepView::Cgi(p) => 0,
        StepView::ReadErrorPage { response, path } => 1,
        StepView::ReadFile { m, path } => 2,
        StepView::ListDirectory { m, path } => 2,
        StepView::RemoveFile { m, path } => 2,
        StepView::SaveUploads { m, dir, boundary } => 2,
        StepView::Spawn { m, script, binary } => 2,
        StepView::ProbeFile { m, path } => 3,
        StepView::ProbeRemoval { m, path } => 3,
        StepView::ProbeScript { m, script, binary } => 3,
        StepView::ProbeIndex { m, dir, index } => 4,
        StepView::ProbeDirectory { m, path } => 5,
    }
}

/// A response with a page for its status as its body: the given page or the standard one.
pub open spec fn with_page(
    r: response::ResponseView,
    page: Option<Seq<u8>>,
) -> response::ResponseView {
    let body = match page {
        Some(p) => p,
        None => encode_utf8(response::error_page(r.status)),
    };
    response::body_set(r, body, response::html_type())
}

/// The step towards a page for the status of a response: the page that the server configures for
/// it is read first.
pub open spec fn page_step(server: config::ServerView, r: response::ResponseView) -> StepView {
    if server.error_pages.contains_key(r.status) {
        StepView::ReadErrorPage { response: r, path: server.error_pages[r.status] }
    } else {
        StepView::Respond(with_page(r, None))
    }
}

/// The step towards an error response.
pub open spec fn error_step(server: config::ServerView, code: u16) -> StepView {
    page_step(server, response::empty_response(code))
}

/// The route takes requests of this method.
pub open spec fn takes_method(route: config::RouteView, method: request::MethodView) -> bool {
    exists|i: int|
        0 <= i < route.allowed_methods.len() && text::same_ignoring_ascii_case(
            #[trigger] route.allowed_methods[i],
            request::method_name(method),
        )
}

/// The response that refuses a method and names those that the route takes.
pub open spec fn refused_method(route: config::RouteView) -> response::ResponseView {
    response::header_set(
        response::empty_response(405),
        "Allow"@,
        text::joined(route.allowed_methods, ", "@),
    )
}

/// Where the target of a request stands in the file system: the root of the route, and behind it
/// what the request adds to the path of the route.
pub open spec fn target_path(route_path: Seq<char>, root: Seq<char>, uri: Seq<char>) -> Seq<char> {
    let suffix = match text::after_prefix(uri, route_path) {
        Some(rest) => rest,
        None => Seq::empty(),
    };
    path::joined(root, text::trim_start_char(suffix, '/'))
}

/// The program that runs scripts of an extension.
pub open spec fn interpreter(extension: Seq<char>) -> Option<Seq<char>> {
    let ext = text::trim_start_char(extension, '.');
    if ext == "py"@ || ext == "py3"@ {
        Some("/usr/bin/python3"@)
    } else if ext == "php"@ {
        Some("/usr/bin/php"@)
    } else if ext == "sh"@ {
        Some("/bin/sh"@)
    } else {
        None
    }
}

/// The step for a request that runs a script.
pub open spec fn script_step(m: MatchView, script: Seq<char>, extension: Seq<char>) -> StepView {
    match interpreter(extension) {
        Some(binary) => StepView::ProbeScript { m, script, binary },
        None => error_step(m.server, 500),
    }
}

/// The step for a request that uploads files to `dir`.
pub open spec fn upload_step(m: MatchView, req: request::RequestView, dir: Seq<char>) -> StepView {
    let content_type = cgi::field_or_empty(req.headers, "content-type"@);
    if seqs::find(content_type, "multipart/form-data"@) is Some {
        match multipart::boundary(content_type) {
            Some(boundary) => StepView::SaveUploads { m, dir, boundary },
            None => error_step(m.server, 400),
        }
    } else {
        error_step(m.server, 400)
    }
}

/// The step for a posted request: its files are saved if the route says where, else it is
/// acknowledged.
pub open spec fn post_step(m: MatchView, req: request::RequestView) -> StepView {
    match m.route.upload_dir {
        Some(dir) => upload_step(m, req, dir),
        None => StepView::Respond(
            response::body_set(response::empty_response(200), encode_utf8("OK"@), "text/plain"@),
        ),
    }
}

/// The step for a request for the file or the directory `target`.
pub open spec fn get_step(m: MatchView, target: Seq<char>) -> StepView {
    StepView::ProbeDirectory { m, path: target }
}

/// The step for a request that deletes the file `target`.
pub open spec fn delete_step(m: MatchView, target: Seq<char>) -> StepView {
    StepView::ProbeRemoval { m, path: target }
}

/// The step for a request of an allowed method whose target in the file system is `target`.
pub open spec fn target_step(
    m: MatchView,
    req: request::RequestView,
    target: Seq<char>,
) -> StepView {
    if m.route.cgi_extension is Some && m.route.cgi_extension->Some_0.is_suffix_of(req.uri) {
        script_step(m, target, m.route.cgi_extension->Some_0)
    } else {
        match req.method {
            request::MethodView::Get => get_step(m, target),
            request::MethodView::Post => post_step(m, req),
            request::MethodView::Delete => delete_step(m, target),
            request::MethodView::Other(name) => StepView::Respond(
                with_page(response::empty_response(501), None),
            ),
        }
    }
}

/// The first step for a request on its route. A redirect comes before everything else, then the
/// check of the method. A route without a root takes nothing but uploads.
pub open spec fn route_step(m: MatchView, req: request::RequestView) -> StepView {
    match m.route.redirect {
        Some((code, location)) => StepView::Respond(response::redirection(code, location)),
        None => if !takes_method(m.route, req.method) {
            page_step(m.server, refused_method(m.route))
        } else {
            match m.route.root {
                Some(root) => target_step(m, req, target_path(m.route.path, root, req.uri)),
                None => if req.method is Post && m.route.upload_dir is Some {
                    upload_step(m, req, m.route.upload_dir->Some_0)
                } else {
                    error_step(m.server, 500)
                },
            }
        },
    }
}

/// The first step for a request that arrived on `port`.
pub open spec fn first_step(
    req: request::RequestView,
    servers: Seq<config::ServerView>,
    port: u16,
) -> StepView {
    let host = cgi::field_or_empty(req.headers, "host"@);
    let server = servers[router::server_for(servers, host, port)];
    match router::route_for(server, req.uri) {
        Some(i) => route_step(MatchView { route: server.routes[i], server }, req),
        None => error_step(server, 404),
    }
}

/// The step for a directory without a default file.
pub open spec fn bare_directory_step(m: MatchView, dir: Seq<char>) -> StepView {
    if m.route.directory_listing {
        StepView::ListDirectory { m, path: dir }
    } else {
        error_step(m.server, 403)
    }
}

/// The step after it was found out whether a path is a directory: its default file, if the route
/// names one, is looked for.
pub open spec fn after_directory_probe(m: MatchView, path: Seq<char>, is_dir: bool) -> StepView {
    if is_dir {
        match m.route.default_file {
            Some(name) => StepView::ProbeIndex { m, dir: path, index: path::joined(path, name) },
            None => bare_directory_step(m, path),
        }
    } else {
        StepView::ProbeFile { m, path }
    }
}

/// The step after the default file of a directory was looked for.
pub open spec fn after_index_probe(
    m: MatchView,
    dir: Seq<char>,
    index: Seq<char>,
    found: bool,
) -> StepView {
    if found {
        StepView::ProbeFile { m, path: index }
    } else {
        bare_directory_step(m, dir)
    }
}

/// The step after a file was looked for.
pub open spec fn after_file_probe(m: MatchView, path: Seq<char>, found: bool) -> StepView {
    if found {
        StepView::ReadFile { m, path }
    } else {
        error_step(m.server, 404)
    }
}

/// The step after the file to delete was looked for.
pub open spec fn after_removal_probe(m: MatchView, path: Seq<char>, found: bool) -> StepView {
    if found {
        StepView::RemoveFile { m, path }
    } else {
        error_step(m.server, 404)
    }
}

/// The step after a file was deleted, or could not be.
pub open spec fn after_removal(m: MatchView, removed: bool) -> StepView {
    if removed {
        StepView::Respond(response::empty_response(204))
    } else {
        error_step(m.server, 403)
    }
}

/// The step after a script was looked for.
pub open spec fn after_script_probe(
    m: MatchView,
    script: Seq<char>,
    binary: Seq<char>,
    found: bool,
) -> StepView {
    if found {
        StepView::Spawn { m, script, binary }
    } else {
        error_step(m.server, 404)
    }
}

/// The step after a script was started, or could not be.
pub open spec fn after_spawn(m: MatchView, spawned: Result<CgiProcess, CgiError>) -> StepView {
    match spawned {
        Ok(process) => StepView::Cgi(process),
        Err(e) => error_step(m.server, 500),
    }
}

/// The step after a directory was listed, or could not be.
pub open spec fn after_listing(
    m: MatchView,
    uri: Seq<char>,
    names: Option<Seq<Seq<char>>>,
) -> StepView {
    match names {
        Some(v) => StepView::Respond(
            response::body_set(
                response::empty_response(200),
                encode_utf8(listing_page(uri, v)),
                response::html_type(),
            ),
        ),
        None => error_step(m.server, 500),
    }
}

/// The step after the files of an upload were saved, or one of them could not be.
pub open spec fn after_saving(m: MatchView, names: Option<Seq<Seq<char>>>) -> StepView {
    match names {
        Some(v) => StepView::Respond(uploaded_response(v)),
        None => error_step(m.server, 500),
    }
}

/// The step after a file was read in the second `now`, or could not be.
pub open spec fn after_reading(
    m: MatchView,
    path: Seq<char>,
    contents: Option<Seq<u8>>,
    req: request::RequestView,
    sessions: Map<Seq<char>, session::SessionView>,
    now: u64,
) -> StepView {
    match contents {
        Some(body) => StepView::Respond(file_response(path, body, req, sessions, now)),
        None => error_step(m.server, 500),
    }
}

/// The texts of optional strings.
pub open spec fn opt_views(names: Option<Vec<String>>) -> Option<Seq<Seq<char>>> {
    match names {
        Some(v) => Some(text::views(v@)),
        None => None,
    }
}

/// The bytes of optional contents.
pub open spec fn opt_bytes(contents: Option<Vec<u8>>) -> Option<Seq<u8>> {
    match contents {
        Some(v) => Some(v@),
        None => None,
    }
}

/// The type of the contents of a file, by its extension.
pub open spec fn media_type(file: Seq<char>) -> Seq<char> {
    match path::extension(file) {
        None => "application/octet-stream"@,
        Some(e) => if e == "html"@ || e == "htm"@ {
            "text/html; charset=utf-8"@
        } else if e == "css"@ {
            "text/css"@
        } else if e == "js"@ {
            "application/javascript"@
        } else if e == "json"@ {
            "application/json"@
        } else if e == "png"@ {
            "image/png"@
        } else if e == "jpg"@ || e == "jpeg"@ {
            "image/jpeg"@
        } else if e == "gif"@ {
            "image/gif"@
        } else if e == "svg"@ {
            "image/svg+xml"@
        } else if e == "ico"@ {
            "image/x-icon"@
        } else if e == "txt"@ {
            "text/plain; charset=utf-8"@
        } else if e == "pdf"@ {
            "application/pdf"@
        } else {
            "application/octet-stream"@
        },
    }
}

/// The session that a request names.
pub open spec fn request_session(req: request::RequestView) -> Option<Seq<char>> {
    if req.headers.contains_key("cookie"@) {
        session::cookie_session(req.headers["cookie"@])
    } else {
        None
    }
}

/// The request names a session that is not over at `now`.
pub open spec fn in_session(
    req: request::RequestView,
    sessions: Map<Seq<char>, session::SessionView>,
    now: u64,
) -> bool {
    request_session(req) matches Some(id) && session::is_live(sessions, id, now)
}

/// The sessions after a file was served: that of the request was used, or a new one has started.
pub open spec fn sessions_after(
    req: request::RequestView,
    sessions: Map<Seq<char>, session::SessionView>,
    now: u64,
) -> Map<Seq<char>, session::SessionView> {
    let used = match request_session(req) {
        Some(id) => session::after_access(sessions, id, now),
        None => sessions,
    };
    if in_session(req, sessions, now) {
        used
    } else {
        used.insert(session::session_id(now), session::fresh_session(now))
    }
}

/// The cookie that names a session.
pub open spec fn session_cookie(id: Seq<char>) -> Seq<char> {
    "session_id="@ + id + "; HttpOnly; Path=/"@
}

/// The response with the contents of a file. A client without a session is told the name of the
/// one that starts.
pub open spec fn file_response(
    file: Seq<char>,
    contents: Seq<u8>,
    req: request::RequestView,
    sessions: Map<Seq<char>, session::SessionView>,
    now: u64,
) -> response::ResponseView {
    let plain = response::body_set(response::empty_response(200), contents, media_type(file));
    if in_session(req, sessions, now) {
        plain
    } else {
        response::header_set(plain, "Set-Cookie"@, session_cookie(session::session_id(now)))
    }
}

/// The line of a directory listing for one name.
pub open spec fn listing_line(uri: Seq<char>, name: Seq<char>) -> Seq<char> {
    let base = if uri.len() > 0 && uri.last() == '/' {
        uri
    } else {
        uri + "/"@
    };
    "<li><a href=\""@ + base + name + "\">"@ + name + "</a></li>\n"@
}

/// The lines of a directory listing.
pub open spec fn listing_lines(uri: Seq<char>, names: Seq<Seq<char>>) -> Seq<char>
    decreases names.len(),
{
    if names.len() == 0 {
        Seq::empty()
    } else {
        listing_lines(uri, names.drop_last()) + listing_line(uri, names.last())
    }
}

/// The page that lists a directory.
pub open spec fn listing_page(uri: Seq<char>, names: Seq<Seq<char>>) -> Seq<char> {
    "<!DOCTYPE html><html><head><title>Index of "@ + uri
        + "</title></head><body><h1>Index of "@ + uri + "</h1><ul>"@ + listing_lines(uri, names)
        + "</ul></body></html>"@
}

/// The response that names the files that were saved.
pub open spec fn uploaded_response(names: Seq<Seq<char>>) -> response::ResponseView {
    response::body_set(
        response::empty_response(201),
        encode_utf8("Uploaded: "@ + text::joined(names, ", "@)),
        "text/plain"@,
    )
}

/// The response with the first `n` header fields of a script set.
pub open spec fn script_fields(
    r: response::ResponseView,
    headers: Seq<(Seq<char>, Seq<char>)>,
    n: int,
) -> response::ResponseView
    decreases n,
{
    if n <= 0 || n > headers.len() {
        r
    } else {
        response::header_set(
            script_fields(r, headers, n - 1),
            headers[n - 1].0,
            headers[n - 1].1,
        )
    }
}

/// The content type that a script gives in the first such field from `i` on.
pub open spec fn script_type(headers: Seq<(Seq<char>, Seq<char>)>, i: int) -> Seq<char>
    decreases headers.len() - i,
{
    if i < 0 || i >= headers.len() {
        "text/html"@
    } else if text::lowercase(headers[i].0) == "content-type"@ {
        headers[i].1
    } else {
        script_type(headers, i + 1)
    }
}

/// The response that a script gave, as the server sends it.
pub open spec fn script_response(c: cgi::CgiResponseView) -> response::ResponseView {
    response::body_set(
        script_fields(response::empty_response(c.status), c.headers, c.headers.len() as int),
        c.body,
        script_type(c.headers, 0),
    )
}

// ---------------------------------------------------------------------------
// Errors
// ---------------------------------------------------------------------------

/// A response with a page for its status as its body.
fn page_response(response: Response, page: Option<Vec<u8>>) -> (r: Response)
    ensures
        r@ == with_page(response@, opt_bytes(page)),
{
    let body = match page {
        Some(p) => p,
        None => {
            let text = response::default_error_page(response.status);
            response::encoded(text.as_str())
        },
    };
    response.with_body(body, "text/html; charset=utf-8")
}

/// The step towards a page for the status of a response.
fn serve_page<'a>(response: Response, server: &ServerConfig) -> (r: Step<'a>)
    ensures
        r@ == page_step(server@, response@),
{
    match server.error_pages.get(&response.status) {
        Some(path) => Step::ReadErrorPage { response, path: path.clone() },
        None => Step::Done(HandleOutcome::Response(page_response(response, None))),
    }
}

/// The step towards an error response.
pub fn serve_error<'a>(code: u16, server: &ServerConfig) -> (r: Step<'a>)
    ensures
        r@ == error_step(server@, code),
{
    serve_page(Response::new(code), server)
}

/// The step after the page for an error was read; without contents the standard page is sent.
pub fn error_page_read<'a>(response: Response, contents: Option<Vec<u8>>) -> (r: Step<'a>)
    ensures
        r@ == StepView::Respond(with_page(response@, opt_bytes(contents))),
{
    Step::Done(HandleOutcome::Response(page_response(response, contents)))
}

// ---------------------------------------------------------------------------
// Dispatch
// ---------------------------------------------------------------------------

/// The value of a header field of a request, or nothing.
fn field<'a>(req: &'a Request, name: &str) -> (r: &'a str)
    ensures
        r@ == cgi::field_or_empty(req@.headers, name@),
{
    proof {
        reveal_strlit("");
        assert(""@ =~= Seq::<char>::empty());
    }
    match req.headers.get(name) {
        Some(s) => s.as_str(),
        None => "",
    }
}

/// The first step for a request that arrived on `port`.
pub fn handle<'a>(req: &Request, servers: &'a [ServerConfig], port: u16) -> (r: Step<'a>)
    requires
        servers@.len() > 0,
    ensures
        r@ == first_step(req@, config::server_views(servers@), port),
{
    let ghost all = config::server_views(servers@);
    let host = field(req, "host");
    let server = router::match_server(servers, host, port);
    assert(server@ == all[router::server_for(all, host@, port)]);
    match router::match_route(server, req) {
        Some(m) => {
            assert(m.route@ == server@.routes[router::route_for(server@, req@.uri)->Some_0]);
            dispatch(req, m)
        },
        None => serve_error(404, server),
    }
}

/// Whether the route takes requests of this method.
fn allows(methods: &Vec<String>, method: &str) -> (r: bool)
    ensures
        r == exists|i: int|
            0 <= i < methods@.len() && text::same_ignoring_ascii_case(
                #[trigger] text::views(methods@)[i],
                method@,
            ),
{
    let mut i: usize = 0;
    while i < methods.len()
        invariant
            i <= methods@.len(),
            forall|j: int|
                0 <= j < i ==> !text::same_ignoring_ascii_case(
                    #[trigger] text::views(methods@)[j],
                    method@,
                ),
        decreases methods@.len() - i,
    {
        assert(text::views(methods@)[i as int] == methods@[i as int]@);
        if text::eq_ignore_ascii_case(methods[i].as_str(), method) {
            return true;
        }
        i = i + 1;
    }
    false
}

/// Where the target of a request stands in the file system.
fn resolve(route_path: &str, root: &str, uri: &str) -> (r: String)
    ensures
        r@ == target_path(route_path@, root@, uri@),
{
    let chars = text::chars_of(uri);
    let suffix = match text::strip_prefix(chars.as_slice(), route_path) {
        Some(rest) => text::string_of(text::trimmed_start_char(rest, '/')),
        None => String::new(),
    };
    path::join_path(root, suffix.as_str())
}

/// The first step for a request on its route.
pub fn dispatch<'a>(req: &Request, m: RouteMatch<'a>) -> (r: Step<'a>)
    ensures
        r@ == route_step(match_view(m), req@),
{
    let route = m.route;
    if let Some((code, location)) = &route.redirect {
        let resp = Response::redirect(*code, location.as_str());
        return Step::Done(HandleOutcome::Response(resp));
    }
    if !allows(&route.allowed_methods, req.method.as_str()) {
        let allowed = text::join(&route.allowed_methods, ", ");
        let resp = Response::new(405).with_header("Allow", allowed.as_str());
        return serve_page(resp, m.server);
    }
    let root = match &route.root {
        Some(root) => root,
        None => {
            if let Method::Post = req.method {
                if let Some(upload_dir) = &route.upload_dir {
                    return handle_upload(req, upload_dir.as_str(), m);
                }
            }
            return serve_error(500, m.server);
        },
    };
    let fs_path = resolve(route.path.as_str(), root.as_str(), req.uri.as_str());
    if let Some(ext) = &route.cgi_extension {
        let uri = text::chars_of(req.uri.as_str());
        let ending = text::chars_of(ext.as_str());
        if text::ends_with(uri.as_slice(), ending.as_slice()) {
            return run_cgi_handler(fs_path, ext.as_str(), m);
        }
    }
    match req.method {
        Method::Get => handle_get(fs_path, m),
        Method::Post => handle_post(req, m),
        Method::Delete => handle_delete(fs_path, m),
        Method::Other(_) => {
            let resp = page_response(Response::new(501), None);
            Step::Done(HandleOutcome::Response(resp))
        },
    }
}

// ---------------------------------------------------------------------------
// Files
// ---------------------------------------------------------------------------

/// The first step for a request for a file or a directory.
pub fn handle_get<'a>(fs_path: String, m: RouteMatch<'a>) -> (r: Step<'a>)
    ensures
        r@ == get_step(match_view(m), fs_path@),
{
    Step::ProbeDirectory { m, path: fs_path }
}

/// The step for a directory without a default file.
fn bare_directory<'a>(dir: String, m: RouteMatch<'a>) -> (r: Step<'a>)
    ensures
        r@ == bare_directory_step(match_view(m), dir@),
{
    if m.route.directory_listing {
        Step::ListDirectory { m, path: dir }
    } else {
        serve_error(403, m.server)
    }
}

/// The step after it was found out whether the path of a request is a directory.
pub fn directory_probed<'a>(path: String, is_dir: bool, m: RouteMatch<'a>) -> (r: Step<'a>)
    ensures
        r@ == after_directory_probe(match_view(m), path@, is_dir),
{
    if is_dir {
        match &m.route.default_file {
            Some(index) => {
                let index = path::join_path(path.as_str(), index.as_str());
                Step::ProbeIndex { m, dir: path, index }
            },
            None => bare_directory(path, m),
        }
    } else {
        Step::ProbeFile { m, path }
    }
}

/// The step after it was found out whether the default file of a directory exists.
pub fn index_probed<'a>(dir: String, index: String, found: bool, m: RouteMatch<'a>) -> (r:
    Step<'a>)
    ensures
        r@ == after_index_probe(match_view(m), dir@, index@, found),
{
    if found {
        Step::ProbeFile { m, path: index }
    } else {
        bare_directory(dir, m)
    }
}

/// The step after it was found out whether a file exists.
pub fn file_probed<'a>(path: String, found: bool, m: RouteMatch<'a>) -> (r: Step<'a>)
    ensures
        r@ == after_file_probe(match_view(m), path@, found),
{
    if found {
        Step::ReadFile { m, path }
    } else {
        serve_error(404, m.server)
    }
}

/// The type of the contents of a file, by its extension.
pub fn mime_type(path: &str) -> (r: &'static str)
    ensures
        r@ == media_type(path@),
{
    let extension = match path::path_extension(path) {
        Some(e) => e,
        None => {
            return "application/octet-stream";
        },
    };
    let e = extension.as_str();
    if text::same_text(e, "html") || text::same_text(e, "htm") {
        "text/html; charset=utf-8"
    } else if text::same_text(e, "css") {
        "text/css"
    } else if text::same_text(e, "js") {
        "application/javascript"
    } else if text::same_text(e, "json") {
        "application/json"
    } else if text::same_text(e, "png") {
        "image/png"
    } else if text::same_text(e, "jpg") || text::same_text(e, "jpeg") {
        "image/jpeg"
    } else if text::same_text(e, "gif") {
        "image/gif"
    } else if text::same_text(e, "svg") {
        "image/svg+xml"
    } else if text::same_text(e, "ico") {
        "image/x-icon"
    } else if text::same_text(e, "txt") {
        "text/plain; charset=utf-8"
    } else if text::same_text(e, "pdf") {
        "application/pdf"
    } else {
        "application/octet-stream"
    }
}

/// The step after a file was read in the second `now`; without contents it could not be.
pub fn serve_file_at<'a>(
    path: &str,
    contents: Option<Vec<u8>>,
    sessions: &mut SessionStore,
    req: &Request,
    m: RouteMatch<'a>,
    now: u64,
) -> (r: Step<'a>)
    ensures
        r@ == after_reading(
            match_view(m),
            path@,
            opt_bytes(contents),
            req@,
            old(sessions)@,
            now,
        ),
        final(sessions)@ == if contents is Some {
            sessions_after(req@, old(sessions)@, now)
        } else {
            old(sessions)@
        },
{
    let body = match contents {
        Some(body) => body,
        None => {
            return serve_error(500, m.server);
        },
    };
    let resp = Response::new(200).with_body(body, mime_type(path));
    let named = match req.headers.get("cookie") {
        Some(cookie) => session::parse_session_id(cookie.as_str()),
        None => None,
    };
    let live = match &named {
        Some(id) => sessions.get_at(id.as_str(), now).is_some(),
        None => false,
    };
    if live {
        return Step::Done(HandleOutcome::Response(resp));
    }
    let id = sessions.create_session_at(now);
    let mut cookie = "session_id=".to_owned();
    cookie.append(id.as_str());
    cookie.append("; HttpOnly; Path=/");
    Step::Done(HandleOutcome::Response(resp.with_header("Set-Cookie", cookie.as_str())))
}

/// The step after a file was read; without contents it could not be.
pub fn serve_file<'a>(
    path: &str,
    contents: Option<Vec<u8>>,
    sessions: &mut SessionStore,
    req: &Request,
    m: RouteMatch<'a>,
) -> (r: Step<'a>)
    ensures
        exists|now: u64|
            {
                &&& r@ == #[trigger] after_reading(
                    match_view(m),
                    path@,
                    opt_bytes(contents),
                    req@,
                    old(sessions)@,
                    now,
                )
                &&& final(sessions)@ == if contents is Some {
                    sessions_after(req@, old(sessions)@, now)
                } else {
                    old(sessions)@
                }
            },
{
    let now: u64 = clock::now_secs();
    serve_file_at(path, contents, sessions, req, m, now)
}

/// The step after a directory was listed; without names it could not be.
pub fn serve_directory_listing<'a>(
    names: Option<Vec<String>>,
    req: &Request,
    m: RouteMatch<'a>,
) -> (r: Step<'a>)
    ensures
        r@ == after_listing(match_view(m), req@.uri, opt_views(names)),
{
    let names = match names {
        Some(v) => v,
        None => {
            return serve_error(500, m.server);
        },
    };
    let uri = req.uri.as_str();
    let chars = text::chars_of(uri);
    let slashed = chars.len() > 0 && chars[chars.len() - 1] == '/';
    let ghost all = text::views(names@);
    let mut items = String::new();
    let mut i: usize = 0;
    assert(all.take(0) =~= Seq::empty());
    while i < names.len()
        invariant
            i <= names@.len(),
            all == text::views(names@),
            uri@ == req@.uri,
            slashed == (uri@.len() > 0 && uri@.last() == '/'),
            items@ == listing_lines(uri@, all.take(i as int)),
        decreases names@.len() - i,
    {
        let name = names[i].as_str();
        let ghost before = items@;
        items.append("<li><a href=\"");
        items.append(uri);
        if !slashed {
            items.append("/");
        }
        items.append(name);
        items.append("\">");
        items.append(name);
        items.append("</a></li>\n");
        proof {
            assert(all[i as int] == name@);
            assert(all.take(i + 1).drop_last() =~= all.take(i as int));
            assert(items@ =~= before + listing_line(uri@, name@));
        }
        i = i + 1;
    }
    assert(all.take(names@.len() as int) =~= all);
    let mut html = "<!DOCTYPE html><html><head><title>Index of ".to_owned();
    html.append(uri);
    html.append("</title></head><body><h1>Index of ");
    html.append(uri);
    html.append("</h1><ul>");
    html.append(items.as_str());
    html.append("</ul></body></html>");
    assert(html@ =~= listing_page(uri@, all));
    let body = response::encoded(html.as_str());
    let resp = Response::new(200).with_body(body, "text/html; charset=utf-8");
    Step::Done(HandleOutcome::Response(resp))
}

// ---------------------------------------------------------------------------
// Deletions and uploads
// ---------------------------------------------------------------------------

/// The first step for a request that deletes a file.
pub fn handle_delete<'a>(fs_path: String, m: RouteMatch<'a>) -> (r: Step<'a>)
    ensures
        r@ == delete_step(match_view(m), fs_path@),
{
    Step::ProbeRemoval { m, path: fs_path }
}

/// The step after it was found out whether the file to delete exists.
pub fn removal_probed<'a>(path: String, found: bool, m: RouteMatch<'a>) -> (r: Step<'a>)
    ensures
        r@ == after_removal_probe(match_view(m), path@, found),
{
    if found {
        Step::RemoveFile { m, path }
    } else {
        serve_error(404, m.server)
    }
}

/// The step after a file was deleted, or could not be.
pub fn file_removed<'a>(removed: bool, m: RouteMatch<'a>) -> (r: Step<'a>)
    ensures
        r@ == after_removal(match_view(m), removed),
{
    if removed {
        Step::Done(HandleOutcome::Response(Response::new(204)))
    } else {
        serve_error(403, m.server)
    }
}

/// The first step for a posted request.
pub fn handle_post<'a>(req: &Request, m: RouteMatch<'a>) -> (r: Step<'a>)
    ensures
        r@ == post_step(match_view(m), req@),
{
    if let Some(upload_dir) = &m.route.upload_dir {
        return handle_upload(req, upload_dir.as_str(), m);
    }
    let body = response::encoded("OK");
    Step::Done(HandleOutcome::Response(Response::new(200).with_body(body, "text/plain")))
}

/// The first step for a request that uploads files.
pub fn handle_upload<'a>(req: &Request, upload_dir: &str, m: RouteMatch<'a>) -> (r: Step<'a>)
    ensures
        r@ == upload_step(match_view(m), req@, upload_dir@),
{
    let content_type = field(req, "content-type");
    let chars = text::chars_of(content_type);
    if text::contains_text(chars.as_slice(), "multipart/form-data") {
        match multipart::parse_boundary(content_type) {
            Some(boundary) => Step::SaveUploads { m, dir: upload_dir.to_owned(), boundary },
            None => serve_error(400, m.server),
        }
    } else {
        serve_error(400, m.server)
    }
}

/// The step after the files of an upload were saved; without names one of them could not be.
pub fn uploads_saved<'a>(saved: Option<Vec<String>>, m: RouteMatch<'a>) -> (r: Step<'a>)
    ensures
        r@ == after_saving(match_view(m), opt_views(saved)),
{
    match saved {
        Some(names) => {
            let mut message = "Uploaded: ".to_owned();
            let list = text::join(&names, ", ");
            message.append(list.as_str());
            let body = response::encoded(message.as_str());
            let resp = Response::new(201).with_body(body, "text/plain");
            Step::Done(HandleOutcome::Response(resp))
        },
        None => serve_error(500, m.server),
    }
}

// ---------------------------------------------------------------------------
// Scripts
// ---------------------------------------------------------------------------

/// The first step for a request that runs a script.
pub fn run_cgi_handler<'a>(script: String, ext: &str, m: RouteMatch<'a>) -> (r: Step<'a>)
    ensures
        r@ == script_step(match_view(m), script@, ext@),
{
    let chars = text::chars_of(ext);
    let bare = text::trimmed_start_char(chars.as_slice(), '.');
    let binary = if text::is_text(bare, "py") || text::is_text(bare, "py3") {
        "/usr/bin/python3"
    } else if text::is_text(bare, "php") {
        "/usr/bin/php"
    } else if text::is_text(bare, "sh") {
        "/bin/sh"
    } else {
        return serve_error(500, m.server);
    };
    Step::ProbeScript { m, script, binary }
}

/// The step after it was found out whether a script exists.
pub fn script_probed<'a>(
    script: String,
    binary: &'static str,
    found: bool,
    m: RouteMatch<'a>,
) -> (r: Step<'a>)
    ensures
        r@ == after_script_probe(match_view(m), script@, binary@, found),
{
    if found {
        Step::Spawn { m, script, binary }
    } else {
        serve_error(404, m.server)
    }
}

/// The step after a script was started, or could not be.
pub fn cgi_spawned<'a>(spawned: Result<CgiProcess, CgiError>, m: RouteMatch<'a>) -> (r: Step<'a>)
    ensures
        r@ == after_spawn(match_view(m), spawned),
{
    match spawned {
        Ok(process) => Step::Done(HandleOutcome::Cgi(process)),
        Err(_) => serve_error(500, m.server),
    }
}

/// The response that a script gave, as the server sends it.
pub fn cgi_response_to_http(cgi_resp: CgiResponse) -> (r: Response)
    ensures
        r@ == script_response(cgi_resp@),
{
    let ghost fields = cgi::pairs(cgi_resp.headers@);
    let ghost start = response::empty_response(cgi_resp.status);
    let mut resp = Response::new(cgi_resp.status);
    let mut i: usize = 0;
    while i < cgi_resp.headers.len()
        invariant
            i <= cgi_resp.headers@.len(),
            fields == cgi::pairs(cgi_resp.headers@),
            resp@ == script_fields(start, fields, i as int),
        decreases cgi_resp.headers@.len() - i,
    {
        assert(fields[i as int] == (
            cgi_resp.headers@[i as int].0@,
            cgi_resp.headers@[i as int].1@,
        ));
        resp = resp.with_header(
            cgi_resp.headers[i].0.as_str(),
            cgi_resp.headers[i].1.as_str(),
        );
        i = i + 1;
    }
    let mut content_type = "text/html".to_owned();
    let mut found = false;
    let mut j: usize = 0;
    while j < cgi_resp.headers.len() && !found
        invariant
            j <= cgi_resp.headers@.len(),
            fields == cgi::pairs(cgi_resp.headers@),
            found ==> content_type@ == script_type(fields, 0),
            !found ==> content_type@ == "text/html"@ && script_type(fields, 0) == script_type(
                fields,
                j as int,
            ),
        decreases cgi_resp.headers@.len() - j,
    {
        assert(fields[j as int] == (
            cgi_resp.headers@[j as int].0@,
            cgi_resp.headers@[j as int].1@,
        ));
        let lower = text::to_lowercase(cgi_resp.headers[j].0.as_str());
        if text::same_text(lower.as_str(), "content-type") {
            content_type = cgi_resp.headers[j].1.clone();
            found = true;
        }
        j = j + 1;
    }
    resp.with_body(cgi_resp.body, content_type.as_str())
}

// ---------------------------------------------------------------------------
// Laws
// ---------------------------------------------------------------------------

/// Everything around the server that the answer to a request may depend on.
pub struct World {
    pub is_dir: spec_fn(Seq<char>) -> bool,
    pub is_there: spec_fn(Seq<char>) -> bool,
    pub contents: spec_fn(Seq<char>) -> Option<Seq<u8>>,
    pub names: spec_fn(Seq<char>) -> Option<Seq<Seq<char>>>,
    pub removes: spec_fn(Seq<char>) -> bool,
    pub saves: spec_fn(Seq<char>, Seq<char>) -> Option<Seq<Seq<char>>>,
    pub spawns: spec_fn(Seq<char>, Seq<char>) -> Result<CgiProcess, CgiError>,
    pub sessions: Map<Seq<char>, session::SessionView>,
    pub now: u64,
}

/// The step that follows a step in a world.
pub open spec fn next_step(step: StepView, req: request::RequestView, w: World) -> StepView {
    match step {
        StepView::Respond(r) => step,
        StepView::Cgi(p) => step,
        StepView::ReadErrorPage { response, path } => StepView::Respond(
            with_page(response, (w.contents)(path)),
        ),
        StepView::ProbeDirectory { m, path } => after_directory_probe(m, path, (w.is_dir)(path)),
        StepView::ProbeIndex { m, dir, index } => after_index_probe(
            m,
            dir,
            index,
            (w.is_there)(index),
        ),
        StepView::ProbeFile { m, path } => after_file_probe(m, path, (w.is_there)(path)),
        StepView::ReadFile { m, path } => after_reading(
            m,
            path,
            (w.contents)(path),
            req,
            w.sessions,
            w.now,
        ),
        StepView::ListDirectory { m, path } => after_listing(m, req.uri, (w.names)(path)),
        StepView::ProbeRemoval { m, path } => after_removal_probe(m, path, (w.is_there)(path)),
        StepView::RemoveFile { m, path } => after_removal(m, (w.removes)(path)),
        StepView::SaveUploads { m, dir, boundary } => after_saving(m, (w.saves)(dir, boundary)),
        StepView::ProbeScript { m, script, binary } => after_script_probe(
            m,
            script,
            binary,
            (w.is_there)(script),
        ),
        StepView::Spawn { m, script, binary } => after_spawn(m, (w.spawns)(script, binary)),
    }
}

/// What a step leads to in a world.
pub open spec fn outcome(step: StepView, req: request::RequestView, w: World) -> StepView
    decreases steps_left(step),
{
    if step is Respond || step is Cgi {
        step
    } else {
        outcome(next_step(step, req, w), req, w)
    }
}

/// Whatever the world is like, a request comes to an end, as a response or as a script that runs,
/// after at most five answers.
pub proof fn law_request_ends(step: StepView, req: request::RequestView, w: World)
    ensures
        outcome(step, req, w) is Respond || outcome(step, req, w) is Cgi,
        steps_left(step) <= 5,
        !(step is Respond || step is Cgi) ==> steps_left(next_step(step, req, w)) < steps_left(
            step,
        ),
    decreases steps_left(step),
{
    if !(step is Respond || step is Cgi) {
        law_request_ends(next_step(step, req, w), req, w);
    }
}

/// An error response, with the page that the server configures for it if that can be read.
pub open spec fn error_outcome(
    server: config::ServerView,
    r: response::ResponseView,
    w: World,
) -> StepView {
    StepView::Respond(
        with_page(
            r,
            if server.error_pages.contains_key(r.status) {
                (w.contents)(server.error_pages[r.status])
            } else {
                None
            },
        ),
    )
}

/// Every error is answered with the page that is configured for it, and with the standard page if
/// none is or it cannot be read.
pub proof fn law_configured_error_page(
    server: config::ServerView,
    r: response::ResponseView,
    req: request::RequestView,
    w: World,
)
    ensures
        outcome(page_step(server, r), req, w) == error_outcome(server, r, w),
{
    reveal_with_fuel(outcome, 2);
}

/// What a request for a file or a directory comes to: of a directory the default file, if the
/// route names one that exists, else the listing, if the route allows it, else an error; of a file
/// its contents; of nothing an error.
pub open spec fn get_outcome(
    m: MatchView,
    target: Seq<char>,
    req: request::RequestView,
    w: World,
) -> StepView {
    let index = match m.route.default_file {
        Some(name) => Some(path::joined(target, name)),
        None => None,
    };
    let none = response::empty_response(404);
    if (w.is_dir)(target) && !(index matches Some(file) && (w.is_there)(file)) {
        if !m.route.directory_listing {
            error_outcome(m.server, response::empty_response(403), w)
        } else {
            match (w.names)(target) {
                Some(names) => StepView::Respond(
                    response::body_set(
                        response::empty_response(200),
                        encode_utf8(listing_page(req.uri, names)),
                        response::html_type(),
                    ),
                ),
                None => error_outcome(m.server, response::empty_response(500), w),
            }
        }
    } else {
        let file = if (w.is_dir)(target) {
            index->Some_0
        } else {
            target
        };
        if !(w.is_there)(file) {
            error_outcome(m.server, none, w)
        } else {
            match (w.contents)(file) {
                Some(body) => StepView::Respond(
                    file_response(file, body, req, w.sessions, w.now),
                ),
                None => error_outcome(m.server, response::empty_response(500), w),
            }
        }
    }
}

/// A request for a file or a directory is answered as `get_outcome` says.
pub proof fn law_file_request(
    m: MatchView,
    target: Seq<char>,
    req: request::RequestView,
    w: World,
)
    ensures
        outcome(get_step(m, target), req, w) == get_outcome(m, target, req, w),
{
    reveal_with_fuel(outcome, 6);
}

/// A request that deletes a file is answered with success exactly if the file is there and could
/// be deleted.
pub proof fn law_delete_request(
    m: MatchView,
    target: Seq<char>,
    req: request::RequestView,
    w: World,
)
    ensures
        outcome(delete_step(m, target), req, w) == if !(w.is_there)(target) {
            error_outcome(m.server, response::empty_response(404), w)
        } else if (w.removes)(target) {
            StepView::Respond(response::empty_response(204))
        } else {
            error_outcome(m.server, response::empty_response(403), w)
        },
{
    reveal_with_fuel(outcome, 4);
}

/// Files are uploaded on a route that says where to, with or without a root, and their names are
/// told to the client.
pub proof fn law_upload_request(
    m: MatchView,
    req: request::RequestView,
    dir: Seq<char>,
    boundary: Seq<char>,
    w: World,
)
    requires
        m.route.redirect is None,
        takes_method(m.route, req.method),
        req.method is Post,
        m.route.upload_dir == Some(dir),
        m.route.cgi_extension is None,
        seqs::find(cgi::field_or_empty(req.headers, "content-type"@), "multipart/form-data"@)
            is Some,
        multipart::boundary(cgi::field_or_empty(req.headers, "content-type"@)) == Some(boundary),
    ensures
        route_step(m, req) == (StepView::SaveUploads { m, dir, boundary }),
        outcome(route_step(m, req), req, w) == match (w.saves)(dir, boundary) {
            Some(names) => StepView::Respond(uploaded_response(names)),
            None => error_outcome(m.server, response::empty_response(500), w),
        },
{
    reveal_with_fuel(outcome, 3);
}

/// A redirect is answered whatever the method of the request is; a method that the route does not
/// take is refused, with those that it takes, before anything is looked at.
pub proof fn law_redirect_before_method(m: MatchView, req: request::RequestView)
    ensures
        m.route.redirect matches Some((code, location)) ==> route_step(m, req)
            == StepView::Respond(response::redirection(code, location)),
        m.route.redirect is None && !takes_method(m.route, req.method) ==> route_step(m, req)
            == page_step(m.server, refused_method(m.route)) && refused_method(m.route).status
            == 405,
{
}

/// The path of what a request names starts, as a text, with the root of its route. What follows may
/// hold `..`, which is not resolved.
pub proof fn law_target_starts_with_root(route_path: Seq<char>, root: Seq<char>, uri: Seq<char>)
    ensures
        root.is_prefix_of(target_path(route_path, root, uri)),
{
    let suffix = match text::after_prefix(uri, route_path) {
        Some(rest) => rest,
        None => Seq::empty(),
    };
    lemma_no_leading_slash(suffix);
    let t = target_path(route_path, root, uri);
    assert(t.take(root.len() as int) =~= root);
}

proof fn lemma_no_leading_slash(s: Seq<char>)
    ensures
        ({
            let t = text::trim_start_char(s, '/');
            t.len() > 0 ==> t[0] != '/'
        }),
    decreases s.len(),
{
    if s.len() > 0 && s[0] == '/' {
        lemma_no_leading_slash(s.drop_first());
    }
}

/// A client without a session is given one with the first file that it gets. If its next request
/// names that session in time, it is in it, and is given no other.
pub proof fn law_session_is_kept(
    first: request::RequestView,
    second: request::RequestView,
    sessions: Map<Seq<char>, session::SessionView>,
    start: u64,
    now: u64,
    file: Seq<char>,
    contents: Seq<u8>,
)
    requires
        !in_session(first, sessions, start),
        start <= now <= start + session::SESSION_TIMEOUT_SECS,
        request_session(second) == Some(session::session_id(start)),
    ensures
        file_response(file, contents, first, sessions, start) == response::header_set(
            response::body_set(response::empty_response(200), contents, media_type(file)),
            "Set-Cookie"@,
            session_cookie(session::session_id(start)),
        ),
        in_session(second, sessions_after(first, sessions, start), now),
        file_response(file, contents, second, sessions_after(first, sessions, start), now)
            == response::body_set(response::empty_response(200), contents, media_type(file)),
{
}

/// All of the text is slashes.
pub open spec fn slashes(s: Seq<char>) -> bool {
    forall|i: int| 0 <= i < s.len() ==> #[trigger] s[i] == '/'
}

/// The path of a location is taken off the path of a request, with the slashes behind it, and the
/// rest is looked for under the root of the location. The path of the location itself is the root.
pub proof fn law_target_under_root(
    path: Seq<char>,
    root: Seq<char>,
    between: Seq<char>,
    rest: Seq<char>,
)
    requires
        slashes(between),
        rest.len() > 0 ==> rest[0] != '/',
    ensures
        root.len() > 0 && root.last() != '/' ==> target_path(path, root, path + between + rest)
            == root + seq!['/'] + rest,
        root.len() > 0 && root.last() == '/' ==> target_path(path, root, path + between + rest)
            == root + rest,
        root.len() == 0 ==> target_path(path, root, path + between + rest) == rest,
{
    let uri = path + between + rest;
    assert(uri.take(path.len() as int) =~= path);
    assert(uri.skip(path.len() as int) =~= between + rest);
    text::law_trim_start_char(between, rest, '/');
    path::law_joined_paths(root, rest);
}

/// All of the text is dots.
pub open spec fn dots(s: Seq<char>) -> bool {
    forall|i: int| 0 <= i < s.len() ==> #[trigger] s[i] == '.'
}

/// Python, PHP and shell scripts are run by their own programs, with or without a dot in front of
/// the extension, and scripts of any other extension by none.
pub proof fn law_interpreters(lead: Seq<char>, other: Seq<char>)
    requires
        dots(lead),
        other != "py"@,
        other != "py3"@,
        other != "php"@,
        other != "sh"@,
        other.len() > 0 ==> other[0] != '.',
    ensures
        interpreter(lead + "py"@) == Some("/usr/bin/python3"@),
        interpreter(lead + "py3"@) == Some("/usr/bin/python3"@),
        interpreter(lead + "php"@) == Some("/usr/bin/php"@),
        interpreter(lead + "sh"@) == Some("/bin/sh"@),
        interpreter(lead + other) is None,
{
    reveal_strlit("py");
    reveal_strlit("py3");
    reveal_strlit("php");
    reveal_strlit("sh");
    text::law_trim_start_char(lead, "py"@, '.');
    text::law_trim_start_char(lead, "py3"@, '.');
    text::law_trim_start_char(lead, "php"@, '.');
    text::law_trim_start_char(lead, "sh"@, '.');
    text::law_trim_start_char(lead, other, '.');
    assert("php"@[1] != "py3"@[1]);
    assert("sh"@[0] != "py"@[0]);
}

/// The outcome is a response with this status.
pub open spec fn answers(o: StepView, status: u16) -> bool {
    o matches StepView::Respond(r) && r.status == status
}

/// The outcome is an error response with this status and, as HTML, the page that the server
/// configures for it, if that can be read, else one that names the status.
pub open spec fn answers_error(
    o: StepView,
    server: config::ServerView,
    status: u16,
    w: World,
) -> bool {
    &&& o matches StepView::Respond(r)
    &&& r.status == status
    &&& server.error_pages.contains_key(status) && (w.contents)(server.error_pages[status]) is Some
        ==> Some(r.body) == (w.contents)(server.error_pages[status])
    &&& !(server.error_pages.contains_key(status) && (w.contents)(server.error_pages[status])
        is Some) ==> r.body == encode_utf8(response::error_page(status))
    &&& response::says(r.headers, "Content-Type"@, "text/html; charset=utf-8"@)
}

/// An error is answered with its status and the page for it.
pub proof fn law_error_is_answered(
    server: config::ServerView,
    code: u16,
    req: request::RequestView,
    w: World,
)
    ensures
        answers_error(outcome(error_step(server, code), req, w), server, code, w),
{
    reveal_with_fuel(outcome, 2);
    let r = response::empty_response(code);
    let page = if server.error_pages.contains_key(code) {
        (w.contents)(server.error_pages[code])
    } else {
        None
    };
    let body = match page {
        Some(p) => p,
        None => encode_utf8(response::error_page(code)),
    };
    response::law_body_set(r, body, response::html_type());
}

/// A route takes the methods that it lists, in any mix of cases, and no others.
pub proof fn law_listed_methods(
    route: config::RouteView,
    method: request::MethodView,
    k: int,
)
    ensures
        0 <= k < route.allowed_methods.len() && text::same_ignoring_ascii_case(
            route.allowed_methods[k],
            request::method_name(method),
        ) ==> takes_method(route, method),
        route.allowed_methods.contains(request::method_name(method)) ==> takes_method(
            route,
            method,
        ),
        (forall|i: int|
            0 <= i < route.allowed_methods.len() ==> !text::same_ignoring_ascii_case(
                #[trigger] route.allowed_methods[i],
                request::method_name(method),
            )) ==> !takes_method(route, method),
{
    let name = request::method_name(method);
    if route.allowed_methods.contains(name) {
        let i = choose|i: int| 0 <= i < route.allowed_methods.len() && route.allowed_methods[i]
            == name;
        assert(text::same_ignoring_ascii_case(route.allowed_methods[i], name));
    }
}

/// A method that the route does not take is answered with 405 and the methods that it takes, unless
/// the route redirects.
pub proof fn law_method_is_refused(m: MatchView, req: request::RequestView, w: World)
    requires
        m.route.redirect is None,
        !takes_method(m.route, req.method),
    ensures
        answers_error(outcome(route_step(m, req), req, w), m.server, 405, w),
        outcome(route_step(m, req), req, w) matches StepView::Respond(r) ==> response::says(
            r.headers,
            "Allow"@,
            text::joined(m.route.allowed_methods, seq![',', ' ']),
        ),
{
    reveal_with_fuel(outcome, 2);
    reveal_strlit(", ");
    reveal_strlit("Allow");
    reveal_strlit("Content-Type");
    reveal_strlit("Content-Length");
    assert(", "@ =~= seq![',', ' ']);
    let refused = refused_method(m.route);
    let list = text::joined(m.route.allowed_methods, ", "@);
    response::law_header_set(response::empty_response(405), "Allow"@, list);
    let page = if m.server.error_pages.contains_key(405) {
        (w.contents)(m.server.error_pages[405])
    } else {
        None
    };
    let body = match page {
        Some(p) => p,
        None => encode_utf8(response::error_page(405)),
    };
    response::law_body_set(refused, body, response::html_type());
    assert("Allow"@.len() != "Content-Type"@.len() && "Allow"@.len() != "Content-Length"@.len());
}

/// A route that redirects answers every request with the status and the place that it was given.
pub proof fn law_redirect_is_answered(
    m: MatchView,
    req: request::RequestView,
    code: u16,
    location: Seq<char>,
    w: World,
)
    requires
        m.route.redirect == Some((code, location)),
    ensures
        outcome(route_step(m, req), req, w) matches StepView::Respond(r) && r.status == code
            && response::says(r.headers, "Location"@, location),
{
    response::law_redirection(code, location);
}

/// The request is one that the route serves from its root, and its path is that of the route,
/// slashes and `rest`.
pub open spec fn served_from(
    m: MatchView,
    req: request::RequestView,
    root: Seq<char>,
    between: Seq<char>,
    rest: Seq<char>,
) -> bool {
    &&& m.route.redirect is None
    &&& takes_method(m.route, req.method)
    &&& m.route.root == Some(root)
    &&& req.uri == m.route.path + between + rest
    &&& slashes(between)
    &&& rest.len() > 0 ==> rest[0] != '/'
}

/// The request asks for a script of the route.
pub open spec fn asks_for_script(m: MatchView, req: request::RequestView) -> bool {
    m.route.cgi_extension matches Some(ext) && ext.is_suffix_of(req.uri)
}

/// The target of a request is what it adds to the path of its route, seen from the root.
proof fn lemma_target(path: Seq<char>, root: Seq<char>, between: Seq<char>, rest: Seq<char>)
    requires
        slashes(between),
        rest.len() > 0 ==> rest[0] != '/',
    ensures
        target_path(path, root, path + between + rest) == path::joined(root, rest),
{
    law_target_under_root(path, root, between, rest);
    path::law_joined_paths(root, rest);
}

/// A request for a file under the root is answered with 200, the contents of that file and the type
/// that its name gives; with 404 if it is not there; and with 500 if it cannot be read.
pub proof fn law_file_is_served(
    m: MatchView,
    req: request::RequestView,
    root: Seq<char>,
    between: Seq<char>,
    rest: Seq<char>,
    w: World,
)
    requires
        served_from(m, req, root, between, rest),
        !asks_for_script(m, req),
        req.method is Get,
        !(w.is_dir)(path::joined(root, rest)),
    ensures
        ({
            let file = path::joined(root, rest);
            let o = outcome(route_step(m, req), req, w);
            &&& !(w.is_there)(file) ==> answers_error(o, m.server, 404, w)
            &&& (w.is_there)(file) && (w.contents)(file) is None ==> answers_error(
                o,
                m.server,
                500,
                w,
            )
            &&& (w.is_there)(file) ==> ((w.contents)(file) matches Some(body) ==> serves(
                o,
                file,
                body,
            ))
        }),
{
    let file = path::joined(root, rest);
    lemma_target(m.route.path, root, between, rest);
    assert(route_step(m, req) == get_step(m, file));
    reveal_with_fuel(outcome, 4);
    law_error_is_answered(m.server, 404, req, w);
    law_error_is_answered(m.server, 500, req, w);
    if let Some(body) = (w.contents)(file) {
        lemma_file_response(file, body, req, w);
    }
}

/// The outcome is a response with the contents of a file and the type that its name gives.
pub open spec fn serves(o: StepView, file: Seq<char>, body: Seq<u8>) -> bool {
    &&& o matches StepView::Respond(r)
    &&& r.status == 200
    &&& r.body == body
    &&& response::says(r.headers, "Content-Type"@, media_type(file))
    &&& response::says(r.headers, "Content-Length"@, number::decimal(body.len()))
}

proof fn lemma_file_response(
    file: Seq<char>,
    body: Seq<u8>,
    req: request::RequestView,
    w: World,
)
    ensures
        serves(
            StepView::Respond(file_response(file, body, req, w.sessions, w.now)),
            file,
            body,
        ),
{
    reveal_strlit("Set-Cookie");
    reveal_strlit("Content-Type");
    reveal_strlit("Content-Length");
    let plain = response::body_set(response::empty_response(200), body, media_type(file));
    response::law_body_set(response::empty_response(200), body, media_type(file));
    response::law_header_set(
        plain,
        "Set-Cookie"@,
        session_cookie(session::session_id(w.now)),
    );
    assert("Set-Cookie"@.len() != "Content-Type"@.len());
    assert("Set-Cookie"@.len() != "Content-Length"@.len());
}

/// A request for a directory is answered with the default file of the route, if that is there. Else
/// it is answered with the list of the directory, if the route allows it, and with 403 if not.
pub proof fn law_directory_is_served(
    m: MatchView,
    req: request::RequestView,
    root: Seq<char>,
    between: Seq<char>,
    rest: Seq<char>,
    index: Seq<char>,
    w: World,
)
    requires
        served_from(m, req, root, between, rest),
        !asks_for_script(m, req),
        req.method is Get,
        (w.is_dir)(path::joined(root, rest)),
        m.route.default_file matches Some(name) ==> index == path::joined(
            path::joined(root, rest),
            name,
        ),
    ensures
        ({
            let dir = path::joined(root, rest);
            let o = outcome(route_step(m, req), req, w);
            let found = m.route.default_file is Some && (w.is_there)(index);
            &&& found ==> ((w.contents)(index) matches Some(body) ==> serves(o, index, body))
            &&& !found && !m.route.directory_listing ==> answers_error(o, m.server, 403, w)
            &&& !found && m.route.directory_listing ==> ((w.names)(dir) matches Some(names)
                ==> lists(o, req.uri, names))
            &&& !found && m.route.directory_listing && (w.names)(dir) is None ==> answers_error(
                o,
                m.server,
                500,
                w,
            )
        }),
{
    let dir = path::joined(root, rest);
    lemma_target(m.route.path, root, between, rest);
    assert(route_step(m, req) == get_step(m, dir));
    reveal_with_fuel(outcome, 6);
    law_error_is_answered(m.server, 403, req, w);
    law_error_is_answered(m.server, 500, req, w);
    if let Some(body) = (w.contents)(index) {
        lemma_file_response(index, body, req, w);
    }
    if let Some(names) = (w.names)(dir) {
        law_listing_links(req.uri, names);
        response::law_body_set(
            response::empty_response(200),
            encode_utf8(listing_page(req.uri, names)),
            response::html_type(),
        );
    }
}

/// The outcome is a page with a link to each of the names.
pub open spec fn lists(o: StepView, uri: Seq<char>, names: Seq<Seq<char>>) -> bool {
    &&& o matches StepView::Respond(r)
    &&& r.status == 200
    &&& response::says(r.headers, "Content-Type"@, "text/html; charset=utf-8"@)
    &&& exists|page: Seq<char>|
        r.body == #[trigger] encode_utf8(page) && links_all(page, uri, names)
}

/// The page has a link to each of the names, under the path of the directory.
pub open spec fn links_all(page: Seq<char>, uri: Seq<char>, names: Seq<Seq<char>>) -> bool {
    forall|i: int|
        0 <= i < names.len() ==> seqs::find(page, link(uri, #[trigger] names[i])) is Some
}

/// The link to a name in the directory at `uri`.
pub open spec fn link(uri: Seq<char>, name: Seq<char>) -> Seq<char> {
    "<a href=\""@ + (if uri.len() > 0 && uri.last() == '/' {
        uri
    } else {
        uri + seq!['/']
    }) + name + "\">"@ + name + "</a>"@
}

proof fn lemma_listing_lines(uri: Seq<char>, names: Seq<Seq<char>>, i: int)
    requires
        0 <= i < names.len(),
    ensures
        exists|at: int| #[trigger]
            seqs::occurs_at(listing_lines(uri, names), link(uri, names[i]), at),
    decreases names.len(),
{
    let all = listing_lines(uri, names);
    let before = listing_lines(uri, names.drop_last());
    if i < names.len() - 1 {
        lemma_listing_lines(uri, names.drop_last(), i);
        let l = link(uri, names[i]);
        let at = choose|at: int| #[trigger] seqs::occurs_at(before, l, at);
        assert(all.subrange(at, at + l.len()) =~= before.subrange(at, at + l.len()));
        assert(seqs::occurs_at(all, l, at));
    } else {
        reveal_strlit("<li><a href=\"");
        reveal_strlit("<a href=\"");
        reveal_strlit("</a></li>\n");
        reveal_strlit("</a>");
        reveal_strlit("/");
        assert("/"@ =~= seq!['/']);
        let name = names.last();
        let l = link(uri, name);
        let at = before.len() as int + 4;
        assert(all == before + listing_line(uri, name));
        assert(all.subrange(at, at + l.len()) =~= l);
        assert(seqs::occurs_at(all, l, at));
    }
}

/// The page that lists a directory names its path and links each of its names.
pub proof fn law_listing_links(uri: Seq<char>, names: Seq<Seq<char>>)
    ensures
        links_all(listing_page(uri, names), uri, names),
        seqs::find(listing_page(uri, names), "Index of "@ + uri) is Some,
{
    let page = listing_page(uri, names);
    let lead = "<!DOCTYPE html><html><head><title>Index of "@ + uri
        + "</title></head><body><h1>Index of "@ + uri + "</h1><ul>"@;
    let lines = listing_lines(uri, names);
    let n = lead.len() as int;
    assert forall|i: int| 0 <= i < names.len() implies seqs::find(
        page,
        link(uri, #[trigger] names[i]),
    ) is Some by {
        lemma_listing_lines(uri, names, i);
        let l = link(uri, names[i]);
        let at = choose|at: int| #[trigger] seqs::occurs_at(lines, l, at);
        assert(page.subrange(n + at, n + at + l.len()) =~= lines.subrange(at, at + l.len()));
        assert(seqs::occurs_at(page, l, n + at));
        seqs::lemma_find_from(page, l, 0);
    }
    reveal_strlit("<!DOCTYPE html><html><head><title>Index of ");
    reveal_strlit("Index of ");
    let title = "Index of "@ + uri;
    assert(page.subrange(34, 34 + title.len() as int) =~= title);
    assert(seqs::occurs_at(page, title, 34));
    seqs::lemma_find_from(page, title, 0);
}

/// A request that deletes a file under the root is answered with 204 if the file was there and is
/// deleted, with 404 if it was not there, and with 403 if it could not be deleted.
pub proof fn law_file_is_deleted(
    m: MatchView,
    req: request::RequestView,
    root: Seq<char>,
    between: Seq<char>,
    rest: Seq<char>,
    w: World,
)
    requires
        served_from(m, req, root, between, rest),
        !asks_for_script(m, req),
        req.method is Delete,
    ensures
        ({
            let file = path::joined(root, rest);
            let o = outcome(route_step(m, req), req, w);
            &&& !(w.is_there)(file) ==> answers_error(o, m.server, 404, w)
            &&& (w.is_there)(file) && (w.removes)(file) ==> answers(o, 204)
            &&& (w.is_there)(file) && !(w.removes)(file) ==> answers_error(o, m.server, 403, w)
        }),
{
    lemma_target(m.route.path, root, between, rest);
    reveal_with_fuel(outcome, 3);
    law_error_is_answered(m.server, 404, req, w);
    law_error_is_answered(m.server, 403, req, w);
}

/// A request for a script under the root, by any method that the route takes, starts the program
/// for the extension of the route with the path of the script; a script that is not there is
/// answered with 404, and one for which there is no program, or that cannot be started, with 500.
pub proof fn law_script_is_run(
    m: MatchView,
    req: request::RequestView,
    root: Seq<char>,
    between: Seq<char>,
    rest: Seq<char>,
    ext: Seq<char>,
    w: World,
)
    requires
        served_from(m, req, root, between, rest),
        m.route.cgi_extension == Some(ext),
        ext.is_suffix_of(req.uri),
    ensures
        ({
            let script = path::joined(root, rest);
            let first = route_step(m, req);
            let o = outcome(first, req, w);
            &&& interpreter(ext) matches Some(binary) ==> {
                &&& (w.is_there)(script) ==> next_step(first, req, w) == (StepView::Spawn {
                    m,
                    script,
                    binary,
                })
                &&& (w.is_there)(script) ==> ((w.spawns)(script, binary) matches Ok(process) ==> o
                    == StepView::Cgi(process))
                &&& (w.is_there)(script) && (w.spawns)(script, binary) is Err ==> answers_error(
                    o,
                    m.server,
                    500,
                    w,
                )
                &&& !(w.is_there)(script) ==> answers_error(o, m.server, 404, w)
            }
            &&& interpreter(ext) is None ==> answers_error(o, m.server, 500, w)
        }),
{
    lemma_target(m.route.path, root, between, rest);
    reveal_with_fuel(outcome, 3);
    law_error_is_answered(m.server, 404, req, w);
    law_error_is_answered(m.server, 500, req, w);
}

/// What is posted where there is no place for uploads is acknowledged; a method that the server
/// does not know is answered with 501, though a route lists it; and a route that has neither a root
/// nor, for what is posted, a place for uploads, answers with 500.
pub proof fn law_other_requests(m: MatchView, req: request::RequestView, w: World)
    requires
        m.route.redirect is None,
        takes_method(m.route, req.method),
        m.route.root is Some ==> !asks_for_script(m, req),
    ensures
        m.route.root is Some && req.method is Post && m.route.upload_dir is None ==> {
            &&& outcome(route_step(m, req), req, w) matches StepView::Respond(r)
            &&& r.status == 200
            &&& r.body == encode_utf8("OK"@)
        },
        m.route.root is Some && req.method is Other ==> answers(
            outcome(route_step(m, req), req, w),
            501,
        ),
        m.route.root is None && !(req.method is Post && m.route.upload_dir is Some)
            ==> answers_error(outcome(route_step(m, req), req, w), m.server, 500, w),
{
    reveal_with_fuel(outcome, 2);
    law_error_is_answered(m.server, 500, req, w);
}

/// Files that were sent as a form are saved where the route says, and their names are told to the
/// client with 201; if they cannot be saved the answer is 500. What is no form, or names no
/// boundary, is answered with 400.
pub proof fn law_upload_is_answered(
    m: MatchView,
    req: request::RequestView,
    dir: Seq<char>,
    w: World,
)
    requires
        m.route.redirect is None,
        takes_method(m.route, req.method),
        req.method is Post,
        m.route.upload_dir == Some(dir),
        m.route.root is Some ==> !asks_for_script(m, req),
    ensures
        ({
            let o = outcome(route_step(m, req), req, w);
            let has_type = req.headers.contains_key("content-type"@);
            let given = req.headers["content-type"@];
            let form = has_type && seqs::find(given, "multipart/form-data"@) is Some;
            &&& !form ==> answers_error(o, m.server, 400, w)
            &&& form && multipart::boundary(given) is None ==> answers_error(o, m.server, 400, w)
            &&& form ==> (multipart::boundary(given) matches Some(b) ==> {
                &&& route_step(m, req) == (StepView::SaveUploads { m, dir, boundary: b })
                &&& (w.saves)(dir, b) is None ==> answers_error(o, m.server, 500, w)
                &&& (w.saves)(dir, b) matches Some(names) ==> {
                    &&& o matches StepView::Respond(r)
                    &&& r.status == 201
                    &&& r.body == encode_utf8(
                        "Uploaded: "@ + text::joined(names, seq![',', ' ']),
                    )
                }
            })
        }),
{
    reveal_with_fuel(outcome, 3);
    reveal_strlit(", ");
    reveal_strlit("multipart/form-data");
    assert(", "@ =~= seq![',', ' ']);
    law_error_is_answered(m.server, 400, req, w);
    law_error_is_answered(m.server, 500, req, w);
    if !req.headers.contains_key("content-type"@) {
        let none = Seq::<char>::empty();
        seqs::lemma_find_from(none, "multipart/form-data"@, 0);
    }
}

/// A request goes to the location of the server that is chosen for it; where no location covers its
/// path it is answered with 404.
pub proof fn law_request_is_dispatched(
    req: request::RequestView,
    servers: Seq<config::ServerView>,
    port: u16,
    host: Seq<char>,
    k: int,
    j: int,
    w: World,
)
    requires
        req.headers.contains_key("host"@) ==> req.headers["host"@] == host,
        !req.headers.contains_key("host"@) ==> host.len() == 0,
        0 <= k < servers.len(),
        router::server_for(servers, host, port) == k,
    ensures
        router::route_for(servers[k], req.uri) == Some(j) ==> first_step(req, servers, port)
            == route_step(MatchView { route: servers[k].routes[j], server: servers[k] }, req),
        (forall|i: int|
            0 <= i < servers[k].routes.len() ==> !router::covers(
                (#[trigger] servers[k].routes[i]).path,
                req.uri,
            )) ==> answers_error(
            outcome(first_step(req, servers, port), req, w),
            servers[k],
            404,
            w,
        ),
{
    if !req.headers.contains_key("host"@) {
        assert(host =~= Seq::empty());
    }
    law_error_is_answered(servers[k], 404, req, w);
    router::law_longest_prefix(servers[k], req.uri);
}

/// A file is told by its extension, wherever it is and whatever precedes the last dot of its name.
pub proof fn law_media_types(dir: Seq<char>, stem: Seq<char>)
    requires
        path::directory_prefix(dir),
        stem.len() > 0,
        !stem.contains('/'),
    ensures
        media_type(dir + stem + seq!['.'] + "html"@) == "text/html; charset=utf-8"@,
        media_type(dir + stem + seq!['.'] + "htm"@) == "text/html; charset=utf-8"@,
        media_type(dir + stem + seq!['.'] + "css"@) == "text/css"@,
        media_type(dir + stem + seq!['.'] + "js"@) == "application/javascript"@,
        media_type(dir + stem + seq!['.'] + "json"@) == "application/json"@,
        media_type(dir + stem + seq!['.'] + "png"@) == "image/png"@,
        media_type(dir + stem + seq!['.'] + "jpg"@) == "image/jpeg"@,
        media_type(dir + stem + seq!['.'] + "jpeg"@) == "image/jpeg"@,
        media_type(dir + stem + seq!['.'] + "gif"@) == "image/gif"@,
        media_type(dir + stem + seq!['.'] + "svg"@) == "image/svg+xml"@,
        media_type(dir + stem + seq!['.'] + "ico"@) == "image/x-icon"@,
        media_type(dir + stem + seq!['.'] + "txt"@) == "text/plain; charset=utf-8"@,
        media_type(dir + stem + seq!['.'] + "pdf"@) == "application/pdf"@,
{
    lemma_known_extensions();
    path::law_extension(dir, stem, "html"@);
    path::law_extension(dir, stem, "htm"@);
    path::law_extension(dir, stem, "css"@);
    path::law_extension(dir, stem, "js"@);
    path::law_extension(dir, stem, "json"@);
    path::law_extension(dir, stem, "png"@);
    path::law_extension(dir, stem, "jpg"@);
    path::law_extension(dir, stem, "jpeg"@);
    path::law_extension(dir, stem, "gif"@);
    path::law_extension(dir, stem, "svg"@);
    path::law_extension(dir, stem, "ico"@);
    path::law_extension(dir, stem, "txt"@);
    path::law_extension(dir, stem, "pdf"@);
}

/// The extension can stand behind the last dot of a name.
spec fn bare_extension(e: Seq<char>) -> bool {
    e.len() > 0 && !e.contains('/') && !e.contains('.')
}

/// The extensions that the server knows differ, and hold neither dots nor slashes.
proof fn lemma_known_extensions()
    ensures
        bare_extension("html"@),
        bare_extension("htm"@),
        bare_extension("css"@),
        bare_extension("js"@),
        bare_extension("json"@),
        bare_extension("png"@),
        bare_extension("jpg"@),
        bare_extension("jpeg"@),
        bare_extension("gif"@),
        bare_extension("svg"@),
        bare_extension("ico"@),
        bare_extension("txt"@),
        bare_extension("pdf"@),
        "html"@.len() == 4 && "html"@[0] == 'h',
        "htm"@.len() == 3 && "htm"@[0] == 'h',
        "css"@.len() == 3 && "css"@[0] == 'c',
        "js"@.len() == 2 && "js"@[0] == 'j',
        "json"@.len() == 4 && "json"@[0] == 'j' && "json"@[1] == 's',
        "png"@.len() == 3 && "png"@[0] == 'p' && "png"@[1] == 'n',
        "jpg"@.len() == 3 && "jpg"@[0] == 'j',
        "jpeg"@.len() == 4 && "jpeg"@[0] == 'j' && "jpeg"@[1] == 'p',
        "gif"@.len() == 3 && "gif"@[0] == 'g',
        "svg"@.len() == 3 && "svg"@[0] == 's',
        "ico"@.len() == 3 && "ico"@[0] == 'i',
        "txt"@.len() == 3 && "txt"@[0] == 't',
        "pdf"@.len() == 3 && "pdf"@[0] == 'p' && "pdf"@[1] == 'd',
{
    reveal_strlit("html");
    reveal_strlit("htm");
    reveal_strlit("css");
    reveal_strlit("js");
    reveal_strlit("json");
    reveal_strlit("png");
    reveal_strlit("jpg");
    reveal_strlit("jpeg");
    reveal_strlit("gif");
    reveal_strlit("svg");
    reveal_strlit("ico");
    reveal_strlit("txt");
    reveal_strlit("pdf");
}

/// A file without an extension, or with one that the server does not know, is sent as mere bytes.
pub proof fn law_unknown_media_type(dir: Seq<char>, stem: Seq<char>, ext: Seq<char>)
    requires
        path::directory_prefix(dir),
        stem.len() > 0,
        !stem.contains('/'),
        ext.len() > 0 && !ext.contains('/') && !ext.contains('.'),
        ext != "html"@ && ext != "htm"@ && ext != "css"@ && ext != "js"@ && ext != "json"@,
        ext != "png"@ && ext != "jpg"@ && ext != "jpeg"@ && ext != "gif"@ && ext != "svg"@,
        ext != "ico"@ && ext != "txt"@ && ext != "pdf"@,
    ensures
        media_type(dir + stem + seq!['.'] + ext) == "application/octet-stream"@,
        !stem.contains('.') ==> media_type(dir + stem) == "application/octet-stream"@,
{
    path::law_extension(dir, stem, ext);
    if !stem.contains('.') {
        assert(stem.contains(stem[0]));
        assert(!stem.drop_first().contains('.')) by {
            if stem.drop_first().contains('.') {
                let i = choose|i: int|
                    0 <= i < stem.drop_first().len() && stem.drop_first()[i] == '.';
                assert(stem.contains(stem[i + 1]));
            }
        }
        path::law_no_extension(dir, stem);
    }
}

/// With a file, a client without a session is told the name of the one that starts, and a client in
/// a session is told nothing of it.
pub proof fn law_session_is_told(
    file: Seq<char>,
    contents: Seq<u8>,
    req: request::RequestView,
    sessions: Map<Seq<char>, session::SessionView>,
    now: u64,
    value: Seq<char>,
)
    ensures
        ({
            let r = file_response(file, contents, req, sessions, now);
            &&& !in_session(req, sessions, now) ==> response::says(
                r.headers,
                "Set-Cookie"@,
                "session_id="@ + session::session_id(now) + "; HttpOnly; Path=/"@,
            )
            &&& in_session(req, sessions, now) ==> !response::says(
                r.headers,
                "Set-Cookie"@,
                value,
            )
        }),
{
    reveal_strlit("Set-Cookie");
    reveal_strlit("Content-Type");
    reveal_strlit("Content-Length");
    assert("Set-Cookie"@.len() != "Content-Type"@.len());
    assert("Set-Cookie"@.len() != "Content-Length"@.len());
    let start = response::empty_response(200);
    let plain = response::body_set(start, contents, media_type(file));
    response::law_body_set(start, contents, media_type(file));
    response::law_header_set(
        plain,
        "Set-Cookie"@,
        session_cookie(session::session_id(now)),
    );
    assert(!response::says(start.headers, "Set-Cookie"@, value));
}

/// A request is in the session that its `Cookie` names, if that is not over, and in none without
/// one.
pub proof fn law_request_session(
    req: request::RequestView,
    sessions: Map<Seq<char>, session::SessionView>,
    id: Seq<char>,
    now: u64,
)
    ensures
        !req.headers.contains_key("cookie"@) ==> !in_session(req, sessions, now),
        req.headers.contains_key("cookie"@) && session::cookie_session(req.headers["cookie"@])
            == Some(id) ==> in_session(req, sessions, now) == session::is_live(sessions, id, now),
        req.headers.contains_key("cookie"@) && session::cookie_session(req.headers["cookie"@])
            is None ==> !in_session(req, sessions, now),
{
}

proof fn lemma_script_fields(
    status: u16,
    headers: Seq<(Seq<char>, Seq<char>)>,
    n: int,
    k: int,
)
    requires
        0 <= n <= headers.len(),
    ensures
        ({
            let r = script_fields(response::empty_response(status), headers, n);
            &&& r.status == status
            &&& assoc::keys_unique(r.headers)
            &&& 0 <= k < n && (forall|j: int|
                k < j < n ==> (#[trigger] headers[j]).0 != headers[k].0) ==> response::says(
                r.headers,
                headers[k].0,
                headers[k].1,
            )
        }),
    decreases n,
{
    if n > 0 {
        let before = script_fields(response::empty_response(status), headers, n - 1);
        lemma_script_fields(status, headers, n - 1, k);
        response::law_header_set(before, headers[n - 1].0, headers[n - 1].1);
        if 0 <= k < n - 1 {
            assert(headers[n - 1].0 != headers[k].0 || !(forall|j: int|
                k < j < n ==> (#[trigger] headers[j]).0 != headers[k].0));
        }
    }
}

proof fn lemma_script_type(headers: Seq<(Seq<char>, Seq<char>)>, i: int, k: int)
    requires
        0 <= i <= headers.len(),
    ensures
        i <= k < headers.len() && text::lowercase(headers[k].0) == "content-type"@ && (forall|
            j: int,
        |
            i <= j < k ==> text::lowercase(#[trigger] headers[j].0) != "content-type"@)
            ==> script_type(headers, i) == headers[k].1,
        (forall|j: int|
            i <= j < headers.len() ==> text::lowercase(#[trigger] headers[j].0)
                != "content-type"@) ==> script_type(headers, i) == "text/html"@,
    decreases headers.len() - i,
{
    if i < headers.len() {
        lemma_script_type(headers, i + 1, k);
        assert(headers[i].0 == headers[i].0);
    }
}

/// What a script gave is sent on: its status, its body with its length, the type that the first
/// `Content-Type` gives, in whatever case that is written, or HTML without one, and every other
/// field with the last value that was given.
pub proof fn law_script_response(c: cgi::CgiResponseView, k: int)
    ensures
        ({
            let r = script_response(c);
            &&& r.status == c.status
            &&& r.body == c.body
            &&& response::says(r.headers, "Content-Length"@, number::decimal(c.body.len()))
            &&& 0 <= k < c.headers.len() && text::lowercase(c.headers[k].0) == "content-type"@ && (
            forall|j: int|
                0 <= j < k ==> text::lowercase(#[trigger] c.headers[j].0) != "content-type"@)
                ==> response::says(r.headers, "Content-Type"@, c.headers[k].1)
            &&& (forall|j: int|
                0 <= j < c.headers.len() ==> text::lowercase(#[trigger] c.headers[j].0)
                    != "content-type"@) ==> response::says(
                r.headers,
                "Content-Type"@,
                "text/html"@,
            )
            &&& 0 <= k < c.headers.len() && c.headers[k].0 != "Content-Type"@ && c.headers[k].0
                != "Content-Length"@ && (forall|j: int|
                k < j < c.headers.len() ==> (#[trigger] c.headers[j]).0 != c.headers[k].0)
                ==> response::says(r.headers, c.headers[k].0, c.headers[k].1)
        }),
{
    let n = c.headers.len() as int;
    lemma_script_fields(c.status, c.headers, n, k);
    lemma_script_type(c.headers, 0, k);
    let plain = script_fields(response::empty_response(c.status), c.headers, n);
    response::law_body_set(plain, c.body, script_type(c.headers, 0));
}

/// A form that is posted to a route with a place for uploads is taken apart at the boundary that
/// its content type names, as it is written there, with or without quotes.
pub proof fn law_form_is_taken_apart(
    m: MatchView,
    req: request::RequestView,
    dir: Seq<char>,
    boundary: Seq<char>,
    quoted: bool,
)
    requires
        m.route.redirect is None,
        takes_method(m.route, req.method),
        req.method is Post,
        m.route.upload_dir == Some(dir),
        m.route.root is Some ==> !asks_for_script(m, req),
        req.headers.contains_key("content-type"@),
        req.headers["content-type"@] == "multipart/form-data; boundary="@ + (if quoted {
            seq!['"'] + boundary + seq!['"']
        } else {
            boundary
        }),
        !boundary.contains(';'),
        multipart::unquoted_ends(boundary),
        boundary.len() > 0 ==> !text::is_space(boundary.last()),
    ensures
        route_step(m, req) == (StepView::SaveUploads { m, dir, boundary }),
{
    multipart::law_form_type(boundary);
    let given = req.headers["content-type"@];
    let quotes = seq!['"'] + boundary + seq!['"'];
    assert("multipart/form-data; boundary="@ + quotes =~= "multipart/form-data; boundary="@ + seq![
        '"',
    ] + boundary + seq!['"']);
    let none = Seq::<char>::empty();
    reveal_strlit("multipart/form-data; boundary=");
    reveal_strlit("multipart/form-data");
    let kind = "multipart/form-data"@;
    assert(given =~= none + kind + given.skip(kind.len() as int));
    seqs::law_find(none, kind, given.skip(kind.len() as int), given, 0);
}

/// A request whose path does not start with that of the route is one for the root.
pub proof fn law_target_elsewhere(path: Seq<char>, root: Seq<char>, uri: Seq<char>)
    requires
        !path.is_prefix_of(uri),
    ensures
        target_path(path, root, uri) == path::joined(root, Seq::empty()),
{
    reveal_with_fuel(text::trim_start_char, 2);
}

/// One more name in a directory is one more line of its list, behind the others, and an empty
/// directory has none.
pub proof fn law_listing_lines(uri: Seq<char>, names: Seq<Seq<char>>, name: Seq<char>)
    ensures
        listing_lines(uri, names.push(name)) == listing_lines(uri, names) + "<li>"@ + link(uri, name)
            + "</li>\n"@,
        listing_lines(uri, Seq::empty()) == Seq::<char>::empty(),
{
    reveal_strlit("<li><a href=\"");
    reveal_strlit("<a href=\"");
    reveal_strlit("</a></li>\n");
    reveal_strlit("</a>");
    reveal_strlit("<li>");
    reveal_strlit("</li>\n");
    reveal_strlit("/");
    assert("/"@ =~= seq!['/']);
    assert(names.push(name).drop_last() =~= names);
    assert(listing_line(uri, name) =~= "<li>"@ + link(uri, name) + "</li>\n"@);
    assert(listing_lines(uri, names.push(name)) =~= listing_lines(uri, names) + "<li>"@ + link(
        uri,
        name,
    ) + "</li>\n"@);
}

} // verus!
