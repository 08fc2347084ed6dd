//! CGI scripts: their environment, their pipes and their output.

use crate::bytes;
use crate::encoding;
use crate::number;
use crate::path;
use crate::request;
use crate::request::Request;
use crate::seqs;
use crate::text;
use crate::wire;
use vstd::prelude::*;
use vstd::slice::slice_subrange;
use vstd::utf8::*;

verus! {

// ---------------------------------------------------------------------------
// Model
// ---------------------------------------------------------------------------

/// The response of a script.
#[verifier::ext_equal]
pub struct CgiResponseView {
    pub headers: Seq<(Seq<char>, Seq<char>)>,
    pub body: Seq<u8>,
    pub status: u16,
}

/// The output of a script, cut at the first empty line; line ends are CR LF, or, if no empty line
/// is so marked, LF alone.
pub open spec fn output_parts(raw: Seq<u8>) -> Option<(Seq<u8>, Seq<u8>)> {
    match seqs::find(raw, bytes::blank_line()) {
        Some(i) => Some((raw.take(i), raw.skip(i + 4))),
        None => match seqs::find(raw, seq![10u8, 10u8]) {
            Some(i) => Some((raw.take(i), raw.skip(i + 2))),
            None => None,
        },
    }
}

/// What precedes the first space.
pub open spec fn first_word(s: Seq<char>) -> Seq<char> {
    match text::cut(s, ' ') {
        Some((a, b)) => a,
        None => s,
    }
}

/// The response after one more header line. A line without a colon says nothing. The status is
/// the number that starts the value of `Status`, if it is one.
pub open spec fn header_line(r: CgiResponseView, line: Seq<char>) -> CgiResponseView {
    match text::cut(line, ':') {
        None => r,
        Some((before, after)) => {
            let key = text::trim(before);
            let value = text::trim(after);
            if text::lowercase(key) == "status"@ {
                match number::parse_unsigned(first_word(value), 10, u16::MAX as nat) {
                    Some(code) => CgiResponseView { status: code as u16, ..r },
                    None => r,
                }
            } else {
                CgiResponseView { headers: r.headers.push((key, value)), ..r }
            }
        },
    }
}

/// The response after the header lines from `i` on.
pub open spec fn header_lines(
    r: CgiResponseView,
    lines: Seq<Seq<char>>,
    i: int,
) -> CgiResponseView
    decreases lines.len() - i,
{
    if i < 0 || i >= lines.len() {
        r
    } else {
        header_lines(header_line(r, lines[i]), lines, i + 1)
    }
}

/// The response that the output of a script writes. Without an empty line all of it is the body;
/// header lines that are no UTF-8 say nothing.
pub open spec fn cgi_output(raw: Seq<u8>) -> CgiResponseView {
    match output_parts(raw) {
        None => CgiResponseView { headers: Seq::empty(), body: raw, status: 200 },
        Some((head, body)) => {
            let plain = CgiResponseView { headers: Seq::empty(), body, status: 200 };
            if valid_utf8(head) {
                header_lines(plain, text::lines(decode_utf8(head)), 0)
            } else {
                plain
            }
        },
    }
}

/// The value of a header field, or nothing.
pub open spec fn field_or_empty(
    fields: Map<Seq<char>, Seq<char>>,
    name: Seq<char>,
) -> Seq<char> {
    if fields.contains_key(name) {
        fields[name]
    } else {
        Seq::empty()
    }
}

/// The variables that every script is given.
pub open spec fn common_variables(
    script: Seq<char>,
    req: request::RequestView,
) -> Seq<(Seq<char>, Seq<char>)> {
    seq![
        ("REQUEST_METHOD"@, request::method_name(req.method)),
        ("PATH_INFO"@, script),
        ("SCRIPT_FILENAME"@, script),
        ("QUERY_STRING"@, req.query_string),
        ("CONTENT_LENGTH"@, number::decimal(req.body.len())),
        ("CONTENT_TYPE"@, field_or_empty(req.headers, "content-type"@)),
        ("SERVER_PROTOCOL"@, "HTTP/1.1"@),
        ("GATEWAY_INTERFACE"@, "CGI/1.1"@),
        ("SERVER_SOFTWARE"@, "localhost/1.0"@),
    ]
}

/// The variable `name`, if the request has the header field `field`.
pub open spec fn optional_variable(
    req: request::RequestView,
    name: Seq<char>,
    field: Seq<char>,
) -> Seq<(Seq<char>, Seq<char>)> {
    if req.headers.contains_key(field) {
        seq![(name, req.headers[field])]
    } else {
        Seq::empty()
    }
}

/// The variables that a script is given.
pub open spec fn environment(
    script: Seq<char>,
    req: request::RequestView,
) -> Seq<(Seq<char>, Seq<char>)> {
    common_variables(script, req) + optional_variable(req, "HTTP_HOST"@, "host"@)
        + optional_variable(req, "HTTP_COOKIE"@, "cookie"@)
}

/// The absolute path of a script: a relative path starts at the current directory.
pub open spec fn absolute_script(script: Seq<char>, current_dir: Seq<char>) -> Seq<char> {
    path::joined(current_dir, script)
}

/// The directory in which a script runs.
pub open spec fn script_dir(script: Seq<char>) -> Seq<char> {
    match path::parent(script) {
        Some(d) => d,
        None => "."@,
    }
}

/// The characters of every pair.
pub open spec fn pairs(v: Seq<(String, String)>) -> Seq<(Seq<char>, Seq<char>)> {
    v.map_values(|e: (String, String)| (e.0@, e.1@))
}

// ---------------------------------------------------------------------------
// Types
// ---------------------------------------------------------------------------

/// Why a script could not be started.
#[derive(Debug)]
pub enum CgiError {
    ForkFailed,
    PipeFailed,
}

impl CgiError {
    /// The error in words.
    pub fn message(&self) -> (r: String)
        ensures
            match *self {
                CgiError::ForkFailed => r@ == "fork() failed"@,
                CgiError::PipeFailed => r@ == "pipe() failed"@,
            },
    {
        match self {
            CgiError::ForkFailed => "fork() failed".to_owned(),
            CgiError::PipeFailed => "pipe() failed".to_owned(),
        }
    }
}

/// The response of a script.
pub struct CgiResponse {
    pub headers: Vec<(String, String)>,
    pub body: Vec<u8>,
    pub status: u16,
}

impl View for CgiResponse {
    type V = CgiResponseView;

    open spec fn view(&self) -> CgiResponseView {
        CgiResponseView { headers: pairs(self.headers@), body: self.body@, status: self.status }
    }
}

/// A script that runs. Its standard input, if there is a body to send, and its standard output
/// are pipes that the event loop drives.
pub struct CgiProcess {
    pub pid: i32,
    pub stdin_fd: Option<i32>,
    pub stdin_data: Vec<u8>,
    pub stdin_offset: usize,
    pub stdout_fd: i32,
}

/// What the child process is to run.
pub struct CgiCommand {
    pub binary: String,
    pub script: String,
    pub directory: String,
    pub environment: Vec<(String, String)>,
}

/// The two ends of a pipe.
#[derive(Clone, Copy)]
pub struct Pipe {
    pub read: i32,
    pub write: i32,
}

/// How far the start of a script came.
pub enum SpawnEvent {
    /// The pipe for its input could not be made.
    NoInputPipe,
    /// The pipe for its output could not be made.
    NoOutputPipe { input: Pipe },
    /// The process could not be forked.
    NoProcess { input: Pipe, output: Pipe },
    /// The process runs.
    Forked { pid: i32, input: Pipe, output: Pipe },
}

/// The ends of the pipes of a script that the server keeps: the output, and the input for a body.
pub open spec fn kept_ends(event: SpawnEvent, has_body: bool) -> Seq<i32> {
    match event {
        SpawnEvent::Forked { pid, input, output } => if has_body {
            seq![output.read, input.write]
        } else {
            seq![output.read]
        },
        _ => Seq::empty(),
    }
}

/// The ends of the pipes of a script that the server closes: those of the script, that of an input
/// without a body, and all of them if the script did not start.
pub open spec fn closed_ends(event: SpawnEvent, has_body: bool) -> Seq<i32> {
    match event {
        SpawnEvent::NoInputPipe => Seq::empty(),
        SpawnEvent::NoOutputPipe { input } => seq![input.read, input.write],
        SpawnEvent::NoProcess { input, output } => seq![
            input.read,
            input.write,
            output.read,
            output.write,
        ],
        SpawnEvent::Forked { pid, input, output } => if has_body {
            seq![input.read, output.write]
        } else {
            seq![input.read, output.write, input.write]
        },
    }
}

// ---------------------------------------------------------------------------
// Starting scripts
// ---------------------------------------------------------------------------

fn variable(name: &str, value: &str) -> (r: (String, String))
    ensures
        r.0@ == name@,
        r.1@ == value@,
{
    (name.to_owned(), value.to_owned())
}

/// The variables that a script is given.
pub fn setup_cgi_env(script_path: &str, req: &Request) -> (r: Vec<(String, String)>)
    ensures
        pairs(r@) == environment(script_path@, req@),
{
    let content_type = match req.headers.get("content-type") {
        Some(s) => s.as_str(),
        None => "",
    };
    proof {
        reveal_strlit("");
        assert(""@ =~= Seq::<char>::empty());
    }
    let length = number::to_decimal(req.body.len() as u64);
    let mut env: Vec<(String, String)> = Vec::new();
    env.push(variable("REQUEST_METHOD", req.method.as_str()));
    env.push(variable("PATH_INFO", script_path));
    env.push(variable("SCRIPT_FILENAME", script_path));
    env.push(variable("QUERY_STRING", req.query_string.as_str()));
    env.push(variable("CONTENT_LENGTH", length.as_str()));
    env.push(variable("CONTENT_TYPE", content_type));
    env.push(variable("SERVER_PROTOCOL", "HTTP/1.1"));
    env.push(variable("GATEWAY_INTERFACE", "CGI/1.1"));
    env.push(variable("SERVER_SOFTWARE", "localhost/1.0"));
    assert(pairs(env@) =~= common_variables(script_path@, req@));
    if let Some(host) = req.headers.get("host") {
        env.push(variable("HTTP_HOST", host.as_str()));
    }
    assert(pairs(env@) =~= common_variables(script_path@, req@) + optional_variable(
        req@,
        "HTTP_HOST"@,
        "host"@,
    ));
    let ghost before = pairs(env@);
    if let Some(cookie) = req.headers.get("cookie") {
        env.push(variable("HTTP_COOKIE", cookie.as_str()));
    }
    assert(pairs(env@) =~= before + optional_variable(req@, "HTTP_COOKIE"@, "cookie"@));
    env
}

/// What the child process is to run for a request. It runs in the directory of the script, so
/// the script is named by its absolute path.
pub fn cgi_command(
    script_path: &str,
    req: &Request,
    cgi_binary: &str,
    current_dir: &str,
) -> (r: CgiCommand)
    ensures
        r.binary@ == cgi_binary@,
        r.script@ == absolute_script(script_path@, current_dir@),
        r.directory@ == script_dir(r.script@),
        pairs(r.environment@) == environment(r.script@, req@),
{
    let script = path::join_path(current_dir, script_path);
    let directory = match path::path_parent(script.as_str()) {
        Some(d) => d,
        None => ".".to_owned(),
    };
    let environment = setup_cgi_env(script.as_str(), req);
    CgiCommand { binary: cgi_binary.to_owned(), script, directory, environment }
}

/// What the start of a script came to, and the descriptors that the server has to close: those
/// of an attempt that failed, or the ends that are the child's. The input is kept open only for a
/// body.
pub fn spawn_cgi(event: SpawnEvent, req: &Request) -> (r: (
    Result<CgiProcess, CgiError>,
    Vec<i32>,
))
    ensures
        r.1@ == closed_ends(event, req@.body.len() > 0),
        r.0 matches Ok(p) ==> seq![p.stdout_fd] + (match p.stdin_fd {
            Some(fd) => seq![fd],
            None => Seq::empty(),
        }) == kept_ends(event, req@.body.len() > 0),
        match event {
            SpawnEvent::NoInputPipe => r.0 is Err && r.0->Err_0 is PipeFailed && r.1@ == Seq::<
                i32,
            >::empty(),
            SpawnEvent::NoOutputPipe { input } => r.0 is Err && r.0->Err_0 is PipeFailed && r.1@
                == seq![input.read, input.write],
            SpawnEvent::NoProcess { input, output } => r.0 is Err && r.0->Err_0 is ForkFailed
                && r.1@ == seq![input.read, input.write, output.read, output.write],
            SpawnEvent::Forked { pid, input, output } => {
                &&& r.0 matches Ok(p)
                &&& p.pid == pid
                &&& p.stdout_fd == output.read
                &&& p.stdin_data@ == req@.body
                &&& p.stdin_offset == 0
                &&& if req@.body.len() > 0 {
                    p.stdin_fd == Some(input.write) && r.1@ == seq![input.read, output.write]
                } else {
                    p.stdin_fd is None && r.1@ == seq![input.read, output.write, input.write]
                }
            },
        },
{
    let mut close: Vec<i32> = Vec::new();
    match event {
        SpawnEvent::NoInputPipe => (Err(CgiError::PipeFailed), close),
        SpawnEvent::NoOutputPipe { input } => {
            close.push(input.read);
            close.push(input.write);
            (Err(CgiError::PipeFailed), close)
        },
        SpawnEvent::NoProcess { input, output } => {
            close.push(input.read);
            close.push(input.write);
            close.push(output.read);
            close.push(output.write);
            (Err(CgiError::ForkFailed), close)
        },
        SpawnEvent::Forked { pid, input, output } => {
            close.push(input.read);
            close.push(output.write);
            let stdin_fd = if req.body.len() > 0 {
                Some(input.write)
            } else {
                close.push(input.write);
                None
            };
            let process = CgiProcess {
                pid,
                stdin_fd,
                stdin_data: bytes::copy_of(req.body.as_slice()),
                stdin_offset: 0,
                stdout_fd: output.read,
            };
            (Ok(process), close)
        },
    }
}

// ---------------------------------------------------------------------------
// Output of scripts
// ---------------------------------------------------------------------------

/// Cuts the output of a script at the first empty line.
fn cut_output(raw: &[u8]) -> (r: Option<(&[u8], &[u8])>)
    ensures
        match r {
            Some((head, body)) => output_parts(raw@) == Some((head@, body@)),
            None => output_parts(raw@) is None,
        },
{
    let n: usize = raw.len();
    let marked: [u8; 4] = [13u8, 10u8, 13u8, 10u8];
    assert(marked@ =~= bytes::blank_line());
    if let Some(i) = bytes::find_subsequence(raw, marked.as_slice()) {
        let head = slice_subrange(raw, 0, i);
        let body = slice_subrange(raw, i + 4, n);
        assert(head@ =~= raw@.take(i as int));
        assert(body@ =~= raw@.skip(i + 4));
        return Some((head, body));
    }
    let plain: [u8; 2] = [10u8, 10u8];
    assert(plain@ =~= seq![10u8, 10u8]);
    if let Some(i) = bytes::find_subsequence(raw, plain.as_slice()) {
        let head = slice_subrange(raw, 0, i);
        let body = slice_subrange(raw, i + 2, n);
        assert(head@ =~= raw@.take(i as int));
        assert(body@ =~= raw@.skip(i + 2));
        return Some((head, body));
    }
    None
}

/// Takes one more header line of a script.
fn read_header_line(resp: &mut CgiResponse, line: &[char])
    ensures
        final(resp)@ == header_line(old(resp)@, line@),
{
    if let Some((before, after)) = text::cut_at(line, ':') {
        let key = text::string_of(text::trimmed(before));
        let value = text::trimmed(after);
        let lower = text::to_lowercase(key.as_str());
        if text::same_text(lower.as_str(), "status") {
            let word = match text::cut_at(value, ' ') {
                Some((a, b)) => a,
                None => value,
            };
            if let Some(code) = number::read_unsigned(word, 10, u16::MAX as u64) {
                resp.status = code as u16;
            }
        } else {
            let ghost fields = pairs(resp.headers@);
            let v = text::string_of(value);
            let ghost added = (key@, v@);
            resp.headers.push((key, v));
            assert(pairs(resp.headers@) =~= fields.push(added));
        }
    }
}

/// The response that the output of a script writes.
pub fn parse_cgi_output(raw: Vec<u8>) -> (r: CgiResponse)
    ensures
        r@ == cgi_output(raw@),
{
    let no_headers: Vec<(String, String)> = Vec::new();
    assert(pairs(no_headers@) =~= Seq::empty());
    let (head, body) = match cut_output(raw.as_slice()) {
        Some((h, b)) => (h, bytes::copy_of(b)),
        None => {
            return CgiResponse { headers: no_headers, body: raw, status: 200 };
        },
    };
    let mut resp = CgiResponse { headers: no_headers, body, status: 200 };
    let chars = match text::decoded(head) {
        Some(c) => c,
        None => {
            return resp;
        },
    };
    let lines = text::lines_of(chars.as_slice());
    let ghost all = text::slices(lines@);
    let ghost model = header_lines(resp@, all, 0);
    let mut i: usize = 0;
    while i < lines.len()
        invariant
            i <= lines@.len(),
            all == text::slices(lines@),
            model == header_lines(resp@, all, i as int),
        decreases lines@.len() - i,
    {
        assert(all[i as int] == lines@[i as int]@);
        read_header_line(&mut resp, lines[i]);
        i = i + 1;
    }
    resp
}

// ---------------------------------------------------------------------------
// Laws
// ---------------------------------------------------------------------------

/// The header lines that a script writes.
pub open spec fn field_texts(fields: Seq<(Seq<char>, Seq<char>)>) -> Seq<Seq<char>> {
    fields.map_values(|f: (Seq<char>, Seq<char>)| wire::field_line(f))
}

/// What a script writes: header lines, an empty line and the body.
pub open spec fn script_output(
    fields: Seq<(Seq<char>, Seq<char>)>,
    line_end: Seq<char>,
    body: Seq<u8>,
) -> Seq<u8> {
    encode_utf8(text::joined(field_texts(fields), line_end)) + encode_utf8(line_end) + encode_utf8(
        line_end,
    ) + body
}

/// The response after the fields from `i` on: `Status` gives the status, any other field is kept.
pub open spec fn fields_taken(
    r: CgiResponseView,
    fields: Seq<(Seq<char>, Seq<char>)>,
    i: int,
) -> CgiResponseView
    decreases fields.len() - i,
{
    if i < 0 || i >= fields.len() {
        r
    } else {
        let (name, value) = fields[i];
        let next = if text::lowercase(name) != "status"@ {
            CgiResponseView { headers: r.headers.push((name, value)), ..r }
        } else {
            match number::parse_unsigned(first_word(value), 10, u16::MAX as nat) {
                Some(code) => CgiResponseView { status: code as u16, ..r },
                None => r,
            }
        };
        fields_taken(next, fields, i + 1)
    }
}

proof fn lemma_field_taken(r: CgiResponseView, f: (Seq<char>, Seq<char>))
    requires
        wire::writable_field(f),
    ensures
        header_line(r, wire::field_line(f)) == fields_taken(r, seq![f], 0),
{
    wire::lemma_cut(f.0, ':', seq![' '] + f.1);
    wire::lemma_trim_behind_space(f.1);
    reveal_with_fuel(fields_taken, 2);
}

proof fn lemma_fields_taken(r: CgiResponseView, fields: Seq<(Seq<char>, Seq<char>)>, i: int)
    requires
        0 <= i <= fields.len(),
        forall|k: int| 0 <= k < fields.len() ==> wire::writable_field(#[trigger] fields[k]),
    ensures
        header_lines(r, field_texts(fields), i) == fields_taken(r, fields, i),
    decreases fields.len() - i,
{
    if i < fields.len() {
        let f = fields[i];
        lemma_field_taken(r, f);
        reveal_with_fuel(fields_taken, 2);
        assert(seq![f][0] == f);
        lemma_fields_taken(header_line(r, wire::field_line(f)), fields, i + 1);
    }
}

/// The text of a header line is not empty and fits on a line.
proof fn lemma_field_text(f: (Seq<char>, Seq<char>))
    requires
        wire::writable_field(f),
    ensures
        wire::on_one_line(wire::field_line(f)),
        wire::field_line(f).len() > 0,
{
    let line = wire::field_line(f);
    if line.contains('\r') {
        let i = choose|i: int| 0 <= i < line.len() && line[i] == '\r';
        wire::lemma_field_chars(f, i);
    }
    if line.contains('\n') {
        let i = choose|i: int| 0 <= i < line.len() && line[i] == '\n';
        wire::lemma_field_chars(f, i);
    }
}

/// Lines that are joined by line ends, with or without a carriage return, are told apart again.
proof fn lemma_lines_of_joined(lines: Seq<Seq<char>>, with_cr: bool)
    requires
        forall|i: int|
            0 <= i < lines.len() ==> (#[trigger] lines[i]).len() > 0 && wire::on_one_line(lines[i]),
    ensures
        text::lines(
            text::joined(
                lines,
                if with_cr {
                    seq!['\r', '\n']
                } else {
                    seq!['\n']
                },
            ),
        ) == lines,
    decreases lines.len(),
{
    let line_end = if with_cr { seq!['\r', '\n'] } else { seq!['\n'] };
    let s = text::joined(lines, line_end);
    if lines.len() == 0 {
        assert(lines =~= Seq::empty());
    } else if lines.len() == 1 {
        let first = lines[0];
        seqs::lemma_index_from(first, '\n', 0);
        if let Some(i) = seqs::index_of(first, '\n') {
            assert(first.contains(first[i]));
        }
        assert(lines =~= seq![first]);
    } else {
        let first = lines[0];
        let rest = lines.drop_first();
        assert forall|i: int| 0 <= i < rest.len() implies (#[trigger] rest[i]).len() > 0
            && wire::on_one_line(rest[i]) by {
            assert(rest[i] == lines[i + 1]);
        }
        lemma_lines_of_joined(rest, with_cr);
        text::lemma_joined_first(lines, line_end);
        let head = if with_cr { first.push('\r') } else { first };
        assert(s =~= head + seq!['\n'] + text::joined(rest, line_end));
        let n = head.len() as int;
        assert forall|j: int| 0 <= j < n implies s[j] != '\n' by {
            if j < first.len() {
                assert(first.contains(first[j]));
            }
        }
        seqs::lemma_index_is(s, '\n', 0, n);
        assert(s.take(n) =~= head);
        assert(s.skip(n + 1) =~= text::joined(rest, line_end));
        assert(text::without_cr(head, '\r') =~= first) by {
            if with_cr {
                assert(head.drop_last() =~= first);
            } else {
                assert(first.contains(first.last()));
            }
        }
        assert(lines =~= seq![first] + rest);
    }
}

/// The encoding of joined lines is that of the lines, with line ends between them.
proof fn lemma_encoded_section(lines: Seq<Seq<char>>)
    ensures
        encode_utf8(text::joined(lines, seq!['\r', '\n'])) == wire::section(
            lines.map_values(|l: Seq<char>| encode_utf8(l)),
        ),
    decreases lines.len(),
{
    let line_end = seq!['\r', '\n'];
    let e = lines.map_values(|l: Seq<char>| encode_utf8(l));
    if lines.len() > 1 {
        let rest = lines.drop_first();
        lemma_encoded_section(rest);
        text::lemma_joined_first(lines, line_end);
        encoding::lemma_encode_concat(lines[0] + line_end, text::joined(rest, line_end));
        encoding::lemma_encode_concat(lines[0], line_end);
        is_ascii_chars_encode_utf8(line_end);
        assert(encode_utf8(line_end) =~= bytes::crlf());
        assert(e.drop_first() =~= rest.map_values(|l: Seq<char>| encode_utf8(l)));
    }
}

/// The first two line feeds in a row are those behind the lines.
proof fn lemma_plain_section_end(lines: Seq<Seq<char>>, body: Seq<u8>)
    requires
        lines.len() > 0,
        forall|i: int|
            0 <= i < lines.len() ==> (#[trigger] lines[i]).len() > 0 && wire::on_one_line(lines[i]),
    ensures
        ({
            let head = encode_utf8(text::joined(lines, seq!['\n']));
            &&& head.len() > 0 && head[0] != 10u8
            &&& seqs::find(head + seq![10u8, 10u8] + body, seq![10u8, 10u8]) == Some(
                head.len() as int,
            )
        }),
    decreases lines.len(),
{
    let line_end = seq!['\n'];
    let pair = seq![10u8, 10u8];
    let first = encode_utf8(lines[0]);
    wire::lemma_line_bytes(lines[0]);
    assert(first.contains(first[0]));
    if lines.len() == 1 {
        seqs::lemma_find_first_element(first, pair, body);
    } else {
        let rest = lines.drop_first();
        assert forall|i: int| 0 <= i < rest.len() implies (#[trigger] rest[i]).len() > 0
            && wire::on_one_line(rest[i]) by {
            assert(rest[i] == lines[i + 1]);
        }
        lemma_plain_section_end(rest, body);
        text::lemma_joined_first(lines, line_end);
        encoding::lemma_encode_concat(lines[0] + line_end, text::joined(rest, line_end));
        encoding::lemma_encode_concat(lines[0], line_end);
        encoding::lemma_ascii_char('\n');
        let behind = encode_utf8(text::joined(rest, line_end));
        let tail = behind + pair + body;
        let head = encode_utf8(text::joined(lines, line_end));
        assert(head =~= first + seq![10u8] + behind);
        let whole = head + pair + body;
        assert(whole =~= first + seq![10u8] + tail);
        let n = first.len() as int;
        let end = head.len() as int;
        assert(whole.subrange(end, end + 2) =~= pair);
        seqs::lemma_find_from(tail, pair, 0);
        assert forall|j: int| 0 <= j < end implies !seqs::occurs_at(whole, pair, j) by {
            if seqs::occurs_at(whole, pair, j) {
                let w = whole.subrange(j, j + 2);
                assert(w[0] == whole[j] && w[1] == whole[j + 1]);
                if j < n {
                    assert(first.contains(first[j]));
                } else if j == n {
                    assert(whole[j + 1] == behind[0]);
                } else {
                    assert(tail.subrange(j - n - 1, j - n + 1) =~= w);
                    assert(seqs::occurs_at(tail, pair, j - n - 1));
                }
            }
        }
        seqs::lemma_find_is(whole, pair, 0, end);
    }
}

/// What a script writes is read as it was meant: its header fields in their order, the status
/// among them, and its body. Lines may end in CR LF, or in LF alone as long as two ends of the
/// first kind stand nowhere in a row.
pub proof fn law_script_output_read_back(
    fields: Seq<(Seq<char>, Seq<char>)>,
    with_cr: bool,
    body: Seq<u8>,
)
    requires
        forall|i: int| 0 <= i < fields.len() ==> wire::writable_field(#[trigger] fields[i]),
        !with_cr ==> seqs::find(script_output(fields, seq!['\n'], body), bytes::blank_line())
            is None,
    ensures
        cgi_output(
            script_output(
                fields,
                if with_cr {
                    seq!['\r', '\n']
                } else {
                    seq!['\n']
                },
                body,
            ),
        ) == fields_taken(
            CgiResponseView { headers: Seq::empty(), body, status: 200 },
            fields,
            0,
        ),
{
    broadcast use {encode_utf8_valid_utf8, encode_utf8_decode_utf8};

    let line_end = if with_cr { seq!['\r', '\n'] } else { seq!['\n'] };
    let lines = field_texts(fields);
    let chars = text::joined(lines, line_end);
    let head = encode_utf8(chars);
    let raw = script_output(fields, line_end, body);
    assert forall|i: int| 0 <= i < lines.len() implies (#[trigger] lines[i]).len() > 0
        && wire::on_one_line(lines[i]) by {
        assert(wire::writable_field(fields[i]));
        lemma_field_text(fields[i]);
    }
    if with_cr {
        let bytes_of = lines.map_values(|l: Seq<char>| encode_utf8(l));
        lemma_encoded_section(lines);
        assert forall|i: int| 0 <= i < bytes_of.len() implies wire::plain_line(
            #[trigger] bytes_of[i],
        ) by {
            wire::lemma_line_bytes(lines[i]);
        }
        is_ascii_chars_encode_utf8(line_end);
        assert(encode_utf8(line_end) =~= bytes::crlf());
        assert(raw =~= head + bytes::blank_line() + body);
        if fields.len() > 0 {
            wire::lemma_section_end(bytes_of, body);
        } else {
            assert(raw.subrange(0, 4) =~= bytes::blank_line());
            seqs::lemma_find_is(raw, bytes::blank_line(), 0, 0);
        }
        assert(raw.skip(head.len() as int + 4) =~= body);
    } else {
        encoding::lemma_ascii_char('\n');
        assert(raw =~= head + seq![10u8, 10u8] + body);
        if fields.len() > 0 {
            lemma_plain_section_end(lines, body);
        } else {
            assert(raw.subrange(0, 2) =~= seq![10u8, 10u8]);
            seqs::lemma_find_is(raw, seq![10u8, 10u8], 0, 0);
        }
        assert(raw.skip(head.len() as int + 2) =~= body);
    }
    assert(raw.take(head.len() as int) =~= head);
    lemma_lines_of_joined(lines, with_cr);
    lemma_fields_taken(CgiResponseView { headers: Seq::empty(), body, status: 200 }, fields, 0);
}

/// Fields among which there is no `Status` are all kept.
proof fn lemma_plain_fields(r: CgiResponseView, fields: Seq<(Seq<char>, Seq<char>)>, i: int)
    requires
        0 <= i <= fields.len(),
        forall|j: int|
            i <= j < fields.len() ==> text::lowercase(#[trigger] fields[j].0) != "status"@,
    ensures
        fields_taken(r, fields, i) == (CgiResponseView {
            headers: r.headers + fields.skip(i),
            ..r
        }),
    decreases fields.len() - i,
{
    if i < fields.len() {
        assert(text::lowercase(fields[i].0) != "status"@);
        let next = CgiResponseView { headers: r.headers.push(fields[i]), ..r };
        lemma_plain_fields(next, fields, i + 1);
        assert(r.headers.push(fields[i]) + fields.skip(i + 1) =~= r.headers + fields.skip(i));
        assert(fields[i] == (fields[i].0, fields[i].1));
    } else {
        assert(r.headers + fields.skip(i) =~= r.headers);
    }
}

/// The `Status` in place `k` is taken, and the fields around it are kept.
proof fn lemma_status_field(
    r: CgiResponseView,
    fields: Seq<(Seq<char>, Seq<char>)>,
    i: int,
    k: int,
    code: u16,
)
    requires
        0 <= i <= k < fields.len(),
        forall|j: int|
            i <= j < fields.len() && j != k ==> text::lowercase(#[trigger] fields[j].0)
                != "status"@,
        text::lowercase(fields[k].0) == "status"@,
        number::parse_unsigned(first_word(fields[k].1), 10, u16::MAX as nat) == Some(code as nat),
    ensures
        fields_taken(r, fields, i) == (CgiResponseView {
            headers: r.headers + fields.subrange(i, k) + fields.skip(k + 1),
            status: code,
            ..r
        }),
    decreases k - i,
{
    if i < k {
        assert(text::lowercase(fields[i].0) != "status"@);
        let next = CgiResponseView { headers: r.headers.push(fields[i]), ..r };
        lemma_status_field(next, fields, i + 1, k, code);
        assert(r.headers.push(fields[i]) + fields.subrange(i + 1, k) =~= r.headers
            + fields.subrange(i, k));
        assert(fields[i] == (fields[i].0, fields[i].1));
    } else {
        let next = CgiResponseView { status: code, ..r };
        lemma_plain_fields(next, fields, k + 1);
        assert(r.headers + fields.subrange(k, k) =~= r.headers);
    }
}

/// The number in front of the reason of a status is the status.
proof fn lemma_status_value(code: u16, reason: Seq<char>)
    ensures
        first_word(number::decimal(code as nat) + seq![' '] + reason) == number::decimal(
            code as nat,
        ),
        first_word(number::decimal(code as nat)) == number::decimal(code as nat),
        number::parse_unsigned(number::decimal(code as nat), 10, u16::MAX as nat) == Some(
            code as nat,
        ),
{
    let digits = number::decimal(code as nat);
    number::lemma_written(code as nat, 10);
    number::law_written_reads_back(code as nat, 10, u16::MAX as nat);
    assert(!digits.contains(' '));
    wire::lemma_cut(digits, ' ', reason);
    wire::lemma_no_cut(digits, ' ');
}

/// The `Status` that a script writes, in whatever case and with or without a reason behind it, is
/// the status of its response and no header field; the other fields are kept in their order, and
/// all that stands behind the empty line is the body.
pub proof fn law_script_status(
    fields: Seq<(Seq<char>, Seq<char>)>,
    k: int,
    code: u16,
    reason: Seq<char>,
    with_reason: bool,
    body: Seq<u8>,
)
    requires
        forall|i: int| 0 <= i < fields.len() ==> wire::writable_field(#[trigger] fields[i]),
        0 <= k < fields.len(),
        text::lowercase(fields[k].0) == "status"@,
        fields[k].1 == if with_reason {
            number::decimal(code as nat) + seq![' '] + reason
        } else {
            number::decimal(code as nat)
        },
        forall|j: int|
            0 <= j < fields.len() && j != k ==> text::lowercase(#[trigger] fields[j].0)
                != "status"@,
    ensures
        ({
            let r = cgi_output(script_output(fields, seq!['\r', '\n'], body));
            &&& r.status == code
            &&& r.headers == fields.remove(k)
            &&& r.body == body
        }),
{
    let plain = CgiResponseView { headers: Seq::empty(), body, status: 200 };
    law_script_output_read_back(fields, true, body);
    lemma_status_value(code, reason);
    lemma_status_field(plain, fields, 0, k, code);
    assert(plain.headers + fields.subrange(0, k) + fields.skip(k + 1) =~= fields.remove(k));
}

/// Without a `Status` the status is 200, and every field that a script writes is kept.
pub proof fn law_script_without_status(fields: Seq<(Seq<char>, Seq<char>)>, body: Seq<u8>)
    requires
        forall|i: int| 0 <= i < fields.len() ==> wire::writable_field(#[trigger] fields[i]),
        forall|j: int|
            0 <= j < fields.len() ==> text::lowercase(#[trigger] fields[j].0) != "status"@,
    ensures
        ({
            let r = cgi_output(script_output(fields, seq!['\r', '\n'], body));
            &&& r.status == 200
            &&& r.headers == fields
            &&& r.body == body
        }),
{
    let plain = CgiResponseView { headers: Seq::empty(), body, status: 200 };
    law_script_output_read_back(fields, true, body);
    lemma_plain_fields(plain, fields, 0);
    assert(plain.headers + fields.skip(0) =~= fields);
}

/// Lines of a script may end in LF alone: what is read is the same.
pub proof fn law_script_line_ends(fields: Seq<(Seq<char>, Seq<char>)>, body: Seq<u8>)
    requires
        forall|i: int| 0 <= i < fields.len() ==> wire::writable_field(#[trigger] fields[i]),
        seqs::find(script_output(fields, seq!['\n'], body), bytes::blank_line()) is None,
    ensures
        cgi_output(script_output(fields, seq!['\n'], body)) == cgi_output(
            script_output(fields, seq!['\r', '\n'], body),
        ),
{
    law_script_output_read_back(fields, true, body);
    law_script_output_read_back(fields, false, body);
}

/// Output without an empty line is all body.
pub proof fn law_bare_output(raw: Seq<u8>)
    requires
        seqs::find(raw, seq![13u8, 10u8, 13u8, 10u8]) is None,
        seqs::find(raw, seq![10u8, 10u8]) is None,
    ensures
        cgi_output(raw).body == raw,
        cgi_output(raw).status == 200,
        cgi_output(raw).headers.len() == 0,
{
    assert(bytes::blank_line() =~= seq![13u8, 10u8, 13u8, 10u8]);
}

/// A script is told the method, the query string, the length and the type of the body, its own path
/// and the protocol, and, if the client gave them, the host and the cookies, and nothing else.
pub proof fn law_environment(script: Seq<char>, req: request::RequestView)
    ensures
        ({
            let env = environment(script, req);
            &&& env.contains(("REQUEST_METHOD"@, request::method_name(req.method)))
            &&& env.contains(("QUERY_STRING"@, req.query_string))
            &&& env.contains(("CONTENT_LENGTH"@, number::decimal(req.body.len())))
            &&& req.headers.contains_key("content-type"@) ==> env.contains(
                ("CONTENT_TYPE"@, req.headers["content-type"@]),
            )
            &&& !req.headers.contains_key("content-type"@) ==> env.contains(
                ("CONTENT_TYPE"@, Seq::<char>::empty()),
            )
            &&& env.contains(("PATH_INFO"@, script))
            &&& env.contains(("SCRIPT_FILENAME"@, script))
            &&& env.contains(("SERVER_PROTOCOL"@, "HTTP/1.1"@))
            &&& env.contains(("GATEWAY_INTERFACE"@, "CGI/1.1"@))
            &&& env.contains(("SERVER_SOFTWARE"@, "localhost/1.0"@))
            &&& req.headers.contains_key("host"@) ==> env.contains(
                ("HTTP_HOST"@, req.headers["host"@]),
            )
            &&& req.headers.contains_key("cookie"@) ==> env.contains(
                ("HTTP_COOKIE"@, req.headers["cookie"@]),
            )
            &&& env.len() == 9 + (if req.headers.contains_key("host"@) {
                1int
            } else {
                0
            }) + (if req.headers.contains_key("cookie"@) {
                1int
            } else {
                0
            })
        }),
{
    let env = environment(script, req);
    let common = common_variables(script, req);
    let host = optional_variable(req, "HTTP_HOST"@, "host"@);
    assert(env[0] == ("REQUEST_METHOD"@, request::method_name(req.method)));
    assert(env[1] == ("PATH_INFO"@, script));
    assert(env[2] == ("SCRIPT_FILENAME"@, script));
    assert(env[3] == ("QUERY_STRING"@, req.query_string));
    assert(env[4] == ("CONTENT_LENGTH"@, number::decimal(req.body.len())));
    assert(env[5] == ("CONTENT_TYPE"@, field_or_empty(req.headers, "content-type"@)));
    assert(env[6] == ("SERVER_PROTOCOL"@, "HTTP/1.1"@));
    assert(env[7] == ("GATEWAY_INTERFACE"@, "CGI/1.1"@));
    assert(env[8] == ("SERVER_SOFTWARE"@, "localhost/1.0"@));
    assert(common.len() == 9);
    if req.headers.contains_key("host"@) {
        assert(env[9] == ("HTTP_HOST"@, req.headers["host"@]));
    }
    if req.headers.contains_key("cookie"@) {
        let i = 9 + host.len() as int;
        assert(env[i] == ("HTTP_COOKIE"@, req.headers["cookie"@]));
    }
}

/// A script that is named by a relative path is found under the current directory, one that is
/// named by an absolute path where it says, and it runs in the directory that holds it.
pub proof fn law_script_place(current: Seq<char>, dir: Seq<char>, name: Seq<char>)
    requires
        path::file_name(name),
        dir.len() > 0,
        dir.last() != '/',
        dir.last() != '.',
        current.len() > 0,
        current.last() != '/',
    ensures
        dir[0] != '/' ==> absolute_script(dir + seq!['/'] + name, current) == current + seq!['/']
            + (dir + seq!['/'] + name),
        dir[0] == '/' ==> absolute_script(dir + seq!['/'] + name, current) == dir + seq!['/']
            + name,
        script_dir(dir + seq!['/'] + name) == dir,
        script_dir(current + seq!['/'] + (dir + seq!['/'] + name)) == current + seq!['/'] + dir,
{
    let script = dir + seq!['/'] + name;
    path::law_joined_paths(current, script);
    path::law_parent(dir, name);
    let whole = current + seq!['/'] + dir;
    path::law_parent(whole, name);
    assert(current + seq!['/'] + script =~= whole + seq!['/'] + name);
}

/// Every end of the pipes that were made for a script is either kept or closed, and none is both. The
/// ends of a script that runs are closed, its output is kept, and its input is kept exactly if there
/// is a body to send; of a script that does not run nothing is kept.
pub proof fn law_pipe_ends(pid: i32, input: Pipe, output: Pipe, has_body: bool)
    ensures
        ({
            let event = SpawnEvent::Forked { pid, input, output };
            let kept = kept_ends(event, has_body);
            let closed = closed_ends(event, has_body);
            &&& kept.len() + closed.len() == 4
            &&& kept[0] == output.read
            &&& closed.contains(input.read)
            &&& closed.contains(output.write)
            &&& has_body ==> kept[1] == input.write
            &&& !has_body ==> closed.contains(input.write)
        }),
        ({
            let event = SpawnEvent::NoProcess { input, output };
            let closed = closed_ends(event, has_body);
            &&& kept_ends(event, has_body).len() == 0
            &&& closed.len() == 4
            &&& closed.contains(input.read) && closed.contains(input.write)
            &&& closed.contains(output.read) && closed.contains(output.write)
        }),
        ({
            let event = SpawnEvent::NoOutputPipe { input };
            let closed = closed_ends(event, has_body);
            &&& kept_ends(event, has_body).len() == 0
            &&& closed.len() == 2
            &&& closed.contains(input.read) && closed.contains(input.write)
        }),
        closed_ends(SpawnEvent::NoInputPipe, has_body).len() == 0,
{
    let forked = closed_ends(SpawnEvent::Forked { pid, input, output }, has_body);
    assert(forked[0] == input.read && forked[1] == output.write);
    if !has_body {
        assert(forked[2] == input.write);
    }
    let failed = closed_ends(SpawnEvent::NoProcess { input, output }, has_body);
    assert(failed[0] == input.read && failed[1] == input.write);
    assert(failed[2] == output.read && failed[3] == output.write);
    let half = closed_ends(SpawnEvent::NoOutputPipe { input }, has_body);
    assert(half[0] == input.read && half[1] == input.write);
}

/// A header line of a script gives one more field, in its place; a `Status` gives the status if it
/// starts with a number, and else nothing; a line without a colon gives nothing.
pub proof fn law_script_header_line(r: CgiResponseView, f: (Seq<char>, Seq<char>), line: Seq<char>)
    requires
        wire::writable_field(f),
        !line.contains(':'),
    ensures
        text::lowercase(f.0) != "status"@ ==> header_line(r, f.0 + seq![':', ' '] + f.1) == (
        CgiResponseView { headers: r.headers.push(f), ..r }),
        text::lowercase(f.0) == "status"@ ==> (number::parse_unsigned(
            first_word(f.1),
            10,
            u16::MAX as nat,
        ) matches Some(n) ==> header_line(r, f.0 + seq![':', ' '] + f.1) == (CgiResponseView {
            status: n as u16,
            ..r
        })),
        text::lowercase(f.0) == "status"@ && number::parse_unsigned(
            first_word(f.1),
            10,
            u16::MAX as nat,
        ) is None ==> header_line(r, f.0 + seq![':', ' '] + f.1) == r,
        header_line(r, line) == r,
{
    wire::lemma_cut(f.0, ':', seq![' '] + f.1);
    wire::lemma_trim_behind_space(f.1);
    wire::lemma_no_cut(line, ':');
    assert(f.0 + seq![':', ' '] + f.1 =~= f.0 + seq![':'] + (seq![' '] + f.1));
    assert(f == (f.0, f.1));
}

/// The first word of a text ends at its first space.
pub proof fn law_first_word(a: Seq<char>, b: Seq<char>)
    requires
        !a.contains(' '),
    ensures
        first_word(a + seq![' '] + b) == a,
        first_word(a) == a,
{
    wire::lemma_cut(a, ' ', b);
    wire::lemma_no_cut(a, ' ');
}

/// Header lines are taken one after the other, from the first to the last.
pub proof fn law_script_header_lines(r: CgiResponseView, line: Seq<char>, rest: Seq<Seq<char>>)
    ensures
        header_lines(r, seq![line] + rest, 0) == header_lines(header_line(r, line), rest, 0),
        header_lines(r, Seq::empty(), 0) == r,
{
    let all = seq![line] + rest;
    assert(all[0] == line);
    assert(all.drop_first() =~= rest);
    lemma_lines_shift(header_line(r, line), all, rest, 0);
}

proof fn lemma_lines_shift(
    r: CgiResponseView,
    all: Seq<Seq<char>>,
    rest: Seq<Seq<char>>,
    i: int,
)
    requires
        0 <= i <= rest.len(),
        all.len() == rest.len() + 1,
        all.drop_first() == rest,
    ensures
        header_lines(r, all, i + 1) == header_lines(r, rest, i),
    decreases rest.len() - i,
{
    if i < rest.len() {
        assert(all.drop_first()[i] == all[i + 1]);
        lemma_lines_shift(header_line(r, rest[i]), all, rest, i + 1);
    }
}

/// Header lines say nothing of the body.
proof fn lemma_lines_keep_body(r: CgiResponseView, lines: Seq<Seq<char>>, i: int)
    requires
        0 <= i <= lines.len(),
    ensures
        header_lines(r, lines, i).body == r.body,
    decreases lines.len() - i,
{
    if i < lines.len() {
        lemma_lines_keep_body(header_line(r, lines[i]), lines, i + 1);
    }
}

/// The body of a script is all that stands behind the first empty line with ends of CR LF, or, if
/// there is none, behind the first with ends of LF; what stands before it are the header lines, and
/// says nothing if it is no UTF-8.
pub proof fn law_output_is_cut(raw: Seq<u8>, i: int, head: Seq<u8>)
    requires
        head == raw.take(i),
    ensures
        seqs::find(raw, seq![13u8, 10u8, 13u8, 10u8]) == Some(i) ==> {
            &&& cgi_output(raw).body == raw.skip(i + 4)
            &&& valid_utf8(head) ==> cgi_output(raw) == header_lines(
                CgiResponseView { headers: Seq::empty(), body: raw.skip(i + 4), status: 200 },
                text::lines(decode_utf8(head)),
                0,
            )
            &&& !valid_utf8(head) ==> cgi_output(raw).status == 200
                && cgi_output(raw).headers.len() == 0
        },
        seqs::find(raw, seq![13u8, 10u8, 13u8, 10u8]) is None && seqs::find(raw, seq![10u8, 10u8])
            == Some(i) ==> {
            &&& cgi_output(raw).body == raw.skip(i + 2)
            &&& valid_utf8(head) ==> cgi_output(raw) == header_lines(
                CgiResponseView { headers: Seq::empty(), body: raw.skip(i + 2), status: 200 },
                text::lines(decode_utf8(head)),
                0,
            )
            &&& !valid_utf8(head) ==> cgi_output(raw).status == 200
                && cgi_output(raw).headers.len() == 0
        },
{
    assert(bytes::blank_line() =~= seq![13u8, 10u8, 13u8, 10u8]);
    let long = CgiResponseView { headers: Seq::empty(), body: raw.skip(i + 4), status: 200 };
    let short = CgiResponseView { headers: Seq::empty(), body: raw.skip(i + 2), status: 200 };
    lemma_lines_keep_body(long, text::lines(decode_utf8(head)), 0);
    lemma_lines_keep_body(short, text::lines(decode_utf8(head)), 0);
}

} // verus!
