//! Incremental parser of HTTP/1.1 requests.

use crate::bytes;
use crate::encoding;
use crate::number;
use crate::seqs;
use crate::string_map::StringMap;
use crate::text;
use vstd::prelude::*;
use vstd::slice::slice_subrange;
use vstd::utf8::*;

verus! {

// ---------------------------------------------------------------------------
// Model
// ---------------------------------------------------------------------------

/// A request method.
pub enum MethodView {
    Get,
    Post,
    Delete,
    Other(Seq<char>),
}

/// The method of the given name.
pub open spec fn method_named(s: Seq<char>) -> MethodView {
    if s == "GET"@ {
        MethodView::Get
    } else if s == "POST"@ {
        MethodView::Post
    } else if s == "DELETE"@ {
        MethodView::Delete
    } else {
        MethodView::Other(s)
    }
}

/// The name of a method.
pub open spec fn method_name(m: MethodView) -> Seq<char> {
    match m {
        MethodView::Get => "GET"@,
        MethodView::Post => "POST"@,
        MethodView::Delete => "DELETE"@,
        MethodView::Other(s) => s,
    }
}

/// A complete request.
#[verifier::ext_equal]
pub struct RequestView {
    pub method: MethodView,
    pub uri: Seq<char>,
    pub version: Seq<char>,
    pub headers: Map<Seq<char>, Seq<char>>,
    pub body: Seq<u8>,
    pub query_string: Seq<char>,
}

/// The parts of a request line.
#[verifier::ext_equal]
pub struct RequestLine {
    pub method: Seq<char>,
    pub uri: Seq<char>,
    pub query_string: Seq<char>,
    pub version: Seq<char>,
}

/// A request line is a method, a target and a version, separated by single spaces; the first
/// question mark of the target starts the query string.
pub open spec fn request_line(line: Seq<char>) -> Result<RequestLine, Seq<char>> {
    match text::cut(line, ' ') {
        None => Err("Missing URI"@),
        Some((method, rest)) => match text::cut(rest, ' ') {
            None => Err("Missing HTTP version"@),
            Some((target, version)) => match text::cut(target, '?') {
                Some((uri, query_string)) => Ok(RequestLine { method, uri, query_string, version }),
                None => Ok(
                    RequestLine { method, uri: target, query_string: Seq::empty(), version },
                ),
            },
        },
    }
}

/// The header fields that the lines write, added to `fields`: up to the first empty line, every
/// line with a colon gives the lowercase of what precedes it the value that follows it, both
/// without surrounding white space. A later line of the same name replaces an earlier one.
pub open spec fn header_fields(
    lines: Seq<Seq<u8>>,
    fields: Map<Seq<char>, Seq<char>>,
) -> Result<Map<Seq<char>, Seq<char>>, Seq<char>>
    decreases lines.len(),
{
    if lines.len() == 0 {
        Ok(fields)
    } else {
        let line = text::without_cr(lines[0], 13u8);
        if line.len() == 0 {
            Ok(fields)
        } else {
            match seqs::index_of(line, 58u8) {
                None => header_fields(lines.drop_first(), fields),
                Some(colon) => {
                    let name = line.take(colon);
                    let value = line.skip(colon + 1);
                    if !valid_utf8(name) {
                        Err("Non-UTF8 header key"@)
                    } else if !valid_utf8(value) {
                        Err("Non-UTF8 header value"@)
                    } else {
                        header_fields(
                            lines.drop_first(),
                            fields.insert(
                                text::lowercase(text::trim(decode_utf8(name))),
                                text::trim(decode_utf8(value)),
                            ),
                        )
                    }
                },
            }
        }
    }
}

/// The request line and the header fields of a header section.
pub open spec fn head(section: Seq<u8>) -> Result<
    (RequestLine, Map<Seq<char>, Seq<char>>),
    Seq<char>,
> {
    let lines = seqs::split(section, 10u8);
    let first = text::without_cr(lines[0], 13u8);
    if !valid_utf8(first) {
        Err("Non-UTF8 request line"@)
    } else {
        match request_line(decode_utf8(first)) {
            Err(e) => Err(e),
            Ok(line) => match header_fields(lines.drop_first(), Map::empty()) {
                Err(e) => Err(e),
                Ok(fields) => Ok((line, fields)),
            },
        }
    }
}

/// The size that a chunk announces, and where its data starts.
pub open spec fn chunk_head(data: Seq<u8>) -> Option<(nat, int)> {
    match seqs::find(data, bytes::crlf()) {
        None => None,
        Some(e) => if valid_utf8(data.take(e)) {
            match number::parse_unsigned(
                text::trim(decode_utf8(data.take(e))),
                16,
                usize::MAX as nat,
            ) {
                Some(size) => Some((size, e + 2)),
                None => None,
            }
        } else {
            None
        },
    }
}

/// The body that a sequence of chunks carries, once the last chunk, of size zero, is there. Each
/// chunk is its size in hexadecimal, a line end, its data and two more bytes.
pub open spec fn unchunked(data: Seq<u8>) -> Option<Seq<u8>>
    decreases data.len(),
{
    match chunk_head(data) {
        None => None,
        Some((size, start)) => if size == 0 {
            Some(Seq::empty())
        } else if start + size + 2 > data.len() {
            None
        } else {
            proof {
                seqs::lemma_find_from(data, bytes::crlf(), 0);
            }
            match unchunked(data.skip(start + size + 2)) {
                Some(rest) => Some(data.subrange(start, start + size) + rest),
                None => None,
            }
        },
    }
}

/// No chunk, of those that stand before the first incomplete one or are it, announces a size with
/// which its end, counted from the start of the body, exceeds what `usize` holds. The chunks of
/// `data` start at `pos`.
pub open spec fn chunk_sizes_fit(data: Seq<u8>, pos: int) -> bool
    decreases data.len(),
{
    match chunk_head(data) {
        None => true,
        Some((size, start)) => if size == 0 {
            true
        } else if pos + start + size + 2 > usize::MAX {
            false
        } else if start + size + 2 > data.len() {
            true
        } else {
            proof {
                seqs::lemma_find_from(data, bytes::crlf(), 0);
            }
            chunk_sizes_fit(data.skip(start + size + 2), pos + start + size + 2)
        },
    }
}

/// A body, or why there is none.
pub enum BodyView {
    Complete(Seq<u8>),
    Incomplete,
    TooLarge,
    Invalid(Seq<char>),
}

/// The header fields announce a chunked body.
pub open spec fn is_chunked(fields: Map<Seq<char>, Seq<char>>) -> bool {
    fields.contains_key("transfer-encoding"@) && seqs::find(
        text::lowercase(fields["transfer-encoding"@]),
        "chunked"@,
    ) is Some
}

/// The body at the start of `data`, as the header fields announce it.
pub open spec fn body(fields: Map<Seq<char>, Seq<char>>, data: Seq<u8>, max: nat) -> BodyView {
    if is_chunked(fields) {
        match unchunked(data) {
            Some(b) => if b.len() > max {
                BodyView::TooLarge
            } else {
                BodyView::Complete(b)
            },
            None => BodyView::Incomplete,
        }
    } else if !fields.contains_key("transfer-encoding"@) && fields.contains_key("content-length"@) {
        match number::parse_unsigned(fields["content-length"@], 10, usize::MAX as nat) {
            None => BodyView::Invalid("Invalid Content-Length"@),
            Some(n) => if n > max {
                BodyView::TooLarge
            } else if data.len() < n {
                BodyView::Incomplete
            } else {
                BodyView::Complete(data.take(n as int))
            },
        }
    } else {
        BodyView::Complete(Seq::empty())
    }
}

/// What a buffer holds.
pub enum ParseView {
    Complete(RequestView),
    Incomplete,
    TooLarge,
    Invalid(Seq<char>),
}

/// The request at the start of the buffer, where bodies of up to `max` bytes are accepted.
pub open spec fn parsed(buffer: Seq<u8>, max: nat) -> ParseView {
    match seqs::find(buffer, bytes::blank_line()) {
        None => ParseView::Incomplete,
        Some(end) => match head(buffer.take(end)) {
            Err(e) => ParseView::Invalid(e),
            Ok((line, fields)) => match body(fields, buffer.skip(end + 4), max) {
                BodyView::Incomplete => ParseView::Incomplete,
                BodyView::TooLarge => ParseView::TooLarge,
                BodyView::Invalid(e) => ParseView::Invalid(e),
                BodyView::Complete(b) => ParseView::Complete(
                    RequestView {
                        method: method_named(line.method),
                        uri: line.uri,
                        version: line.version,
                        headers: fields,
                        body: b,
                        query_string: line.query_string,
                    },
                ),
            },
        },
    }
}

/// The buffer holds no chunk whose end exceeds what `usize` holds.
pub open spec fn sizes_fit(buffer: Seq<u8>) -> bool {
    match seqs::find(buffer, bytes::blank_line()) {
        None => true,
        Some(end) => match head(buffer.take(end)) {
            Err(_) => true,
            Ok((line, fields)) => is_chunked(fields) ==> chunk_sizes_fit(buffer.skip(end + 4), 0),
        },
    }
}

/// The host that the request at the start of the buffer names, if its head is there and can be
/// read.
pub open spec fn named_host(buffer: Seq<u8>) -> Seq<char> {
    match seqs::find(buffer, bytes::blank_line()) {
        None => Seq::empty(),
        Some(end) => match head(buffer.take(end)) {
            Err(_) => Seq::empty(),
            Ok((line, fields)) => if fields.contains_key("host"@) {
                fields["host"@]
            } else {
                Seq::empty()
            },
        },
    }
}

// ---------------------------------------------------------------------------
// Types
// ---------------------------------------------------------------------------

/// A request method.
#[derive(Debug, Clone, PartialEq)]
pub enum Method {
    Get,
    Post,
    Delete,
    Other(String),
}

impl View for Method {
    type V = MethodView;

    open spec fn view(&self) -> MethodView {
        match *self {
            Method::Get => MethodView::Get,
            Method::Post => MethodView::Post,
            Method::Delete => MethodView::Delete,
            Method::Other(s) => MethodView::Other(s@),
        }
    }
}

impl Method {
    /// The method of the given name.
    pub fn from_str(s: &str) -> (r: Method)
        ensures
            r@ == method_named(s@),
    {
        if text::same_text(s, "GET") {
            Method::Get
        } else if text::same_text(s, "POST") {
            Method::Post
        } else if text::same_text(s, "DELETE") {
            Method::Delete
        } else {
            Method::Other(s.to_owned())
        }
    }

    /// The name of the method.
    pub fn as_str(&self) -> (r: &str)
        ensures
            r@ == method_name(self@),
    {
        match self {
            Method::Get => "GET",
            Method::Post => "POST",
            Method::Delete => "DELETE",
            Method::Other(s) => s.as_str(),
        }
    }
}

/// A complete request.
#[derive(Debug, Clone)]
pub struct Request {
    pub method: Method,
    pub uri: String,
    pub version: String,
    pub headers: StringMap,
    pub body: Vec<u8>,
    pub query_string: String,
}

impl View for Request {
    type V = RequestView;

    open spec fn view(&self) -> RequestView {
        RequestView {
            method: self.method@,
            uri: self.uri@,
            version: self.version@,
            headers: self.headers@,
            body: self.body@,
            query_string: self.query_string@,
        }
    }
}

/// Why a buffer holds no acceptable request.
#[derive(Debug)]
pub enum ParseError {
    Invalid(String),
    TooLarge,
}

impl ParseError {
    /// The error in words.
    pub fn message(&self) -> (r: String)
        ensures
            match *self {
                ParseError::Invalid(s) => r@ == "Invalid request: "@ + s@,
                ParseError::TooLarge => r@ == "Request entity too large"@,
            },
    {
        match self {
            ParseError::Invalid(s) => {
                let mut m = "Invalid request: ".to_owned();
                m.append(s.as_str());
                m
            },
            ParseError::TooLarge => "Request entity too large".to_owned(),
        }
    }
}

/// What the outcome of a parse stands for.
pub open spec fn outcome_view(r: Result<Option<Request>, ParseError>) -> ParseView {
    match r {
        Ok(Some(req)) => ParseView::Complete(req@),
        Ok(None) => ParseView::Incomplete,
        Err(ParseError::TooLarge) => ParseView::TooLarge,
        Err(ParseError::Invalid(m)) => ParseView::Invalid(m@),
    }
}

/// What decoding a chunked body comes to.
pub enum Chunked {
    Body(Vec<u8>),
    Incomplete,
    SizeOverflow,
}

// ---------------------------------------------------------------------------
// Chunked bodies
// ---------------------------------------------------------------------------

/// Decodes a chunked body, or reports that a chunk's end exceeds what `usize` holds.
pub fn decode_chunks(data: &[u8]) -> (r: Chunked)
    ensures
        r is SizeOverflow <==> !chunk_sizes_fit(data@, 0),
        match r {
            Chunked::Body(b) => unchunked(data@) == Some(b@),
            Chunked::Incomplete => unchunked(data@) is None,
            Chunked::SizeOverflow => true,
        },
{
    let n: usize = data.len();
    let line_end: [u8; 2] = [13u8, 10u8];
    assert(line_end@ =~= bytes::crlf());
    let mut result: Vec<u8> = Vec::new();
    let mut pos: usize = 0;
    assert(data@.skip(0) =~= data@);
    proof {
        if unchunked(data@) is Some {
            assert(result@ + unchunked(data@)->0 =~= unchunked(data@)->0);
        }
    }
    loop
        invariant
            n == data@.len(),
            pos <= n,
            line_end@ == bytes::crlf(),
            chunk_sizes_fit(data@, 0) == chunk_sizes_fit(data@.skip(pos as int), pos as int),
            unchunked(data@) is Some == unchunked(data@.skip(pos as int)) is Some,
            unchunked(data@) is Some ==> unchunked(data@)->0 == result@ + unchunked(
                data@.skip(pos as int),
            )->0,
        decreases n - pos,
    {
        let rest = slice_subrange(data, pos, n);
        let ghost d = data@.skip(pos as int);
        assert(rest@ =~= d);
        let end: usize = match bytes::find_subsequence(rest, line_end.as_slice()) {
            Some(e) => e,
            None => {
                return Chunked::Incomplete;
            },
        };
        let line = slice_subrange(rest, 0, end);
        assert(line@ =~= d.take(end as int));
        let chars = match text::decoded(line) {
            Some(c) => c,
            None => {
                return Chunked::Incomplete;
            },
        };
        let size: usize = match number::read_unsigned(
            text::trimmed(chars.as_slice()),
            16,
            usize::MAX as u64,
        ) {
            Some(v) => v as usize,
            None => {
                return Chunked::Incomplete;
            },
        };
        assert(chunk_head(d) == Some((size as nat, end + 2)));
        if size == 0 {
            assert(result@ + unchunked(d)->0 =~= result@);
            return Chunked::Body(result);
        }
        let start: usize = pos + end + 2;
        if size > usize::MAX - start || size + start > usize::MAX - 2 {
            return Chunked::SizeOverflow;
        }
        if start + size + 2 > n {
            return Chunked::Incomplete;
        }
        let chunk = slice_subrange(data, start, start + size);
        assert(chunk@ =~= d.subrange(end + 2, end + 2 + size));
        let ghost before = result@;
        bytes::append_bytes(&mut result, chunk);
        assert(d.skip(end + 2 + size + 2) =~= data@.skip(start + size + 2));
        proof {
            if unchunked(d) is Some {
                let r = unchunked(data@.skip(start + size + 2))->0;
                assert(before + (chunk@ + r) =~= (before + chunk@) + r);
            }
        }
        pos = start + size + 2;
    }
}

/// Decodes a chunked body, once all of it is there.
pub fn decode_chunked(data: &[u8]) -> (r: Option<Vec<u8>>)
    requires
        chunk_sizes_fit(data@, 0),
    ensures
        match r {
            Some(b) => unchunked(data@) == Some(b@),
            None => unchunked(data@) is None,
        },
{
    match decode_chunks(data) {
        Chunked::Body(b) => Some(b),
        _ => None,
    }
}

// ---------------------------------------------------------------------------
// Header sections
// ---------------------------------------------------------------------------

/// The parts of a request line.
struct LineParts {
    method: String,
    uri: String,
    query_string: String,
    version: String,
}

impl View for LineParts {
    type V = RequestLine;

    closed spec fn view(&self) -> RequestLine {
        RequestLine {
            method: self.method@,
            uri: self.uri@,
            query_string: self.query_string@,
            version: self.version@,
        }
    }
}

/// An error for a request that is malformed.
fn invalid(message: &str) -> (r: ParseError)
    ensures
        r matches ParseError::Invalid(m) && m@ == message@,
{
    ParseError::Invalid(message.to_owned())
}

/// `r` reports the message of `e`.
spec fn reports(r: ParseError, e: Seq<char>) -> bool {
    r matches ParseError::Invalid(m) && m@ == e
}

fn read_request_line(line: &[char]) -> (r: Result<LineParts, ParseError>)
    ensures
        match r {
            Ok(p) => request_line(line@) == Ok::<RequestLine, Seq<char>>(p@),
            Err(e) => request_line(line@) is Err && reports(e, request_line(line@)->Err_0),
        },
{
    let (method, rest) = match text::cut_at(line, ' ') {
        Some(p) => p,
        None => {
            return Err(invalid("Missing URI"));
        },
    };
    let (target, version) = match text::cut_at(rest, ' ') {
        Some(p) => p,
        None => {
            return Err(invalid("Missing HTTP version"));
        },
    };
    let (uri, query_string) = match text::cut_at(target, '?') {
        Some((u, q)) => (text::string_of(u), text::string_of(q)),
        None => (text::string_of(target), String::new()),
    };
    Ok(
        LineParts {
            method: text::string_of(method),
            uri,
            query_string,
            version: text::string_of(version),
        },
    )
}

/// The header fields of all lines but the first.
fn read_header_fields(lines: &Vec<&[u8]>) -> (r: Result<StringMap, ParseError>)
    requires
        lines@.len() > 0,
    ensures
        ({
            let model = header_fields(bytes::slices(lines@).drop_first(), Map::empty());
            match r {
                Ok(h) => model == Ok::<Map<Seq<char>, Seq<char>>, Seq<char>>(h@),
                Err(e) => model is Err && reports(e, model->Err_0),
            }
        }),
{
    let ghost all = bytes::slices(lines@);
    let ghost model = header_fields(all.drop_first(), Map::empty());
    let mut headers = StringMap::new();
    let mut i: usize = 1;
    assert(all.skip(1) =~= all.drop_first());
    while i < lines.len()
        invariant
            1 <= i <= lines@.len(),
            all == bytes::slices(lines@),
            model == header_fields(all.drop_first(), Map::empty()),
            model == header_fields(all.skip(i as int), headers@),
        decreases lines@.len() - i,
    {
        assert(all.skip(i as int)[0] == lines@[i as int]@);
        assert(all.skip(i as int).drop_first() =~= all.skip(i + 1));
        let line = bytes::strip_cr(lines[i]);
        let n: usize = line.len();
        if n == 0 {
            return Ok(headers);
        }
        match bytes::position_of(line, 58u8) {
            Some(colon) => {
                assert(line@.subrange(0, colon as int) =~= line@.take(colon as int));
                assert(line@.subrange(colon + 1, n as int) =~= line@.skip(colon + 1));
                let name = match text::decoded(slice_subrange(line, 0, colon)) {
                    Some(c) => c,
                    None => {
                        return Err(invalid("Non-UTF8 header key"));
                    },
                };
                let value = match text::decoded(slice_subrange(line, colon + 1, n)) {
                    Some(c) => c,
                    None => {
                        return Err(invalid("Non-UTF8 header value"));
                    },
                };
                let key = text::to_lowercase(
                    text::string_of(text::trimmed(name.as_slice())).as_str(),
                );
                headers.insert(key, text::string_of(text::trimmed(value.as_slice())));
            },
            None => {},
        }
        i = i + 1;
    }
    assert(all.skip(i as int).len() == 0);
    Ok(headers)
}

/// The request line and the header fields of a header section.
fn read_head(section: &[u8]) -> (r: Result<(LineParts, StringMap), ParseError>)
    ensures
        match r {
            Ok((line, headers)) => head(section@) == Ok::<
                (RequestLine, Map<Seq<char>, Seq<char>>),
                Seq<char>,
            >((line@, headers@)),
            Err(e) => head(section@) is Err && reports(e, head(section@)->Err_0),
        },
{
    let lines = bytes::split_at_byte(section, 10u8);
    assert(bytes::slices(lines@)[0] == lines@[0]@);
    let first = match text::decoded(bytes::strip_cr(lines[0])) {
        Some(c) => c,
        None => {
            return Err(invalid("Non-UTF8 request line"));
        },
    };
    let line = match read_request_line(first.as_slice()) {
        Ok(l) => l,
        Err(e) => {
            return Err(e);
        },
    };
    match read_header_fields(&lines) {
        Ok(headers) => Ok((line, headers)),
        Err(e) => Err(e),
    }
}

/// What a buffer comes to.
enum Parsed {
    Complete(Request),
    Incomplete,
    Failed(ParseError),
    SizeOverflow,
}

/// What a body comes to.
enum BodyRead {
    Complete(Vec<u8>),
    Incomplete,
    Failed(ParseError),
    SizeOverflow,
}

/// The body at the start of `data`.
fn read_body(headers: &StringMap, data: &[u8], max: usize) -> (r: BodyRead)
    ensures
        r is SizeOverflow <==> is_chunked(headers@) && !chunk_sizes_fit(data@, 0),
        match r {
            BodyRead::Complete(b) => body(headers@, data@, max as nat) == BodyView::Complete(b@),
            BodyRead::Incomplete => body(headers@, data@, max as nat) == BodyView::Incomplete,
            BodyRead::Failed(ParseError::TooLarge) => body(headers@, data@, max as nat)
                == BodyView::TooLarge,
            BodyRead::Failed(ParseError::Invalid(m)) => body(headers@, data@, max as nat)
                == BodyView::Invalid(m@),
            BodyRead::SizeOverflow => true,
        },
{
    match headers.get("transfer-encoding") {
        Some(te) => {
            let lower = text::to_lowercase(te.as_str());
            let coding = text::chars_of(lower.as_str());
            if text::contains_text(coding.as_slice(), "chunked") {
                match decode_chunks(data) {
                    Chunked::Body(b) => if b.len() > max {
                        BodyRead::Failed(ParseError::TooLarge)
                    } else {
                        BodyRead::Complete(b)
                    },
                    Chunked::Incomplete => BodyRead::Incomplete,
                    Chunked::SizeOverflow => BodyRead::SizeOverflow,
                }
            } else {
                let none: Vec<u8> = Vec::new();
                BodyRead::Complete(none)
            }
        },
        None => match headers.get("content-length") {
            Some(cl) => {
                let digits = text::chars_of(cl.as_str());
                match number::read_unsigned(digits.as_slice(), 10, usize::MAX as u64) {
                    None => BodyRead::Failed(invalid("Invalid Content-Length")),
                    Some(v) => {
                        let length: usize = v as usize;
                        if length > max {
                            BodyRead::Failed(ParseError::TooLarge)
                        } else if data.len() < length {
                            BodyRead::Incomplete
                        } else {
                            assert(data@.subrange(0, length as int) =~= data@.take(length as int));
                            BodyRead::Complete(bytes::copy_of(slice_subrange(data, 0, length)))
                        }
                    },
                }
            },
            None => {
                let none: Vec<u8> = Vec::new();
                BodyRead::Complete(none)
            },
        },
    }
}

// ---------------------------------------------------------------------------
// Parser
// ---------------------------------------------------------------------------

/// Collects the bytes of a connection until they make a request.
pub struct RequestParser {
    buffer: Vec<u8>,
    max_body_size: usize,
}

impl RequestParser {
    /// The bytes collected so far.
    pub closed spec fn buffer(&self) -> Seq<u8> {
        self.buffer@
    }

    /// The size of the largest body that is accepted.
    pub closed spec fn max_body_size(&self) -> nat {
        self.max_body_size as nat
    }

    /// A parser that has collected nothing.
    pub fn new(max_body_size: usize) -> (r: RequestParser)
        ensures
            r.buffer() == Seq::<u8>::empty(),
            r.max_body_size() == max_body_size,
    {
        RequestParser { buffer: Vec::new(), max_body_size }
    }

    /// Appends bytes that arrived.
    pub fn feed(&mut self, data: &[u8])
        ensures
            final(self).buffer() == old(self).buffer() + data@,
            final(self).max_body_size() == old(self).max_body_size(),
    {
        bytes::append_bytes(&mut self.buffer, data);
    }

    /// Parses what was collected, or reports that a chunk's end exceeds what `usize` holds.
    fn parse(&self) -> (r: Parsed)
        ensures
            r is SizeOverflow <==> !sizes_fit(self.buffer()),
            match r {
                Parsed::Complete(req) => parsed(self.buffer(), self.max_body_size())
                    == ParseView::Complete(req@),
                Parsed::Incomplete => parsed(self.buffer(), self.max_body_size())
                    == ParseView::Incomplete,
                Parsed::Failed(ParseError::TooLarge) => parsed(self.buffer(), self.max_body_size())
                    == ParseView::TooLarge,
                Parsed::Failed(ParseError::Invalid(m)) => parsed(
                    self.buffer(),
                    self.max_body_size(),
                ) == ParseView::Invalid(m@),
                Parsed::SizeOverflow => true,
            },
    {
        let buffer = self.buffer.as_slice();
        let n: usize = buffer.len();
        let separator: [u8; 4] = [13u8, 10u8, 13u8, 10u8];
        assert(separator@ =~= bytes::blank_line());
        let end: usize = match bytes::find_subsequence(buffer, separator.as_slice()) {
            Some(e) => e,
            None => {
                return Parsed::Incomplete;
            },
        };
        let section = slice_subrange(buffer, 0, end);
        assert(section@ =~= self.buffer().take(end as int));
        let (line, headers) = match read_head(section) {
            Ok(h) => h,
            Err(e) => {
                return Parsed::Failed(e);
            },
        };
        let rest = slice_subrange(buffer, end + 4, n);
        assert(rest@ =~= self.buffer().skip(end + 4));
        match read_body(&headers, rest, self.max_body_size) {
            BodyRead::Complete(body) => Parsed::Complete(
                Request {
                    method: Method::from_str(line.method.as_str()),
                    uri: line.uri,
                    version: line.version,
                    headers,
                    body,
                    query_string: line.query_string,
                },
            ),
            BodyRead::Incomplete => Parsed::Incomplete,
            BodyRead::Failed(e) => Parsed::Failed(e),
            BodyRead::SizeOverflow => Parsed::SizeOverflow,
        }
    }

    /// Parses what was collected: the request, nothing while it is incomplete, or the reason to
    /// refuse it. The buffer stays as it is.
    pub fn try_parse(&mut self) -> (r: Result<Option<Request>, ParseError>)
        requires
            sizes_fit(old(self).buffer()),
        ensures
            *final(self) == *old(self),
            outcome_view(r) == parsed(old(self).buffer(), old(self).max_body_size()),
    {
        match self.parse() {
            Parsed::Complete(req) => Ok(Some(req)),
            Parsed::Incomplete => Ok(None),
            Parsed::Failed(e) => Err(e),
            Parsed::SizeOverflow => Ok(None),
        }
    }

    /// As `try_parse`, but of any buffer: `None` where a chunk's end exceeds what `usize` holds.
    pub fn checked_parse(&mut self) -> (r: Option<Result<Option<Request>, ParseError>>)
        ensures
            *final(self) == *old(self),
            r is Some <==> sizes_fit(old(self).buffer()),
            r matches Some(o) ==> outcome_view(o) == parsed(
                old(self).buffer(),
                old(self).max_body_size(),
            ),
    {
        match self.parse() {
            Parsed::SizeOverflow => None,
            _ => Some(self.try_parse()),
        }
    }

    /// The host that the request names, if its head is there and can be read.
    pub fn host(&self) -> (r: String)
        ensures
            r@ == named_host(self.buffer()),
    {
        let buffer = self.buffer.as_slice();
        let separator: [u8; 4] = [13u8, 10u8, 13u8, 10u8];
        assert(separator@ =~= bytes::blank_line());
        let end: usize = match bytes::find_subsequence(buffer, separator.as_slice()) {
            Some(e) => e,
            None => {
                return String::new();
            },
        };
        let section = slice_subrange(buffer, 0, end);
        assert(section@ =~= self.buffer().take(end as int));
        match read_head(section) {
            Ok((_, headers)) => match headers.get("host") {
                Some(host) => host.clone(),
                None => String::new(),
            },
            Err(_) => String::new(),
        }
    }

    /// Forgets what was collected.
    pub fn reset(&mut self)
        ensures
            final(self).buffer() == Seq::<u8>::empty(),
            final(self).max_body_size() == old(self).max_body_size(),
    {
        self.buffer.clear();
    }
}

// ---------------------------------------------------------------------------
// Laws
// ---------------------------------------------------------------------------

/// A body that is complete stays the same whatever follows it.
proof fn lemma_unchunked_extends(data: Seq<u8>, extra: Seq<u8>)
    requires
        unchunked(data) is Some,
    ensures
        unchunked(data + extra) == unchunked(data),
    decreases data.len(),
{
    let whole = data + extra;
    seqs::lemma_find_from(data, bytes::crlf(), 0);
    seqs::lemma_find_extends(data, bytes::crlf(), extra);
    let e = seqs::find(data, bytes::crlf())->0;
    assert(whole.take(e) =~= data.take(e));
    assert(chunk_head(whole) == chunk_head(data));
    let (size, start) = chunk_head(data)->0;
    if size != 0 {
        let next = start + size + 2;
        assert(whole.skip(next) =~= data.skip(next) + extra);
        assert(whole.subrange(start, start + size) =~= data.subrange(start, start + size));
        lemma_unchunked_extends(data.skip(next), extra);
    }
}

/// Once a buffer is decided, as a request or as a refusal, more bytes do not change the decision.
pub proof fn law_decided_stays_decided(buffer: Seq<u8>, extra: Seq<u8>, max: nat)
    requires
        !(parsed(buffer, max) is Incomplete),
    ensures
        parsed(buffer + extra, max) == parsed(buffer, max),
{
    let whole = buffer + extra;
    let sep = bytes::blank_line();
    seqs::lemma_find_from(buffer, sep, 0);
    seqs::lemma_find_extends(buffer, sep, extra);
    let end = seqs::find(buffer, sep)->0;
    assert(whole.take(end) =~= buffer.take(end));
    assert(whole.skip(end + 4) =~= buffer.skip(end + 4) + extra);
    if let Ok((line, fields)) = head(buffer.take(end)) {
        let data = buffer.skip(end + 4);
        if is_chunked(fields) {
            lemma_unchunked_extends(data, extra);
        } else if !fields.contains_key("transfer-encoding"@) && fields.contains_key(
            "content-length"@,
        ) {
            if let Some(n) = number::parse_unsigned(
                fields["content-length"@],
                10,
                usize::MAX as nat,
            ) {
                if n <= max {
                    assert((data + extra).take(n as int) =~= data.take(n as int));
                }
            }
        }
    }
}

/// No request whose body exceeds the limit is ever accepted.
pub proof fn law_body_within_limit(buffer: Seq<u8>, max: nat)
    ensures
        parsed(buffer, max) matches ParseView::Complete(req) ==> req.body.len() <= max,
{
}

/// A method keeps its name.
pub proof fn law_method_keeps_its_name(name: Seq<char>)
    ensures
        method_name(method_named(name)) == name,
{
}

/// Chunks that make a whole body announce no size that does not fit.
pub proof fn lemma_whole_chunks_fit(data: Seq<u8>, pos: int)
    requires
        unchunked(data) is Some,
        0 <= pos,
        pos + data.len() <= usize::MAX,
    ensures
        chunk_sizes_fit(data, pos),
    decreases data.len(),
{
    if let Some((size, start)) = chunk_head(data) {
        seqs::lemma_find_from(data, bytes::crlf(), 0);
        if size != 0 {
            lemma_whole_chunks_fit(data.skip(start + size + 2), pos + start + size + 2);
        }
    }
}

/// Whatever makes a whole request can be parsed: only an incomplete body can announce a size that
/// does not fit.
pub proof fn law_whole_request_is_readable(buffer: Seq<u8>, max: nat)
    requires
        parsed(buffer, max) is Complete,
        buffer.len() <= usize::MAX,
    ensures
        sizes_fit(buffer),
{
    let sep = bytes::blank_line();
    seqs::lemma_find_from(buffer, sep, 0);
    let end = seqs::find(buffer, sep)->0;
    if let Ok((line, fields)) = head(buffer.take(end)) {
        if is_chunked(fields) {
            lemma_whole_chunks_fit(buffer.skip(end + 4), 0);
        }
    }
}

/// The methods that the server knows are told apart by their exact names.
pub proof fn law_known_methods(name: Seq<char>)
    ensures
        method_named(name) is Get <==> name == "GET"@,
        method_named(name) is Post <==> name == "POST"@,
        method_named(name) is Delete <==> name == "DELETE"@,
{
    reveal_strlit("GET");
    reveal_strlit("POST");
    reveal_strlit("DELETE");
    assert("GET"@.len() != "POST"@.len() && "GET"@.len() != "DELETE"@.len());
    assert("POST"@.len() != "DELETE"@.len());
}

/// Whatever is decided can be parsed: a request or a refusal never rests on a size that does not
/// fit.
pub proof fn law_decided_is_readable(buffer: Seq<u8>, max: nat)
    requires
        !(parsed(buffer, max) is Incomplete),
        buffer.len() <= usize::MAX,
    ensures
        sizes_fit(buffer),
{
    let sep = bytes::blank_line();
    seqs::lemma_find_from(buffer, sep, 0);
    let end = seqs::find(buffer, sep)->0;
    if let Ok((line, fields)) = head(buffer.take(end)) {
        if is_chunked(fields) {
            lemma_whole_chunks_fit(buffer.skip(end + 4), 0);
        }
    }
}

/// A header line without a colon says nothing: the fields are those of the other lines.
pub proof fn law_line_without_colon(
    a: Seq<Seq<u8>>,
    line: Seq<u8>,
    b: Seq<Seq<u8>>,
    known: Map<Seq<char>, Seq<char>>,
)
    requires
        text::without_cr(line, 13u8).len() > 0,
        !line.contains(58u8),
    ensures
        header_fields(a + seq![line] + b, known) == header_fields(a + b, known),
    decreases a.len(),
{
    let with = a + seq![line] + b;
    if a.len() == 0 {
        assert(with.drop_first() =~= b);
        assert(a + b =~= b);
        assert(with[0] == line);
        let bare = text::without_cr(line, 13u8);
        seqs::lemma_index_from(bare, 58u8, 0);
        if let Some(i) = seqs::index_of(bare, 58u8) {
            assert(line[i] == 58u8);
        }
    } else {
        let rest = a.drop_first();
        assert(with.drop_first() =~= rest + seq![line] + b);
        assert((a + b).drop_first() =~= rest + b);
        assert(with[0] == a[0] && (a + b)[0] == a[0]);
        law_line_without_colon(rest, line, b, known);
        let first = text::without_cr(a[0], 13u8);
        if let Some(colon) = seqs::index_of(first, 58u8) {
            let name = first.take(colon);
            let value = first.skip(colon + 1);
            law_line_without_colon(
                rest,
                line,
                b,
                known.insert(
                    text::lowercase(text::trim(decode_utf8(name))),
                    text::trim(decode_utf8(value)),
                ),
            );
        }
    }
}

/// White space around the name and the value of a header field does not matter, and a carriage
/// return at the end of its line may be left out.
pub proof fn law_field_white_space(
    name: Seq<char>,
    before: Seq<char>,
    lead: Seq<char>,
    value: Seq<char>,
    trail: Seq<char>,
    with_cr: bool,
    known: Map<Seq<char>, Seq<char>>,
)
    requires
        name.len() > 0,
        !name.contains(':') && !before.contains(':'),
        !text::is_space(name[0]) && !text::is_space(name.last()),
        value.len() > 0,
        !text::is_space(value[0]) && !text::is_space(value.last()),
        forall|i: int| 0 <= i < before.len() ==> text::is_space(#[trigger] before[i]),
        forall|i: int| 0 <= i < lead.len() ==> text::is_space(#[trigger] lead[i]),
        forall|i: int| 0 <= i < trail.len() ==> text::is_space(#[trigger] trail[i]),
        !with_cr ==> (lead + value + trail).last() != '\r',
    ensures
        ({
            let line = encode_utf8(name + before) + seq![58u8] + encode_utf8(lead + value + trail);
            header_fields(
                seq![
                    if with_cr {
                        line.push(13u8)
                    } else {
                        line
                    },
                ],
                known,
            ) == Ok::<Map<Seq<char>, Seq<char>>, Seq<char>>(
                known.insert(text::lowercase(name), value),
            )
        }),
{
    broadcast use {encode_utf8_valid_utf8, encode_utf8_decode_utf8};

    let left = name + before;
    let right = lead + value + trail;
    let a = encode_utf8(left);
    let b = encode_utf8(right);
    let line = a + seq![58u8] + b;
    let whole = if with_cr {
        line.push(13u8)
    } else {
        line
    };
    let none = Seq::<char>::empty();
    assert(none + name + before =~= left);
    text::law_trim(none, name, before);
    text::law_trim(lead, value, trail);
    assert(text::without_cr(whole, 13u8) == line) by {
        if with_cr {
            assert(whole.drop_last() =~= line);
        } else {
            encoding::lemma_encode_empty(right);
            assert(line.last() == b.last());
            lemma_last_byte(right);
        }
    }
    let n = a.len() as int;
    assert forall|j: int| 0 <= j < n implies line[j] != 58u8 by {
        if line[j] == 58u8 {
            assert(a[j] == 58u8);
            encoding::lemma_ascii_byte(left, 58u8);
            assert(58u8 as char == ':');
            let i = choose|i: int| 0 <= i < left.len() && left[i] == ':';
            if i < name.len() {
                assert(name[i] == ':');
            } else {
                assert(before[i - name.len()] == ':');
            }
        }
    }
    seqs::lemma_index_is(line, 58u8, 0, n);
    assert(line.take(n) =~= a);
    assert(line.skip(n + 1) =~= b);
    let lines = seq![whole];
    assert(lines[0] == whole);
    assert(lines.drop_first() =~= Seq::empty());
    reveal_with_fuel(header_fields, 2);
}

/// A text that does not end in a carriage return is not encoded as ending in one.
proof fn lemma_last_byte(s: Seq<char>)
    requires
        s.len() > 0,
        s.last() != '\r',
    ensures
        encode_utf8(s).len() > 0,
        encode_utf8(s).last() != 13u8,
{
    let front = s.drop_last();
    let last = seq![s.last()];
    assert(s =~= front + last);
    encoding::lemma_encode_concat(front, last);
    encoding::lemma_encode_empty(last);
    let e = encode_utf8(last);
    assert(encode_utf8(s).last() == e.last());
    if e.last() == 13u8 {
        assert(e.contains(e[e.len() - 1]));
        encoding::lemma_ascii_byte(last, 13u8);
        assert(13u8 as char == '\r');
        assert(last[0] == '\r');
    }
}

/// A header field whose name or value is no UTF-8 is refused.
pub proof fn law_undecodable_field(
    name: Seq<u8>,
    value: Seq<u8>,
    rest: Seq<Seq<u8>>,
    known: Map<Seq<char>, Seq<char>>,
)
    requires
        !name.contains(58u8),
        !valid_utf8(name) || !valid_utf8(value),
    ensures
        header_fields(seq![name + seq![58u8] + value + seq![13u8]] + rest, known) is Err,
{
    let line = name + seq![58u8] + value;
    let whole = line + seq![13u8];
    let lines = seq![whole] + rest;
    assert(lines[0] == whole);
    assert(whole.drop_last() =~= line);
    let n = name.len() as int;
    assert forall|j: int| 0 <= j < n implies line[j] != 58u8 by {
        assert(name.contains(name[j]));
    }
    seqs::lemma_index_is(line, 58u8, 0, n);
    assert(line.take(n) =~= name);
    assert(line.skip(n + 1) =~= value);
}

} // verus!
