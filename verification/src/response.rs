//! HTTP responses.

use crate::assoc;
use crate::bytes;
use crate::encoding;
use crate::number;
use crate::seqs;
use crate::string_map::StringMap;
use vstd::prelude::*;
use vstd::utf8::*;

verus! {

// ---------------------------------------------------------------------------
// Model
// ---------------------------------------------------------------------------

/// A response; its header fields in the order in which they are sent.
#[verifier::ext_equal]
pub struct ResponseView {
    pub status: u16,
    pub headers: Seq<(Seq<char>, Seq<char>)>,
    pub body: Seq<u8>,
}

/// The reason phrase of a status code.
pub open spec fn reason(code: u16) -> Seq<char> {
    if code == 200 {
        "OK"@
    } else if code == 201 {
        "Created"@
    } else if code == 204 {
        "No Content"@
    } else if code == 301 {
        "Moved Permanently"@
    } else if code == 302 {
        "Found"@
    } else if code == 304 {
        "Not Modified"@
    } else if code == 400 {
        "Bad Request"@
    } else if code == 403 {
        "Forbidden"@
    } else if code == 404 {
        "Not Found"@
    } else if code == 405 {
        "Method Not Allowed"@
    } else if code == 408 {
        "Request Timeout"@
    } else if code == 413 {
        "Content Too Large"@
    } else if code == 500 {
        "Internal Server Error"@
    } else if code == 501 {
        "Not Implemented"@
    } else {
        "Unknown"@
    }
}

/// A status code and its reason phrase.
pub open spec fn code_and_reason(code: u16) -> Seq<char> {
    number::decimal(code as nat) + " "@ + reason(code)
}

/// The page that is sent for an error without a page of its own.
pub open spec fn error_page(code: u16) -> Seq<char> {
    "<!DOCTYPE html><html><head><title>"@ + code_and_reason(code) + "</title></head><body><h1>"@
        + code_and_reason(code) + "</h1></body></html>"@
}

/// The type of the pages that the server writes itself.
pub open spec fn html_type() -> Seq<char> {
    "text/html; charset=utf-8"@
}

/// A response without header fields and without a body.
pub open spec fn empty_response(status: u16) -> ResponseView {
    ResponseView { status, headers: Seq::empty(), body: Seq::empty() }
}

/// The response with a header field set.
pub open spec fn header_set(r: ResponseView, key: Seq<char>, value: Seq<char>) -> ResponseView {
    ResponseView { headers: assoc::with_entry(r.headers, key, value), ..r }
}

/// The response with a body, its type and its length set.
pub open spec fn body_set(r: ResponseView, body: Seq<u8>, content_type: Seq<char>) -> ResponseView {
    let typed = header_set(r, "Content-Type"@, content_type);
    let sized = header_set(typed, "Content-Length"@, number::decimal(body.len()));
    ResponseView { body, ..sized }
}

/// A response that sends the client elsewhere.
pub open spec fn redirection(code: u16, location: Seq<char>) -> ResponseView {
    header_set(
        header_set(empty_response(code), "Location"@, location),
        "Content-Length"@,
        "0"@,
    )
}

/// An error response, with the given page or the standard one.
pub open spec fn error_response(code: u16, page: Option<Seq<u8>>) -> ResponseView {
    let body = match page {
        Some(p) => p,
        None => encode_utf8(error_page(code)),
    };
    body_set(empty_response(code), body, html_type())
}

/// The first line of a response.
pub open spec fn status_line(status: u16) -> Seq<char> {
    "HTTP/1.1 "@ + code_and_reason(status) + "\r\n"@
}

/// A header field as it is sent.
pub open spec fn field_line(field: (Seq<char>, Seq<char>)) -> Seq<char> {
    field.0 + ": "@ + field.1 + "\r\n"@
}

/// The header fields as they are sent.
pub open spec fn field_bytes(headers: Seq<(Seq<char>, Seq<char>)>) -> Seq<u8>
    decreases headers.len(),
{
    if headers.len() == 0 {
        Seq::empty()
    } else {
        field_bytes(headers.drop_last()) + encode_utf8(field_line(headers.last()))
    }
}

/// The response as it is sent: status line, header fields, an empty line and the body.
pub open spec fn serialized(r: ResponseView) -> Seq<u8> {
    encode_utf8(status_line(r.status)) + field_bytes(r.headers) + bytes::crlf() + r.body
}

// ---------------------------------------------------------------------------
// Responses
// ---------------------------------------------------------------------------

/// An HTTP response.
pub struct Response {
    pub status: u16,
    pub headers: StringMap,
    pub body: Vec<u8>,
}

impl View for Response {
    type V = ResponseView;

    open spec fn view(&self) -> ResponseView {
        ResponseView {
            status: self.status,
            headers: self.headers.entries(),
            body: self.body@,
        }
    }
}

/// The UTF-8 encoding of a text.
pub fn encoded(s: &str) -> (r: Vec<u8>)
    ensures
        r@ == encode_utf8(s@),
{
    bytes::copy_of(s.as_bytes())
}

impl Response {
    /// A response without header fields and without a body.
    pub fn new(status: u16) -> (r: Response)
        ensures
            r@ == empty_response(status),
    {
        Response { status, headers: StringMap::new(), body: Vec::new() }
    }

    /// The response with a body, its type and its length set.
    pub fn with_body(self, body: Vec<u8>, content_type: &str) -> (r: Response)
        ensures
            r@ == body_set(self@, body@, content_type@),
    {
        let status: u16 = self.status;
        let mut headers = self.headers;
        headers.insert("Content-Type".to_owned(), content_type.to_owned());
        headers.insert("Content-Length".to_owned(), number::to_decimal(body.len() as u64));
        Response { status, headers, body }
    }

    /// The response with a header field set.
    pub fn with_header(self, key: &str, value: &str) -> (r: Response)
        ensures
            r@ == header_set(self@, key@, value@),
    {
        let status: u16 = self.status;
        let body = self.body;
        let mut headers = self.headers;
        headers.insert(key.to_owned(), value.to_owned());
        Response { status, headers, body }
    }

    /// A response that sends the client elsewhere.
    pub fn redirect(code: u16, location: &str) -> (r: Response)
        ensures
            r@ == redirection(code, location@),
    {
        Response::new(code).with_header("Location", location).with_header("Content-Length", "0")
    }

    /// An error response, with the given page or the standard one.
    pub fn error(code: u16, custom_page: Option<Vec<u8>>) -> (r: Response)
        ensures
            r@ == error_response(
                code,
                match custom_page {
                    Some(p) => Some(p@),
                    None => None,
                },
            ),
    {
        let body = match custom_page {
            Some(p) => p,
            None => {
                let page = default_error_page(code);
                encoded(page.as_str())
            },
        };
        Response::new(code).with_body(body, "text/html; charset=utf-8")
    }

    /// The response as it is sent.
    pub fn serialize(&self) -> (r: Vec<u8>)
        ensures
            r@ == serialized(self@),
    {
        let mut line = "HTTP/1.1 ".to_owned();
        let code = number::to_decimal(self.status as u64);
        line.append(code.as_str());
        line.append(" ");
        line.append(status_reason(self.status));
        line.append("\r\n");
        assert(line@ =~= status_line(self.status));
        let mut output = encoded(line.as_str());
        let ghost start = output@;
        let ghost entries = self.headers.entries();
        let n: usize = self.headers.len();
        let mut i: usize = 0;
        assert(entries.take(0) =~= Seq::empty());
        assert(start + field_bytes(entries.take(0)) =~= start);
        while i < n
            invariant
                i <= n,
                entries == self.headers.entries(),
                n == entries.len(),
                output@ == start + field_bytes(entries.take(i as int)),
            decreases n - i,
        {
            let (key, value) = self.headers.entry(i);
            let mut field = key.to_owned();
            field.append(": ");
            field.append(value);
            field.append("\r\n");
            assert(field@ =~= field_line(entries[i as int]));
            bytes::append_bytes(&mut output, field.as_str().as_bytes());
            assert(entries.take(i + 1).drop_last() =~= entries.take(i as int));
            assert(output@ =~= start + field_bytes(entries.take(i + 1)));
            i = i + 1;
        }
        assert(entries.take(n as int) =~= entries);
        let line_end: [u8; 2] = [13u8, 10u8];
        assert(line_end@ =~= bytes::crlf());
        bytes::append_bytes(&mut output, line_end.as_slice());
        bytes::append_bytes(&mut output, self.body.as_slice());
        output
    }
}

/// The reason phrase of a status code.
pub fn status_reason(code: u16) -> (r: &'static str)
    ensures
        r@ == reason(code),
{
    if code == 200 {
        "OK"
    } else if code == 201 {
        "Created"
    } else if code == 204 {
        "No Content"
    } else if code == 301 {
        "Moved Permanently"
    } else if code == 302 {
        "Found"
    } else if code == 304 {
        "Not Modified"
    } else if code == 400 {
        "Bad Request"
    } else if code == 403 {
        "Forbidden"
    } else if code == 404 {
        "Not Found"
    } else if code == 405 {
        "Method Not Allowed"
    } else if code == 408 {
        "Request Timeout"
    } else if code == 413 {
        "Content Too Large"
    } else if code == 500 {
        "Internal Server Error"
    } else if code == 501 {
        "Not Implemented"
    } else {
        "Unknown"
    }
}

/// The page that is sent for an error without a page of its own.
pub fn default_error_page(code: u16) -> (r: String)
    ensures
        r@ == error_page(code),
{
    let number = number::to_decimal(code as u64);
    let reason = status_reason(code);
    let mut page = "<!DOCTYPE html><html><head><title>".to_owned();
    page.append(number.as_str());
    page.append(" ");
    page.append(reason);
    page.append("</title></head><body><h1>");
    page.append(number.as_str());
    page.append(" ");
    page.append(reason);
    page.append("</h1></body></html>");
    assert(page@ =~= error_page(code));
    page
}

// ---------------------------------------------------------------------------
// Laws
// ---------------------------------------------------------------------------

/// A response starts with its status line and ends with its body.
pub proof fn law_response_frame(r: ResponseView)
    ensures
        encode_utf8(status_line(r.status)).is_prefix_of(serialized(r)),
        r.body.is_suffix_of(serialized(r)),
{
    let first = encode_utf8(status_line(r.status));
    let all = serialized(r);
    assert(all.take(first.len() as int) =~= first);
    assert(all.subrange(all.len() - r.body.len(), all.len() as int) =~= r.body);
}

/// A response with a body says how long the body is and of what type, and keeps the other header
/// fields.
pub proof fn law_body_is_announced(r: ResponseView, body: Seq<u8>, content_type: Seq<char>)
    requires
        assoc::keys_unique(r.headers),
    ensures
        ({
            let fields = assoc::map_of(body_set(r, body, content_type).headers);
            &&& assoc::keys_unique(body_set(r, body, content_type).headers)
            &&& fields == assoc::map_of(r.headers).insert("Content-Type"@, content_type).insert(
                "Content-Length"@,
                number::decimal(body.len()),
            )
        }),
        body_set(r, body, content_type).body == body,
        body_set(r, body, content_type).status == r.status,
{
    let typed = header_set(r, "Content-Type"@, content_type);
    assoc::lemma_with_entry(r.headers, "Content-Type"@, content_type);
    assoc::lemma_with_entry(typed.headers, "Content-Length"@, number::decimal(body.len()));
}

/// The bytes of a header section: no line is empty, and none but the ends of lines holds a
/// carriage return.
proof fn lemma_fields_end(headers: Seq<(Seq<char>, Seq<char>)>, before: Seq<u8>)
    requires
        before.len() > 1,
        seqs::find(before, bytes::blank_line()) is None,
        before.last() == 10u8,
        before[before.len() - 2] == 13u8,
        forall|i: int|
            0 <= i < headers.len() ==> !(#[trigger] headers[i]).0.contains('\r')
                && !headers[i].1.contains('\r'),
    ensures
        ({
            let head = before + field_bytes(headers);
            &&& head.len() > 1 && head.last() == 10u8 && head[head.len() - 2] == 13u8
            &&& seqs::find(head, bytes::blank_line()) is None
        }),
    decreases headers.len(),
{
    let blank = bytes::blank_line();
    if headers.len() == 0 {
        assert(before + field_bytes(headers) =~= before);
    } else {
        let last = headers.last();
        let rest = headers.drop_last();
        assert forall|i: int| 0 <= i < rest.len() implies !(#[trigger] rest[i]).0.contains('\r')
            && !rest[i].1.contains('\r') by {
            assert(rest[i] == headers[i]);
        }
        lemma_fields_end(rest, before);
        let start = before + field_bytes(rest);
        reveal_strlit(": ");
        reveal_strlit("\r\n");
        let text = last.0 + ": "@ + last.1;
        assert(headers[headers.len() - 1] == last);
        assert(!text.contains('\r')) by {
            if text.contains('\r') {
                let i = choose|i: int| 0 <= i < text.len() && text[i] == '\r';
                let n = last.0.len() as int;
                if i < n {
                    assert(last.0[i] == '\r');
                } else if i >= n + 2 {
                    assert(last.1[i - n - 2] == '\r');
                }
            }
        }
        let line = encode_utf8(text);
        encoding::lemma_encode_concat(text, "\r\n"@);
        is_ascii_chars_encode_utf8("\r\n"@);
        assert(encode_utf8("\r\n"@) =~= bytes::crlf());
        assert(!line.contains(13u8)) by {
            if line.contains(13u8) {
                encoding::lemma_ascii_byte(text, 13u8);
                assert(13u8 as char == '\r');
            }
        }
        encoding::lemma_encode_empty(text);
        let head = before + field_bytes(headers);
        assert(head =~= start + line + bytes::crlf());
        seqs::lemma_find_from(start, blank, 0);
        let n = start.len() as int;
        assert forall|j: int| 0 <= j implies !seqs::occurs_at(head, blank, j) by {
            if seqs::occurs_at(head, blank, j) {
                let w = head.subrange(j, j + 4);
                assert(w[0] == head[j] && w[1] == head[j + 1] && w[2] == head[j + 2]);
                if j + 4 <= n {
                    assert(start.subrange(j, j + 4) =~= w);
                    assert(seqs::occurs_at(start, blank, j));
                } else if j + 2 < n {
                    // The second carriage return would be the line feed that ends `start`, or
                    // stand before it.
                    assert(head[j + 3] == w[3]);
                    assert(head[n - 1] == 10u8);
                    if j + 3 == n {
                        assert(w[2] == 13u8);
                    }
                } else if j + 2 < n + line.len() {
                    assert(head[j + 2] == line[j + 2 - n]);
                    assert(line.contains(line[j + 2 - n]));
                } else if j < n + line.len() && j >= n {
                    assert(head[j] == line[j - n]);
                    assert(line.contains(line[j - n]));
                }
            }
        }
        seqs::lemma_find_from(head, blank, 0);
    }
}

/// Where no header field holds a carriage return, the first empty line of a response is the one
/// in front of its body: a client that looks for it finds the body.
pub proof fn law_body_behind_first_empty_line(r: ResponseView)
    requires
        forall|i: int|
            0 <= i < r.headers.len() ==> !(#[trigger] r.headers[i]).0.contains('\r')
                && !r.headers[i].1.contains('\r'),
    ensures
        seqs::find(serialized(r), bytes::blank_line()) == Some(
            serialized(r).len() - r.body.len() - 4,
        ),
{
    let blank = bytes::blank_line();
    let text = "HTTP/1.1 "@ + code_and_reason(r.status);
    let line = status_line(r.status);
    lemma_status_text(r.status);
    reveal_strlit("\r\n");
    assert(line =~= text + "\r\n"@);
    encoding::lemma_encode_concat(text, "\r\n"@);
    is_ascii_chars_encode_utf8("\r\n"@);
    assert(encode_utf8("\r\n"@) =~= bytes::crlf());
    let e = encode_utf8(text);
    let before = encode_utf8(line);
    assert(before =~= e + bytes::crlf());
    assert(!e.contains(13u8)) by {
        if e.contains(13u8) {
            encoding::lemma_ascii_byte(text, 13u8);
            assert(13u8 as char == '\r');
        }
    }
    seqs::lemma_find_from(before, blank, 0);
    if let Some(j) = seqs::find(before, blank) {
        let w = before.subrange(j, j + 4);
        assert(w[0] == before[j]);
        assert(before[j] == e[j]);
        assert(e.contains(e[j]));
    }
    lemma_fields_end(r.headers, before);
    let head = before + field_bytes(r.headers);
    let all = serialized(r);
    let n = head.len() as int;
    assert(all =~= head + bytes::crlf() + r.body);
    assert(all.subrange(n - 2, n + 2) =~= blank);
    seqs::lemma_find_from(head, blank, 0);
    assert forall|j: int| 0 <= j < n - 2 implies !seqs::occurs_at(all, blank, j) by {
        if seqs::occurs_at(all, blank, j) {
            let w = all.subrange(j, j + 4);
            assert(w[0] == all[j] && w[1] == all[j + 1] && w[2] == all[j + 2] && w[3] == all[j
                + 3]);
            if j + 4 <= n {
                assert(head.subrange(j, j + 4) =~= w);
                assert(seqs::occurs_at(head, blank, j));
            } else {
                assert(all[n - 1] == 10u8);
            }
        }
    }
    seqs::lemma_find_is(all, blank, 0, n - 2);
}

/// The status line holds no carriage return but the one that ends it.
proof fn lemma_status_text(status: u16)
    ensures
        !("HTTP/1.1 "@ + code_and_reason(status)).contains('\r'),
{
    reveal_strlit("HTTP/1.1 ");
    reveal_strlit(" ");
    lemma_reason_text(status);
    number::lemma_written(status as nat, 10);
    let digits = number::decimal(status as nat);
    let text = "HTTP/1.1 "@ + code_and_reason(status);
    if text.contains('\r') {
        let i = choose|i: int| 0 <= i < text.len() && text[i] == '\r';
        let n = digits.len() as int;
        if 9 <= i < 9 + n {
            assert(digits[i - 9] == '\r');
        } else if i > 9 + n {
            assert(reason(status)[i - 10 - n] == '\r');
        }
    }
}

proof fn lemma_reason_text(status: u16)
    ensures
        !reason(status).contains('\r'),
{
    reveal_strlit("OK");
    reveal_strlit("Created");
    reveal_strlit("No Content");
    reveal_strlit("Moved Permanently");
    reveal_strlit("Found");
    reveal_strlit("Not Modified");
    reveal_strlit("Bad Request");
    reveal_strlit("Forbidden");
    reveal_strlit("Not Found");
    reveal_strlit("Method Not Allowed");
    reveal_strlit("Request Timeout");
    reveal_strlit("Content Too Large");
    reveal_strlit("Internal Server Error");
    reveal_strlit("Not Implemented");
    reveal_strlit("Unknown");
}

/// The header fields give `key` the value `value`, and no other.
pub open spec fn says(
    headers: Seq<(Seq<char>, Seq<char>)>,
    key: Seq<char>,
    value: Seq<char>,
) -> bool {
    headers.contains((key, value)) && forall|i: int|
        0 <= i < headers.len() && (#[trigger] headers[i]).0 == key ==> headers[i].1 == value
}

/// Where keys are unique, the fields say what the map holds.
proof fn lemma_says(headers: Seq<(Seq<char>, Seq<char>)>, key: Seq<char>, value: Seq<char>)
    requires
        assoc::keys_unique(headers),
    ensures
        says(headers, key, value) <==> assoc::map_of(headers).contains_key(key) && assoc::map_of(
            headers,
        )[key] == value,
{
    if headers.contains((key, value)) {
        let i = choose|i: int| 0 <= i < headers.len() && headers[i] == (key, value);
        assoc::lemma_place(headers, i);
    }
    if assoc::map_of(headers).contains_key(key) {
        let p = assoc::place_of(headers, key);
        assert(0 <= p < headers.len() && headers[p].0 == key);
        if headers[p].1 == value {
            assert(headers[p] == (key, value));
            assert forall|i: int|
                0 <= i < headers.len() && (#[trigger] headers[i]).0 == key implies headers[i].1
                == value by {
                assoc::lemma_place(headers, i);
            }
        }
    }
}

/// A header field that is set is what the response says, once, and the other fields, the status and
/// the body stay as they were.
pub proof fn law_header_set(r: ResponseView, key: Seq<char>, value: Seq<char>)
    requires
        assoc::keys_unique(r.headers),
    ensures
        assoc::keys_unique(header_set(r, key, value).headers),
        says(header_set(r, key, value).headers, key, value),
        forall|k: Seq<char>, v: Seq<char>|
            k != key ==> (#[trigger] says(header_set(r, key, value).headers, k, v) <==> says(
                r.headers,
                k,
                v,
            )),
        header_set(r, key, value).status == r.status,
        header_set(r, key, value).body == r.body,
{
    assoc::lemma_with_entry(r.headers, key, value);
    lemma_says(header_set(r, key, value).headers, key, value);
    assert forall|k: Seq<char>, v: Seq<char>| k != key implies (#[trigger] says(
        header_set(r, key, value).headers,
        k,
        v,
    ) <==> says(r.headers, k, v)) by {
        lemma_says(header_set(r, key, value).headers, k, v);
        lemma_says(r.headers, k, v);
    }
}

/// A body that is set is sent as it is, with its type and its length, and the status and the other
/// fields stay as they were.
pub proof fn law_body_set(r: ResponseView, body: Seq<u8>, content_type: Seq<char>)
    requires
        assoc::keys_unique(r.headers),
    ensures
        ({
            let t = body_set(r, body, content_type);
            &&& t.status == r.status
            &&& t.body == body
            &&& assoc::keys_unique(t.headers)
            &&& says(t.headers, "Content-Type"@, content_type)
            &&& says(t.headers, "Content-Length"@, number::decimal(body.len()))
            &&& forall|k: Seq<char>, v: Seq<char>|
                k != "Content-Type"@ && k != "Content-Length"@ ==> (#[trigger] says(
                    t.headers,
                    k,
                    v,
                ) <==> says(r.headers, k, v))
        }),
{
    reveal_strlit("Content-Type");
    reveal_strlit("Content-Length");
    assert("Content-Type"@.len() != "Content-Length"@.len());
    let typed = header_set(r, "Content-Type"@, content_type);
    law_header_set(r, "Content-Type"@, content_type);
    law_header_set(typed, "Content-Length"@, number::decimal(body.len()));
}

/// A redirection has the status that it is to have, says where to go, and has no body.
pub proof fn law_redirection(code: u16, location: Seq<char>)
    ensures
        redirection(code, location).status == code,
        says(redirection(code, location).headers, "Location"@, location),
        says(redirection(code, location).headers, "Content-Length"@, "0"@),
        redirection(code, location).body.len() == 0,
        assoc::keys_unique(redirection(code, location).headers),
{
    reveal_strlit("Location");
    reveal_strlit("Content-Length");
    assert("Location"@.len() != "Content-Length"@.len());
    let first = header_set(empty_response(code), "Location"@, location);
    law_header_set(empty_response(code), "Location"@, location);
    law_header_set(first, "Content-Length"@, "0"@);
}

/// An error response has the status of the error. Its body is the page that was given for it, and
/// else a page that names the status and its reason, as HTML.
pub proof fn law_error_response(code: u16, page: Option<Seq<u8>>)
    ensures
        error_response(code, page).status == code,
        page matches Some(p) ==> error_response(code, page).body == p,
        page is None ==> error_response(code, page).body == encode_utf8(error_page(code)),
        seqs::find(error_page(code), number::decimal(code as nat) + seq![' '] + reason(code))
            is Some,
        says(error_response(code, page).headers, "Content-Type"@, "text/html; charset=utf-8"@),
        assoc::keys_unique(error_response(code, page).headers),
{
    let body = match page {
        Some(p) => p,
        None => encode_utf8(error_page(code)),
    };
    law_body_set(empty_response(code), body, html_type());
    reveal_strlit(" ");
    reveal_strlit("<!DOCTYPE html><html><head><title>");
    assert(" "@ =~= seq![' ']);
    let n = "<!DOCTYPE html><html><head><title>"@.len() as int;
    let name = number::decimal(code as nat) + seq![' '] + reason(code);
    let all = error_page(code);
    assert(all.subrange(n, n + name.len()) =~= name);
    assert(seqs::occurs_at(all, name, n));
    seqs::lemma_find_from(all, name, 0);
}

/// Every status that the server answers with has the reason phrase that HTTP gives it.
pub proof fn law_reasons()
    ensures
        reason(200) == "OK"@,
        reason(201) == "Created"@,
        reason(204) == "No Content"@,
        reason(301) == "Moved Permanently"@,
        reason(302) == "Found"@,
        reason(304) == "Not Modified"@,
        reason(400) == "Bad Request"@,
        reason(403) == "Forbidden"@,
        reason(404) == "Not Found"@,
        reason(405) == "Method Not Allowed"@,
        reason(408) == "Request Timeout"@,
        reason(413) == "Content Too Large"@,
        reason(500) == "Internal Server Error"@,
        reason(501) == "Not Implemented"@,
{
}

/// A response is sent as its status line, a line for each of its fields in their order, an empty
/// line and its body: one more field is one more line in front of the empty line.
pub proof fn law_response_as_sent(r: ResponseView, key: Seq<char>, value: Seq<char>)
    ensures
        r.headers.len() == 0 ==> serialized(r) == encode_utf8(
            "HTTP/1.1 "@ + number::decimal(r.status as nat) + seq![' '] + reason(r.status),
        ) + seq![13u8, 10u8, 13u8, 10u8] + r.body,
        serialized(ResponseView { headers: r.headers.push((key, value)), ..r }) == serialized(
            ResponseView { body: Seq::empty(), ..r },
        ).drop_last().drop_last() + encode_utf8(key + seq![':', ' '] + value) + seq![
            13u8,
            10u8,
            13u8,
            10u8,
        ] + r.body,
{
    reveal_strlit(" ");
    reveal_strlit(": ");
    reveal_strlit("\r\n");
    assert(" "@ =~= seq![' ']);
    assert(": "@ =~= seq![':', ' ']);
    is_ascii_chars_encode_utf8("\r\n"@);
    assert(encode_utf8("\r\n"@) =~= seq![13u8, 10u8]);
    let start = "HTTP/1.1 "@ + number::decimal(r.status as nat) + seq![' '] + reason(r.status);
    assert(status_line(r.status) =~= start + "\r\n"@);
    encoding::lemma_encode_concat(start, "\r\n"@);
    let line = key + seq![':', ' '] + value;
    assert(field_line((key, value)) =~= line + "\r\n"@);
    encoding::lemma_encode_concat(line, "\r\n"@);
    let more = ResponseView { headers: r.headers.push((key, value)), ..r };
    assert(more.headers.drop_last() =~= r.headers);
    let head = encode_utf8(status_line(r.status)) + field_bytes(r.headers);
    let bare = serialized(ResponseView { body: Seq::empty(), ..r });
    assert(bare =~= head + seq![13u8, 10u8]);
    assert(bare.drop_last().drop_last() =~= head);
    assert(serialized(more) =~= head + encode_utf8(line) + seq![13u8, 10u8, 13u8, 10u8] + r.body);
    if r.headers.len() == 0 {
        assert(serialized(r) =~= encode_utf8(start) + seq![13u8, 10u8, 13u8, 10u8] + r.body);
    }
}

/// A status that the server does not know by name is sent with a reason all the same.
pub proof fn law_unknown_reason(code: u16)
    requires
        code != 200 && code != 201 && code != 204 && code != 301 && code != 302 && code != 304,
        code != 400 && code != 403 && code != 404 && code != 405 && code != 408 && code != 413,
        code != 500 && code != 501,
    ensures
        reason(code) == "Unknown"@,
{
}

} // verus!
