//! Requests as clients write them, and that they are read as they were written.

use crate::bytes;
use crate::encoding;
use crate::number;
use crate::request;
use crate::seqs;
use crate::text;
use vstd::prelude::*;
use vstd::utf8::*;

verus! {

// ---------------------------------------------------------------------------
// Header sections
// ---------------------------------------------------------------------------

/// The head of a request as a client means it. The target is the path and, behind a question
/// mark, the query string, if there is one.
pub struct Head {
    pub method: Seq<char>,
    pub uri: Seq<char>,
    pub query_string: Option<Seq<char>>,
    pub version: Seq<char>,
    pub fields: Seq<(Seq<char>, Seq<char>)>,
}

/// The text fits on a line.
pub open spec fn on_one_line(s: Seq<char>) -> bool {
    !s.contains('\r') && !s.contains('\n')
}

/// A header field that can be written: its name has no colon, and neither name nor value starts or
/// ends with white space.
pub open spec fn writable_field(f: (Seq<char>, Seq<char>)) -> bool {
    on_one_line(f.0) && on_one_line(f.1) && !f.0.contains(':') && text::trim(f.0) == f.0
        && text::trim(f.1) == f.1
}

/// A head that can be written: no part of the request line holds what ends the part.
pub open spec fn writable(h: Head) -> bool {
    &&& on_one_line(h.method) && !h.method.contains(' ')
    &&& on_one_line(h.uri) && !h.uri.contains(' ') && !h.uri.contains('?')
    &&& h.query_string matches Some(q) ==> on_one_line(q) && !q.contains(' ')
    &&& on_one_line(h.version)
    &&& forall|i: int| 0 <= i < h.fields.len() ==> writable_field(#[trigger] h.fields[i])
}

/// The target of a request.
pub open spec fn target(h: Head) -> Seq<char> {
    match h.query_string {
        Some(q) => h.uri + seq!['?'] + q,
        None => h.uri,
    }
}

/// The request line.
pub open spec fn first_line(h: Head) -> Seq<char> {
    h.method + seq![' '] + target(h) + seq![' '] + h.version
}

/// The line of a header field.
pub open spec fn field_line(f: (Seq<char>, Seq<char>)) -> Seq<char> {
    f.0 + seq![':'] + (seq![' '] + f.1)
}

/// The lines of a head, as bytes.
pub open spec fn head_lines(h: Head) -> Seq<Seq<u8>> {
    seq![encode_utf8(first_line(h))] + field_lines(h.fields)
}

/// The lines of header fields, as bytes.
pub open spec fn field_lines(fields: Seq<(Seq<char>, Seq<char>)>) -> Seq<Seq<u8>> {
    fields.map_values(|f: (Seq<char>, Seq<char>)| encode_utf8(field_line(f)))
}

/// Lines with line ends between them.
pub open spec fn section(lines: Seq<Seq<u8>>) -> Seq<u8>
    decreases lines.len(),
{
    if lines.len() == 0 {
        Seq::empty()
    } else if lines.len() == 1 {
        lines[0]
    } else {
        lines[0] + bytes::crlf() + section(lines.drop_first())
    }
}

/// A head and what follows it, as a client sends them.
pub open spec fn sent(h: Head, data: Seq<u8>) -> Seq<u8> {
    section(head_lines(h)) + bytes::blank_line() + data
}

/// The header fields by their names in lower case; of a name that is given twice, the last value.
pub open spec fn fields_by_name(
    fields: Seq<(Seq<char>, Seq<char>)>,
    known: Map<Seq<char>, Seq<char>>,
) -> Map<Seq<char>, Seq<char>>
    decreases fields.len(),
{
    if fields.len() == 0 {
        known
    } else {
        fields_by_name(
            fields.drop_first(),
            known.insert(text::lowercase(fields[0].0), fields[0].1),
        )
    }
}

/// The request line as it is to be read.
pub open spec fn meant_line(h: Head) -> request::RequestLine {
    request::RequestLine {
        method: h.method,
        uri: h.uri,
        query_string: match h.query_string {
            Some(q) => q,
            None => Seq::empty(),
        },
        version: h.version,
    }
}

/// A line of bytes that is not empty and holds no line end.
pub open spec fn plain_line(l: Seq<u8>) -> bool {
    l.len() > 0 && !l.contains(13u8) && !l.contains(10u8)
}

/// Lines of bytes that are not empty and hold no line end.
pub open spec fn plain_lines(lines: Seq<Seq<u8>>) -> bool {
    forall|i: int| 0 <= i < lines.len() ==> plain_line(#[trigger] lines[i])
}

/// Lines with a carriage return behind each but the last.
spec fn with_returns(lines: Seq<Seq<u8>>) -> Seq<Seq<u8>>
    decreases lines.len(),
{
    if lines.len() <= 1 {
        lines
    } else {
        seq![lines[0].push(13u8)] + with_returns(lines.drop_first())
    }
}

/// The bytes of a text on one line make a line.
pub proof fn lemma_line_bytes(s: Seq<char>)
    requires
        on_one_line(s),
        s.len() > 0,
    ensures
        plain_line(encode_utf8(s)),
{
    encoding::lemma_encode_empty(s);
    if encode_utf8(s).contains(13u8) {
        encoding::lemma_ascii_byte(s, 13u8);
        assert(13u8 as char == '\r');
    }
    if encode_utf8(s).contains(10u8) {
        encoding::lemma_ascii_byte(s, 10u8);
        assert(10u8 as char == '\n');
    }
}

/// The first empty line is the one behind the section.
pub proof fn lemma_section_end(lines: Seq<Seq<u8>>, data: Seq<u8>)
    requires
        lines.len() > 0,
        plain_lines(lines),
    ensures
        seqs::find(section(lines) + bytes::blank_line() + data, bytes::blank_line()) == Some(
            section(lines).len() as int,
        ),
        section(lines).len() > 0,
        section(lines)[0] != 13u8,
    decreases lines.len(),
{
    let blank = bytes::blank_line();
    let first = lines[0];
    assert(plain_line(first));
    assert(first.contains(first[0]));
    if lines.len() == 1 {
        seqs::lemma_find_first_element(first, blank, data);
    } else {
        let rest = lines.drop_first();
        assert(plain_lines(rest)) by {
            assert forall|i: int| 0 <= i < rest.len() implies plain_line(#[trigger] rest[i]) by {
                assert(rest[i] == lines[i + 1]);
            }
        }
        lemma_section_end(rest, data);
        let tail = section(rest) + blank + data;
        let whole = section(lines) + blank + data;
        let n = first.len() as int;
        assert(whole =~= first + bytes::crlf() + tail);
        let end = n + 2 + section(rest).len();
        seqs::lemma_find_from(tail, blank, 0);
        assert(tail.subrange(end - n - 2, end - n + 2) == blank);
        assert(whole.subrange(end, end + 4) =~= tail.subrange(end - n - 2, end - n + 2));
        assert forall|j: int| 0 <= j < end implies !seqs::occurs_at(whole, blank, j) by {
            if seqs::occurs_at(whole, blank, j) {
                let w = whole.subrange(j, j + 4);
                assert(w[0] == whole[j] && w[2] == whole[j + 2]);
                if j < n {
                    assert(first.contains(first[j]));
                } else if j == n {
                    assert(whole[j + 2] == section(rest)[0]);
                } else if j > n + 1 {
                    assert(tail.subrange(j - n - 2, j - n + 2) =~= w);
                    assert(seqs::occurs_at(tail, blank, j - n - 2));
                }
            }
        }
        seqs::lemma_find_is(whole, blank, 0, end);
        assert(section(lines).len() == end);
    }
}

/// A section is split into its lines.
proof fn lemma_section_split(lines: Seq<Seq<u8>>)
    requires
        lines.len() > 0,
        plain_lines(lines),
    ensures
        seqs::split(section(lines), 10u8) == with_returns(lines),
    decreases lines.len(),
{
    let first = lines[0];
    assert(plain_line(first));
    if lines.len() == 1 {
        seqs::lemma_split_whole(first, 10u8);
        assert(with_returns(lines) =~= seq![first]);
    } else {
        let rest = lines.drop_first();
        assert forall|i: int| 0 <= i < rest.len() implies plain_line(#[trigger] rest[i]) by {
            assert(rest[i] == lines[i + 1]);
        }
        lemma_section_split(rest);
        let piece = first.push(13u8);
        assert(section(lines) =~= piece + seq![10u8] + section(rest));
        assert(!piece.contains(10u8)) by {
            if piece.contains(10u8) {
                let i = choose|i: int| 0 <= i < piece.len() && piece[i] == 10u8;
                assert(first[i] == 10u8);
            }
        }
        seqs::lemma_split_first(piece, 10u8, section(rest));
    }
}

/// A space in front of a text is trimmed with the rest.
pub proof fn lemma_trim_behind_space(s: Seq<char>)
    ensures
        text::trim(seq![' '] + s) == text::trim(s),
{
    assert((seq![' '] + s).drop_first() =~= s);
    reveal_with_fuel(text::trim_start, 2);
}

/// The line of a header field is read as its name and its value.
proof fn lemma_field_line(f: (Seq<char>, Seq<char>))
    requires
        writable_field(f),
    ensures
        plain_line(encode_utf8(field_line(f))),
        seqs::index_of(encode_utf8(field_line(f)), 58u8) == Some(
            encode_utf8(f.0).len() as int,
        ),
        encode_utf8(field_line(f)).take(encode_utf8(f.0).len() as int) == encode_utf8(f.0),
        encode_utf8(field_line(f)).skip(encode_utf8(f.0).len() as int + 1) == encode_utf8(
            seq![' '] + f.1,
        ),
        text::trim(seq![' '] + f.1) == f.1,
{
    let line = field_line(f);
    let name = encode_utf8(f.0);
    let value = encode_utf8(seq![' '] + f.1);
    encoding::lemma_encode_concat(f.0 + seq![':'], seq![' '] + f.1);
    encoding::lemma_encode_concat(f.0, seq![':']);
    encoding::lemma_ascii_char(':');
    let e = encode_utf8(line);
    assert(e =~= name + seq![58u8] + value);
    let n = name.len() as int;
    assert forall|j: int| 0 <= j < n implies e[j] != 58u8 by {
        if e[j] == 58u8 {
            assert(name[j] == 58u8);
            encoding::lemma_ascii_byte(f.0, 58u8);
            assert(58u8 as char == ':');
        }
    }
    seqs::lemma_index_is(e, 58u8, 0, n);
    assert(e.take(n) =~= name);
    assert(e.skip(n + 1) =~= value);
    lemma_trim_behind_space(f.1);
    assert(on_one_line(line)) by {
        if line.contains('\r') {
            let i = choose|i: int| 0 <= i < line.len() && line[i] == '\r';
            lemma_field_chars(f, i);
        }
        if line.contains('\n') {
            let i = choose|i: int| 0 <= i < line.len() && line[i] == '\n';
            lemma_field_chars(f, i);
        }
    }
    lemma_line_bytes(line);
}

/// Every character of the line of a header field is one of the name, of the value, or of what
/// parts them.
pub proof fn lemma_field_chars(f: (Seq<char>, Seq<char>), i: int)
    requires
        0 <= i < field_line(f).len(),
    ensures
        ({
            let c = field_line(f)[i];
            f.0.contains(c) || f.1.contains(c) || c == ':' || c == ' '
        }),
{
    let n = f.0.len() as int;
    if i < n {
        assert(field_line(f)[i] == f.0[i]);
    } else if i >= n + 2 {
        assert(field_line(f)[i] == f.1[i - n - 2]);
    }
}

/// The lines of header fields are read as the fields.
proof fn lemma_fields_read(
    fields: Seq<(Seq<char>, Seq<char>)>,
    known: Map<Seq<char>, Seq<char>>,
)
    requires
        forall|i: int| 0 <= i < fields.len() ==> writable_field(#[trigger] fields[i]),
    ensures
        request::header_fields(with_returns(field_lines(fields)), known) == Ok::<
            Map<Seq<char>, Seq<char>>,
            Seq<char>,
        >(fields_by_name(fields, known)),
    decreases fields.len(),
{
    broadcast use {encode_utf8_valid_utf8, encode_utf8_decode_utf8};

    if fields.len() > 0 {
        let f = fields[0];
        let rest = fields.drop_first();
        assert(writable_field(f));
        lemma_field_line(f);
        assert forall|i: int| 0 <= i < rest.len() implies writable_field(#[trigger] rest[i]) by {
            assert(rest[i] == fields[i + 1]);
        }
        lemma_fields_read(rest, known.insert(text::lowercase(f.0), f.1));
        let lines = field_lines(fields);
        let all = with_returns(lines);
        assert(lines.drop_first() =~= field_lines(rest));
        let line = lines[0];
        assert(line == encode_utf8(field_line(f)));
        if fields.len() > 1 {
            assert(all[0] == line.push(13u8));
            assert(all[0].drop_last() =~= line);
            assert(all.drop_first() =~= with_returns(field_lines(rest)));
        } else {
            assert(all[0] == line);
            assert(line.contains(line.last()));
            assert(all.drop_first() =~= with_returns(field_lines(rest)));
        }
        assert(text::without_cr(all[0], 13u8) == line);
    }
}

/// A line that starts with a part without `c`, and `c` behind it, is cut there.
pub proof fn lemma_cut(a: Seq<char>, c: char, b: Seq<char>)
    requires
        !a.contains(c),
    ensures
        text::cut(a + seq![c] + b, c) == Some((a, b)),
{
    let s = a + seq![c] + b;
    let n = a.len() as int;
    assert forall|j: int| 0 <= j < n implies s[j] != c by {
        assert(a.contains(a[j]));
    }
    seqs::lemma_index_is(s, c, 0, n);
    assert(s.take(n) =~= a);
    assert(s.skip(n + 1) =~= b);
}

/// The request line is read as it was meant.
proof fn lemma_first_line(h: Head)
    requires
        writable(h),
    ensures
        request::request_line(first_line(h)) == Ok::<request::RequestLine, Seq<char>>(
            meant_line(h),
        ),
        on_one_line(first_line(h)),
        first_line(h).len() > 0,
{
    let t = target(h);
    let line = first_line(h);
    let rest = t + seq![' '] + h.version;
    assert(line =~= h.method + seq![' '] + rest);
    lemma_cut(h.method, ' ', rest);
    assert forall|c: char| #[trigger] t.contains(c) implies h.uri.contains(c) || c == '?' || (
    h.query_string matches Some(q) && q.contains(c)) by {
        let i = choose|i: int| 0 <= i < t.len() && t[i] == c;
        if i < h.uri.len() {
            assert(h.uri[i] == c);
        } else if i > h.uri.len() {
            let q = h.query_string->Some_0;
            assert(q[i - h.uri.len() - 1] == c);
        }
    }
    lemma_cut(t, ' ', h.version);
    match h.query_string {
        Some(q) => {
            lemma_cut(h.uri, '?', q);
        },
        None => {
            seqs::lemma_index_from(h.uri, '?', 0);
            if let Some(i) = seqs::index_of(h.uri, '?') {
                assert(h.uri.contains(h.uri[i]));
            }
        },
    }
    assert forall|c: char| #[trigger] line.contains(c) implies h.method.contains(c) || c == ' '
        || t.contains(c) || h.version.contains(c) by {
        let i = choose|i: int| 0 <= i < line.len() && line[i] == c;
        let m = h.method.len() as int;
        let n = t.len() as int;
        if i < m {
            assert(h.method[i] == c);
        } else if m < i < m + 1 + n {
            assert(t[i - m - 1] == c);
        } else if i > m + 1 + n {
            assert(h.version[i - m - n - 2] == c);
        }
    }
}

/// What a client sends as the head of a request is read as it was meant: the method, the path, the
/// query string, the version and the header fields. What follows the head is taken as the body
/// that the fields announce.
pub proof fn law_head_read_back(h: Head, data: Seq<u8>, max: nat)
    requires
        writable(h),
    ensures
        ({
            let line = meant_line(h);
            let fields = fields_by_name(h.fields, Map::empty());
            request::parsed(sent(h, data), max) == match request::body(fields, data, max) {
                request::BodyView::Incomplete => request::ParseView::Incomplete,
                request::BodyView::TooLarge => request::ParseView::TooLarge,
                request::BodyView::Invalid(e) => request::ParseView::Invalid(e),
                request::BodyView::Complete(b) => request::ParseView::Complete(
                    request::RequestView {
                        method: request::method_named(line.method),
                        uri: line.uri,
                        version: line.version,
                        headers: fields,
                        body: b,
                        query_string: line.query_string,
                    },
                ),
            }
        }),
{
    broadcast use {encode_utf8_valid_utf8, encode_utf8_decode_utf8};

    let lines = head_lines(h);
    let head = section(lines);
    let buffer = sent(h, data);
    lemma_first_line(h);
    lemma_line_bytes(first_line(h));
    assert(plain_lines(lines)) by {
        assert forall|i: int| 0 <= i < lines.len() implies plain_line(#[trigger] lines[i]) by {
            if i > 0 {
                assert(writable_field(h.fields[i - 1]));
                lemma_field_line(h.fields[i - 1]);
                assert(lines[i] == encode_utf8(field_line(h.fields[i - 1])));
            }
        }
    }
    lemma_section_end(lines, data);
    lemma_section_split(lines);
    lemma_fields_read(h.fields, Map::empty());
    assert(buffer.take(head.len() as int) =~= head);
    assert(buffer.skip(head.len() as int + 4) =~= data);
    let all = with_returns(lines);
    let first = lines[0];
    assert(lines.drop_first() =~= field_lines(h.fields));
    if lines.len() > 1 {
        assert(all[0] == first.push(13u8));
        assert(all[0].drop_last() =~= first);
        assert(all.drop_first() =~= with_returns(field_lines(h.fields)));
    } else {
        assert(first.contains(first.last()));
        assert(all.drop_first() =~= with_returns(field_lines(h.fields)));
    }
    assert(text::without_cr(all[0], 13u8) == first);
}

// ---------------------------------------------------------------------------
// Bodies
// ---------------------------------------------------------------------------

/// A body of announced length is read once it is there, and nothing behind it is.
pub proof fn law_announced_body_read_back(
    fields: Map<Seq<char>, Seq<char>>,
    body: Seq<u8>,
    behind: Seq<u8>,
    max: nat,
)
    requires
        !fields.contains_key("transfer-encoding"@),
        fields.contains_key("content-length"@),
        fields["content-length"@] == number::decimal(body.len()),
        body.len() <= usize::MAX,
    ensures
        request::body(fields, body + behind, max) == if body.len() <= max {
            request::BodyView::Complete(body)
        } else {
            request::BodyView::TooLarge
        },
{
    number::law_written_reads_back(body.len(), 10, usize::MAX as nat);
    assert((body + behind).take(body.len() as int) =~= body);
}

/// A chunk as a client sends it.
pub open spec fn chunk(piece: Seq<u8>) -> Seq<u8> {
    encode_utf8(number::written(piece.len(), 16)) + bytes::crlf() + piece + bytes::crlf()
}

/// The line that starts the chunk that ends a body.
pub open spec fn last_chunk() -> Seq<u8> {
    encode_utf8(number::written(0, 16)) + bytes::crlf()
}

/// A body in chunks, up to the size of the chunk that ends it. Nothing behind that is looked at.
pub open spec fn chunks(pieces: Seq<Seq<u8>>) -> Seq<u8>
    decreases pieces.len(),
{
    if pieces.len() == 0 {
        last_chunk()
    } else {
        chunk(pieces[0]) + chunks(pieces.drop_first())
    }
}

/// The pieces, one after the other.
pub open spec fn together(pieces: Seq<Seq<u8>>) -> Seq<u8>
    decreases pieces.len(),
{
    if pieces.len() == 0 {
        Seq::empty()
    } else {
        pieces[0] + together(pieces.drop_first())
    }
}

/// The size of a chunk, as it is sent, holds no carriage return.
proof fn lemma_size_bytes(n: nat)
    ensures
        !encode_utf8(number::written(n, 16)).contains(13u8),
{
    let digits = number::written(n, 16);
    number::lemma_written(n, 16);
    if encode_utf8(digits).contains(13u8) {
        encoding::lemma_ascii_byte(digits, 13u8);
        let i = choose|i: int| 0 <= i < digits.len() && digits[i] == 13u8 as char;
        assert('0' <= digits[i]);
    }
}

/// The size that starts a chunk is read.
proof fn lemma_chunk_size(n: nat, rest: Seq<u8>)
    requires
        n <= usize::MAX,
    ensures
        request::chunk_head(encode_utf8(number::written(n, 16)) + bytes::crlf() + rest) == Some(
            (n, encode_utf8(number::written(n, 16)).len() as int + 2),
        ),
{
    broadcast use {encode_utf8_valid_utf8, encode_utf8_decode_utf8};

    let digits = number::written(n, 16);
    let e = encode_utf8(digits);
    number::lemma_written(n, 16);
    number::law_written_reads_back(n, 16, usize::MAX as nat);
    lemma_size_bytes(n);
    seqs::lemma_find_first_element(e, bytes::crlf(), rest);
    let data = e + bytes::crlf() + rest;
    assert(data.take(e.len() as int) =~= e);
    assert('0' <= digits[0] <= 'f' && '0' <= digits.last() <= 'f');
    text::lemma_trim_keeps(digits);
}

/// A line without a carriage return does not end before its end is there.
proof fn lemma_line_cut(line: Seq<u8>, k: int)
    requires
        !line.contains(13u8),
        0 <= k < line.len() + 2,
    ensures
        seqs::find((line + bytes::crlf()).take(k), bytes::crlf()) is None,
{
    let q = (line + bytes::crlf()).take(k);
    seqs::lemma_find_from(q, bytes::crlf(), 0);
    if let Some(j) = seqs::find(q, bytes::crlf()) {
        assert(j < line.len());
        assert(q.subrange(j, j + 2)[0] == q[j]);
        assert(q[j] == line[j]);
        assert(line.contains(line[j]));
    }
}

/// The size of a chunk is not read before the line end behind it is there.
proof fn lemma_chunk_size_cut(n: nat, k: int)
    requires
        0 <= k < encode_utf8(number::written(n, 16)).len() + 2,
    ensures
        request::chunk_head((encode_utf8(number::written(n, 16)) + bytes::crlf()).take(k)) is None,
{
    lemma_size_bytes(n);
    lemma_line_cut(encode_utf8(number::written(n, 16)), k);
}

/// A body that was sent in chunks, however it was cut, is read as the whole once the size of the
/// chunk that ends it is there, and nothing behind that changes it. The sizes fit, if the bytes do.
pub proof fn law_chunks_read_back(pieces: Seq<Seq<u8>>, behind: Seq<u8>)
    requires
        forall|i: int| 0 <= i < pieces.len() ==> 0 < (#[trigger] pieces[i]).len() <= usize::MAX,
    ensures
        request::unchunked(chunks(pieces) + behind) == Some(together(pieces)),
        chunks(pieces).len() + behind.len() <= usize::MAX ==> request::chunk_sizes_fit(
            chunks(pieces) + behind,
            0,
        ),
    decreases pieces.len(),
{
    let data = chunks(pieces) + behind;
    if pieces.len() == 0 {
        lemma_chunk_size(0, behind);
    } else {
        let piece = pieces[0];
        let rest = pieces.drop_first();
        assert forall|i: int| 0 <= i < rest.len() implies 0 < (#[trigger] rest[i]).len()
            <= usize::MAX by {
            assert(rest[i] == pieces[i + 1]);
        }
        law_chunks_read_back(rest, behind);
        let tail = chunks(rest) + behind;
        let size = encode_utf8(number::written(piece.len(), 16));
        lemma_chunk_size(piece.len(), piece + bytes::crlf() + tail);
        assert(data =~= size + bytes::crlf() + (piece + bytes::crlf() + tail));
        let start = size.len() as int + 2;
        assert(data.subrange(start, start + piece.len()) =~= piece);
        assert(data.skip(start + piece.len() + 2) =~= tail);
    }
    if data.len() <= usize::MAX {
        request::lemma_whole_chunks_fit(data, 0);
    }
}

/// The chunks of a body that stand `pos` bytes behind its start, cut off after `k` bytes.
proof fn lemma_chunks_cut(pieces: Seq<Seq<u8>>, pos: int, k: int)
    requires
        forall|i: int| 0 <= i < pieces.len() ==> 0 < (#[trigger] pieces[i]).len() <= usize::MAX,
        0 <= pos,
        0 <= k < chunks(pieces).len(),
    ensures
        request::unchunked(chunks(pieces).take(k)) is None,
        pos + chunks(pieces).len() <= usize::MAX ==> request::chunk_sizes_fit(
            chunks(pieces).take(k),
            pos,
        ),
    decreases pieces.len(),
{
    let e = chunks(pieces);
    let q = e.take(k);
    if pieces.len() == 0 {
        lemma_chunk_size_cut(0, k);
    } else {
        let piece = pieces[0];
        let rest = pieces.drop_first();
        assert forall|i: int| 0 <= i < rest.len() implies 0 < (#[trigger] rest[i]).len()
            <= usize::MAX by {
            assert(rest[i] == pieces[i + 1]);
        }
        let size = encode_utf8(number::written(piece.len(), 16));
        let line = size + bytes::crlf();
        let start = line.len() as int;
        let next = start + piece.len() + 2;
        assert(e =~= line + (piece + bytes::crlf() + chunks(rest)));
        if k < start {
            assert(q =~= line.take(k));
            lemma_chunk_size_cut(piece.len(), k);
        } else {
            assert(q =~= line + q.skip(start));
            lemma_chunk_size(piece.len(), q.skip(start));
            if k >= next {
                assert(q.skip(next) =~= chunks(rest).take(k - next));
                lemma_chunks_cut(rest, pos + next, k - next);
            }
        }
    }
}

/// A body that was sent in chunks is not read before all of it is there, up to the size of the
/// chunk that ends it. Its sizes fit all the same, if the whole does.
pub proof fn law_cut_chunks_wait(pieces: Seq<Seq<u8>>, k: int)
    requires
        forall|i: int| 0 <= i < pieces.len() ==> 0 < (#[trigger] pieces[i]).len() <= usize::MAX,
        0 <= k < chunks(pieces).len(),
    ensures
        request::unchunked(chunks(pieces).take(k)) is None,
        chunks(pieces).len() <= usize::MAX ==> request::chunk_sizes_fit(
            chunks(pieces).take(k),
            0,
        ),
{
    lemma_chunks_cut(pieces, 0, k);
}

// ---------------------------------------------------------------------------
// Whole requests
// ---------------------------------------------------------------------------

/// The field in place `k` is the last one of its name, in whatever case names are written.
pub open spec fn last_of_name(fields: Seq<(Seq<char>, Seq<char>)>, k: int) -> bool {
    0 <= k < fields.len() && forall|j: int|
        k < j < fields.len() ==> text::lowercase(#[trigger] fields[j].0) != text::lowercase(
            fields[k].0,
        )
}

/// No field has this name, which is in lower case.
pub open spec fn unnamed(fields: Seq<(Seq<char>, Seq<char>)>, name: Seq<char>) -> bool {
    forall|j: int| 0 <= j < fields.len() ==> text::lowercase(#[trigger] fields[j].0) != name
}

proof fn lemma_unnamed(
    fields: Seq<(Seq<char>, Seq<char>)>,
    known: Map<Seq<char>, Seq<char>>,
    name: Seq<char>,
)
    requires
        unnamed(fields, name),
    ensures
        fields_by_name(fields, known).contains_key(name) == known.contains_key(name),
        fields_by_name(fields, known)[name] == known[name],
    decreases fields.len(),
{
    if fields.len() > 0 {
        let rest = fields.drop_first();
        assert forall|j: int| 0 <= j < rest.len() implies text::lowercase(#[trigger] rest[j].0)
            != name by {
            assert(rest[j] == fields[j + 1]);
        }
        assert(text::lowercase(fields[0].0) != name);
        lemma_unnamed(rest, known.insert(text::lowercase(fields[0].0), fields[0].1), name);
    }
}

proof fn lemma_last_of_name(
    fields: Seq<(Seq<char>, Seq<char>)>,
    known: Map<Seq<char>, Seq<char>>,
    k: int,
)
    requires
        last_of_name(fields, k),
    ensures
        fields_by_name(fields, known).contains_key(text::lowercase(fields[k].0)),
        fields_by_name(fields, known)[text::lowercase(fields[k].0)] == fields[k].1,
    decreases fields.len(),
{
    let rest = fields.drop_first();
    let next = known.insert(text::lowercase(fields[0].0), fields[0].1);
    assert forall|j: int| 0 <= j < rest.len() implies #[trigger] rest[j] == fields[j + 1] by {}
    if k > 0 {
        assert(last_of_name(rest, k - 1));
        lemma_last_of_name(rest, next, k - 1);
    } else {
        assert(unnamed(rest, text::lowercase(fields[0].0)));
        lemma_unnamed(rest, next, text::lowercase(fields[0].0));
    }
}

/// A text that is `name` up to the case of its letters is `name` in lower case.
proof fn lemma_lower_name(s: Seq<char>, name: Seq<char>)
    requires
        is_ascii_chars(name),
        text::ascii_lowercase(name) == name,
        text::same_ignoring_ascii_case(s, name),
    ensures
        is_ascii_chars(s),
        text::lowercase(s) == name,
{
    assert forall|i: int| 0 <= i < s.len() implies '\0' <= #[trigger] s[i] <= '\u{7f}' by {
        assert('\0' <= name[i] <= '\u{7f}');
    }
    assert(text::ascii_lowercase(s) =~= text::ascii_lowercase(name));
}

/// The names of the header fields that tell how a body is sent.
proof fn lemma_body_fields()
    ensures
        is_ascii_chars("transfer-encoding"@),
        text::ascii_lowercase("transfer-encoding"@) == "transfer-encoding"@,
        is_ascii_chars("content-length"@),
        text::ascii_lowercase("content-length"@) == "content-length"@,
        is_ascii_chars("chunked"@),
        text::ascii_lowercase("chunked"@) == "chunked"@,
        "transfer-encoding"@ != "content-length"@,
{
    reveal_strlit("transfer-encoding");
    reveal_strlit("content-length");
    reveal_strlit("chunked");
    assert(text::ascii_lowercase("transfer-encoding"@) =~= "transfer-encoding"@);
    assert(text::ascii_lowercase("content-length"@) =~= "content-length"@);
    assert(text::ascii_lowercase("chunked"@) =~= "chunked"@);
    assert("transfer-encoding"@.len() != "content-length"@.len());
}

/// The pieces, one after the other, are the sequence that they were cut from.
proof fn lemma_together(pieces: Seq<Seq<u8>>)
    ensures
        together(pieces) == pieces.flatten(),
    decreases pieces.len(),
{
    if pieces.len() > 0 {
        lemma_together(pieces.drop_first());
    }
}

/// A coding that ends in or holds `chunked`, in any mix of cases, is one of chunks.
proof fn lemma_chunked_coding(
    fields: Map<Seq<char>, Seq<char>>,
    before: Seq<char>,
    coding: Seq<char>,
    behind: Seq<char>,
)
    requires
        fields.contains_key("transfer-encoding"@),
        fields["transfer-encoding"@] == before + coding + behind,
        is_ascii_chars(before),
        is_ascii_chars(behind),
        text::same_ignoring_ascii_case(coding, "chunked"@),
    ensures
        request::is_chunked(fields),
{
    lemma_body_fields();
    lemma_lower_name(coding, "chunked"@);
    let value = before + coding + behind;
    assert(is_ascii_chars(value));
    let lower = text::lowercase(value);
    let n = before.len() as int;
    assert(lower.subrange(n, n + coding.len()) =~= text::ascii_lowercase(coding));
    assert(seqs::occurs_at(lower, "chunked"@, n));
    seqs::lemma_find_from(lower, "chunked"@, 0);
}

/// A request whose last `Transfer-Encoding` names the coding `chunked`, alone or among others and
/// in any mix of cases, has the pieces of its body put together, whatever its other header fields
/// are, be it a length or a type. It is too large exactly if the pieces together are.
pub proof fn law_chunked_request(
    h: Head,
    k: int,
    before: Seq<char>,
    coding: Seq<char>,
    after: Seq<char>,
    pieces: Seq<Seq<u8>>,
    behind: Seq<u8>,
    max: nat,
)
    requires
        writable(h),
        last_of_name(h.fields, k),
        text::same_ignoring_ascii_case(h.fields[k].0, "transfer-encoding"@),
        h.fields[k].1 == before + coding + after,
        is_ascii_chars(before),
        is_ascii_chars(after),
        text::same_ignoring_ascii_case(coding, "chunked"@),
        forall|i: int| 0 <= i < pieces.len() ==> 0 < (#[trigger] pieces[i]).len() <= usize::MAX,
    ensures
        pieces.flatten().len() > max ==> request::parsed(sent(h, chunks(pieces) + behind), max)
            is TooLarge,
        pieces.flatten().len() <= max ==> (request::parsed(
            sent(h, chunks(pieces) + behind),
            max,
        ) matches request::ParseView::Complete(req) && req.body == pieces.flatten() && req.uri
            == h.uri),
{
    let fields = fields_by_name(h.fields, Map::empty());
    lemma_body_fields();
    lemma_lower_name(h.fields[k].0, "transfer-encoding"@);
    lemma_last_of_name(h.fields, Map::empty(), k);
    lemma_chunked_coding(fields, before, coding, after);
    law_chunks_read_back(pieces, behind);
    lemma_together(pieces);
    law_head_read_back(h, chunks(pieces) + behind, max);
}

/// A request in chunks is waited for until the size of the chunk that ends it is there, whatever
/// its other header fields are.
pub proof fn law_chunked_request_waits(
    h: Head,
    k: int,
    pieces: Seq<Seq<u8>>,
    n: int,
    max: nat,
)
    requires
        writable(h),
        last_of_name(h.fields, k),
        text::same_ignoring_ascii_case(h.fields[k].0, "transfer-encoding"@),
        text::same_ignoring_ascii_case(h.fields[k].1, "chunked"@),
        forall|i: int| 0 <= i < pieces.len() ==> 0 < (#[trigger] pieces[i]).len() <= usize::MAX,
        0 <= n < chunks(pieces).len(),
    ensures
        request::parsed(sent(h, chunks(pieces).take(n)), max) is Incomplete,
{
    let fields = fields_by_name(h.fields, Map::empty());
    lemma_body_fields();
    lemma_lower_name(h.fields[k].0, "transfer-encoding"@);
    lemma_last_of_name(h.fields, Map::empty(), k);
    let none = Seq::<char>::empty();
    assert(h.fields[k].1 =~= none + h.fields[k].1 + none);
    lemma_chunked_coding(fields, none, h.fields[k].1, none);
    law_cut_chunks_wait(pieces, n);
    law_head_read_back(h, chunks(pieces).take(n), max);
}

/// A chunk of less than sixteen bytes is one hexadecimal digit, a line end, the bytes and a line
/// end; the body ends with the digit zero and a line end.
pub proof fn law_small_chunk(piece: Seq<u8>)
    requires
        piece.len() < 16,
    ensures
        chunk(piece) == seq![
            if piece.len() < 10 {
                (48 + piece.len()) as u8
            } else {
                (87 + piece.len()) as u8
            },
            13u8,
            10u8,
        ] + piece + seq![13u8, 10u8],
        last_chunk() == seq![48u8, 13u8, 10u8],
{
    let c = number::digit_char(piece.len());
    encoding::lemma_ascii_char(c);
    encoding::lemma_ascii_char('0');
    assert(number::digit_char(0) == '0');
    assert(number::written(piece.len(), 16) =~= seq![c]);
    assert(number::written(0, 16) =~= seq!['0']);
    assert(chunk(piece) =~= seq![c as u8, 13u8, 10u8] + piece + seq![13u8, 10u8]);
    assert(last_chunk() =~= seq!['0' as u8, 13u8, 10u8]);
}

/// A request whose last `Content-Length` gives a number, and that has no `Transfer-Encoding`, has a
/// body of that many bytes, whatever its other header fields are. A number above the limit is
/// refused before any of the body is there; of a shorter body the rest is waited for; what stands
/// behind the body is no part of it.
pub proof fn law_announced_request(h: Head, k: int, n: nat, data: Seq<u8>, max: nat)
    requires
        writable(h),
        last_of_name(h.fields, k),
        text::same_ignoring_ascii_case(h.fields[k].0, "content-length"@),
        number::parse_unsigned(h.fields[k].1, 10, usize::MAX as nat) == Some(n),
        unnamed(h.fields, "transfer-encoding"@),
    ensures
        n > max ==> request::parsed(sent(h, data), max) is TooLarge,
        n <= max && data.len() < n ==> request::parsed(sent(h, data), max) is Incomplete,
        n <= max && data.len() >= n ==> (request::parsed(sent(h, data), max)
            matches request::ParseView::Complete(req) && req.body == data.take(n as int)),
        request::sizes_fit(sent(h, data)),
{
    let fields = fields_by_name(h.fields, Map::empty());
    lemma_sent_head(h, data);
    lemma_body_fields();
    lemma_lower_name(h.fields[k].0, "content-length"@);
    lemma_last_of_name(h.fields, Map::empty(), k);
    lemma_unnamed(h.fields, Map::empty(), "transfer-encoding"@);
    law_head_read_back(h, data, max);
}

/// A `Content-Length` that is no number is refused.
pub proof fn law_bad_length(h: Head, k: int, data: Seq<u8>, max: nat)
    requires
        writable(h),
        last_of_name(h.fields, k),
        text::same_ignoring_ascii_case(h.fields[k].0, "content-length"@),
        number::parse_unsigned(h.fields[k].1, 10, usize::MAX as nat) is None,
        unnamed(h.fields, "transfer-encoding"@),
    ensures
        request::parsed(sent(h, data), max) is Invalid,
{
    lemma_body_fields();
    lemma_lower_name(h.fields[k].0, "content-length"@);
    lemma_last_of_name(h.fields, Map::empty(), k);
    lemma_unnamed(h.fields, Map::empty(), "transfer-encoding"@);
    law_head_read_back(h, data, max);
}

/// A request without `Content-Length` and `Transfer-Encoding` has no body, whatever follows.
pub proof fn law_bodyless_request(h: Head, data: Seq<u8>, max: nat)
    requires
        writable(h),
        unnamed(h.fields, "transfer-encoding"@),
        unnamed(h.fields, "content-length"@),
    ensures
        request::parsed(sent(h, data), max) matches request::ParseView::Complete(req)
            && req.body.len() == 0,
{
    lemma_unnamed(h.fields, Map::empty(), "transfer-encoding"@);
    lemma_unnamed(h.fields, Map::empty(), "content-length"@);
    law_head_read_back(h, data, max);
}

/// A request has the method, the path, the query string and the version that its first line gives.
pub proof fn law_first_line_read_back(h: Head, data: Seq<u8>, max: nat)
    requires
        writable(h),
    ensures
        request::parsed(sent(h, data), max) matches request::ParseView::Complete(req) ==> {
            &&& request::method_name(req.method) == h.method
            &&& req.uri == h.uri
            &&& h.query_string matches Some(q) ==> req.query_string == q
            &&& h.query_string is None ==> req.query_string.len() == 0
            &&& req.version == h.version
        },
{
    request::law_method_keeps_its_name(h.method);
    law_head_read_back(h, data, max);
}

/// A request has under every name of a header field, in lower case, the last value that was given.
pub proof fn law_field_read_back(h: Head, k: int, data: Seq<u8>, max: nat)
    requires
        writable(h),
        last_of_name(h.fields, k),
    ensures
        request::parsed(sent(h, data), max) matches request::ParseView::Complete(req) ==> {
            &&& req.headers.contains_key(text::lowercase(h.fields[k].0))
            &&& req.headers[text::lowercase(h.fields[k].0)] == h.fields[k].1
        },
{
    lemma_last_of_name(h.fields, Map::empty(), k);
    law_head_read_back(h, data, max);
}

/// A request has no header field that was not given.
pub proof fn law_no_field_made_up(h: Head, name: Seq<char>, data: Seq<u8>, max: nat)
    requires
        writable(h),
        unnamed(h.fields, name),
    ensures
        request::parsed(sent(h, data), max) matches request::ParseView::Complete(req)
            ==> !req.headers.contains_key(name),
{
    lemma_unnamed(h.fields, Map::empty(), name);
    law_head_read_back(h, data, max);
}

/// The host that a request names is told from its head alone: it is the last `Host`, if there is
/// one, whatever body follows and whether or not it is accepted.
pub proof fn law_named_host(h: Head, k: int, data: Seq<u8>)
    requires
        writable(h),
    ensures
        last_of_name(h.fields, k) && text::same_ignoring_ascii_case(h.fields[k].0, "host"@)
            ==> request::named_host(sent(h, data)) == h.fields[k].1,
        unnamed(h.fields, "host"@) ==> request::named_host(sent(h, data)).len() == 0,
{
    reveal_strlit("host");
    assert(text::ascii_lowercase("host"@) =~= "host"@);
    lemma_sent_head(h, data);
    if last_of_name(h.fields, k) && text::same_ignoring_ascii_case(h.fields[k].0, "host"@) {
        lemma_lower_name(h.fields[k].0, "host"@);
        lemma_last_of_name(h.fields, Map::empty(), k);
    }
    if unnamed(h.fields, "host"@) {
        lemma_unnamed(h.fields, Map::empty(), "host"@);
    }
}

/// A request with a `Transfer-Encoding` that does not hold the coding `chunked` has no body that
/// could be told from what follows it.
pub proof fn law_other_coding(h: Head, k: int, data: Seq<u8>, max: nat)
    requires
        writable(h),
        last_of_name(h.fields, k),
        text::same_ignoring_ascii_case(h.fields[k].0, "transfer-encoding"@),
        forall|i: int|
            !#[trigger] seqs::occurs_at(text::lowercase(h.fields[k].1), "chunked"@, i),
    ensures
        request::parsed(sent(h, data), max) matches request::ParseView::Complete(req)
            && req.body.len() == 0,
{
    lemma_body_fields();
    lemma_lower_name(h.fields[k].0, "transfer-encoding"@);
    lemma_last_of_name(h.fields, Map::empty(), k);
    seqs::lemma_find_from(text::lowercase(h.fields[k].1), "chunked"@, 0);
    law_head_read_back(h, data, max);
}

/// One more field in front of the end of a head is one more line: the name, a colon, a space and
/// the value. A head without fields is its first line.
pub proof fn law_head_as_sent(h: Head, f: (Seq<char>, Seq<char>), data: Seq<u8>)
    ensures
        h.fields.len() == 0 && h.query_string is None ==> sent(h, data) == encode_utf8(
            h.method + seq![' '] + h.uri + seq![' '] + h.version,
        ) + seq![13u8, 10u8, 13u8, 10u8] + data,
        h.fields.len() == 0 ==> (h.query_string matches Some(q) ==> sent(h, data) == encode_utf8(
            h.method + seq![' '] + h.uri + seq!['?'] + q + seq![' '] + h.version,
        ) + seq![13u8, 10u8, 13u8, 10u8] + data),
        sent(Head { fields: h.fields.push(f), ..h }, data) == section(head_lines(h)) + seq![
            13u8,
            10u8,
        ] + encode_utf8(f.0 + seq![':', ' '] + f.1) + seq![13u8, 10u8, 13u8, 10u8] + data,
{
    let more = Head { fields: h.fields.push(f), ..h };
    let line = encode_utf8(field_line(f));
    assert(field_line(f) =~= f.0 + seq![':', ' '] + f.1);
    assert(head_lines(more) =~= head_lines(h).push(line));
    lemma_section_push(head_lines(h), line);
    assert(bytes::crlf() =~= seq![13u8, 10u8]);
    assert(bytes::blank_line() =~= seq![13u8, 10u8, 13u8, 10u8]);
    if h.fields.len() == 0 {
        assert(head_lines(h) =~= seq![encode_utf8(first_line(h))]);
        match h.query_string {
            Some(q) => {
                assert(first_line(h) =~= h.method + seq![' '] + h.uri + seq!['?'] + q + seq![' ']
                    + h.version);
            },
            None => {},
        }
    }
}

proof fn lemma_section_push(lines: Seq<Seq<u8>>, line: Seq<u8>)
    requires
        lines.len() > 0,
    ensures
        section(lines.push(line)) == section(lines) + bytes::crlf() + line,
    decreases lines.len(),
{
    let all = lines.push(line);
    reveal_with_fuel(section, 2);
    if lines.len() > 1 {
        lemma_section_push(lines.drop_first(), line);
        assert(all.drop_first() =~= lines.drop_first().push(line));
        assert(section(all) =~= section(lines) + bytes::crlf() + line);
    } else {
        assert(all.drop_first() =~= seq![line]);
    }
}

/// The head of a request that was sent is found and read as it was meant.
proof fn lemma_sent_head(h: Head, data: Seq<u8>)
    requires
        writable(h),
    ensures
        seqs::find(sent(h, data), bytes::blank_line()) == Some(
            section(head_lines(h)).len() as int,
        ),
        request::head(sent(h, data).take(section(head_lines(h)).len() as int)) == Ok::<
            (request::RequestLine, Map<Seq<char>, Seq<char>>),
            Seq<char>,
        >((meant_line(h), fields_by_name(h.fields, Map::empty()))),
{
    broadcast use {encode_utf8_valid_utf8, encode_utf8_decode_utf8};

    let lines = head_lines(h);
    let head = section(lines);
    lemma_first_line(h);
    lemma_head_lines(h);
    lemma_section_end(lines, data);
    lemma_section_split(lines);
    lemma_fields_read(h.fields, Map::empty());
    assert(sent(h, data).take(head.len() as int) =~= head);
    let all = with_returns(lines);
    let first = lines[0];
    assert(plain_line(first));
    assert(lines.drop_first() =~= field_lines(h.fields));
    if lines.len() > 1 {
        assert(all[0] == first.push(13u8));
        assert(all[0].drop_last() =~= first);
        assert(all.drop_first() =~= with_returns(field_lines(h.fields)));
    } else {
        assert(first.contains(first.last()));
        assert(all.drop_first() =~= with_returns(field_lines(h.fields)));
    }
    assert(text::without_cr(all[0], 13u8) == first);
}

/// The lines of a head that can be written are plain.
proof fn lemma_head_lines(h: Head)
    requires
        writable(h),
    ensures
        plain_lines(head_lines(h)),
        head_lines(h).len() > 0,
{
    let lines = head_lines(h);
    lemma_first_line(h);
    lemma_line_bytes(first_line(h));
    assert forall|i: int| 0 <= i < lines.len() implies plain_line(#[trigger] lines[i]) by {
        if i > 0 {
            assert(writable_field(h.fields[i - 1]));
            lemma_field_line(h.fields[i - 1]);
            assert(lines[i] == encode_utf8(field_line(h.fields[i - 1])));
        }
    }
}

/// A request is waited for until the empty line behind its head is there.
pub proof fn law_cut_head_waits(h: Head, data: Seq<u8>, n: int, max: nat)
    requires
        writable(h),
        0 <= n < section(head_lines(h)).len() + 4,
    ensures
        request::parsed(sent(h, data).take(n), max) is Incomplete,
        request::sizes_fit(sent(h, data).take(n)),
{
    let whole = sent(h, data);
    let q = whole.take(n);
    let blank = bytes::blank_line();
    lemma_head_lines(h);
    lemma_section_end(head_lines(h), data);
    seqs::lemma_find_from(whole, blank, 0);
    seqs::lemma_find_from(q, blank, 0);
    if let Some(j) = seqs::find(q, blank) {
        assert(whole.subrange(j, j + 4) =~= q.subrange(j, j + 4));
        assert(seqs::occurs_at(whole, blank, j));
    }
}

/// A first line that lacks the target or the version is refused, whatever follows it.
pub proof fn law_broken_first_line(line: Seq<char>, data: Seq<u8>, max: nat)
    requires
        on_one_line(line),
        line.len() > 0,
        !line.contains(' ') || exists|a: Seq<char>, b: Seq<char>|
            #![trigger a + seq![' '] + b]
            line == a + seq![' '] + b && !a.contains(' ') && !b.contains(' '),
    ensures
        request::parsed(encode_utf8(line) + bytes::blank_line() + data, max) is Invalid,
{
    broadcast use {encode_utf8_valid_utf8, encode_utf8_decode_utf8};

    let lines = seq![encode_utf8(line)];
    lemma_line_bytes(line);
    assert(plain_lines(lines));
    lemma_section_end(lines, data);
    lemma_section_split(lines);
    let head = lines[0];
    let buffer = head + bytes::blank_line() + data;
    assert(buffer.take(head.len() as int) =~= head);
    assert(with_returns(lines) == lines);
    assert(head.contains(head.last()));
    assert(text::without_cr(lines[0], 13u8) == head);
    if line.contains(' ') {
        let (a, b) = choose|a: Seq<char>, b: Seq<char>|
            #![trigger a + seq![' '] + b]
            line == a + seq![' '] + b && !a.contains(' ') && !b.contains(' ');
        lemma_cut(a, ' ', b);
        lemma_no_cut(b, ' ');
    } else {
        lemma_no_cut(line, ' ');
    }
}

/// A text without `c` is not cut there.
pub proof fn lemma_no_cut(s: Seq<char>, c: char)
    requires
        !s.contains(c),
    ensures
        text::cut(s, c) is None,
{
    seqs::lemma_index_from(s, c, 0);
    if let Some(i) = seqs::index_of(s, c) {
        assert(s.contains(s[i]));
    }
}

/// The size of a chunk may be any number in hexadecimal digits, of either case and with white space
/// around it; the data follows the line end behind it, and two bytes, whatever they are, stand
/// behind the data.
pub proof fn law_chunk_is_decoded(
    line: Seq<char>,
    piece: Seq<u8>,
    gap: Seq<u8>,
    rest: Seq<u8>,
)
    requires
        on_one_line(line),
        number::parse_unsigned(text::trim(line), 16, usize::MAX as nat) == Some(piece.len()),
        gap.len() == 2,
    ensures
        piece.len() > 0 ==> request::unchunked(
            encode_utf8(line) + seq![13u8, 10u8] + piece + gap + rest,
        ) == match request::unchunked(rest) {
            Some(more) => Some(piece + more),
            None => None,
        },
        piece.len() == 0 ==> request::unchunked(encode_utf8(line) + seq![13u8, 10u8] + rest)
            == Some(Seq::<u8>::empty()),
{
    let behind = piece + gap + rest;
    lemma_size_line(line, behind);
    lemma_size_line(line, rest);
    let data = encode_utf8(line) + seq![13u8, 10u8] + piece + gap + rest;
    assert(data =~= encode_utf8(line) + bytes::crlf() + behind);
    assert(encode_utf8(line) + seq![13u8, 10u8] + rest =~= encode_utf8(line) + bytes::crlf()
        + rest);
    let start = encode_utf8(line).len() as int + 2;
    assert(data.subrange(start, start + piece.len()) =~= piece);
    assert(data.skip(start + piece.len() + 2) =~= rest);
}

proof fn lemma_size_line(line: Seq<char>, rest: Seq<u8>)
    requires
        on_one_line(line),
    ensures
        request::chunk_head(encode_utf8(line) + bytes::crlf() + rest)
            == match number::parse_unsigned(text::trim(line), 16, usize::MAX as nat) {
            Some(n) => Some((n, encode_utf8(line).len() as int + 2)),
            None => None,
        },
{
    broadcast use {encode_utf8_valid_utf8, encode_utf8_decode_utf8};

    let e = encode_utf8(line);
    if e.contains(13u8) {
        encoding::lemma_ascii_byte(line, 13u8);
        assert(13u8 as char == '\r');
    }
    seqs::lemma_find_first_element(e, bytes::crlf(), rest);
    let data = e + bytes::crlf() + rest;
    assert(data.take(e.len() as int) =~= e);
}

/// A chunk whose size is no number makes no body.
pub proof fn law_bad_chunk_size(line: Seq<char>, rest: Seq<u8>)
    requires
        on_one_line(line),
        number::parse_unsigned(text::trim(line), 16, usize::MAX as nat) is None,
    ensures
        request::unchunked(encode_utf8(line) + seq![13u8, 10u8] + rest) is None,
{
    lemma_size_line(line, rest);
    assert(encode_utf8(line) + seq![13u8, 10u8] + rest =~= encode_utf8(line) + bytes::crlf()
        + rest);
}

} // verus!
