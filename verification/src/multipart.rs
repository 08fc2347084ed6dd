//! File uploads in `multipart/form-data` bodies.

use crate::bytes;
use crate::encoding;
use crate::path;
use crate::response;
use crate::seqs;
use crate::text;
use crate::wire;
use vstd::prelude::*;
use vstd::slice::slice_subrange;
use vstd::utf8::*;

verus! {

// ---------------------------------------------------------------------------
// Model
// ---------------------------------------------------------------------------

/// An uploaded file.
#[verifier::ext_equal]
pub struct UploadView {
    pub name: Seq<char>,
    pub dest: Seq<char>,
    pub data: Seq<u8>,
}

/// `s` without the quotes at its ends.
pub open spec fn unquoted(s: Seq<char>) -> Seq<char> {
    text::trim_end_char(text::trim_start_char(s, '"'), '"')
}

/// The value of the first of the parameters, from `i` on, that starts with `prefix`.
pub open spec fn parameter_from(
    params: Seq<Seq<char>>,
    prefix: Seq<char>,
    i: int,
) -> Option<Seq<char>>
    decreases params.len() - i,
{
    if i < 0 || i >= params.len() {
        None
    } else {
        match text::after_prefix(text::trim(params[i]), prefix) {
            Some(value) => Some(unquoted(value)),
            None => parameter_from(params, prefix, i + 1),
        }
    }
}

/// The value of the first parameter, among those that semicolons part, that starts with `prefix`.
pub open spec fn parameter(s: Seq<char>, prefix: Seq<char>) -> Option<Seq<char>> {
    parameter_from(seqs::split(s, ';'), prefix, 0)
}

/// The boundary that a content type names.
pub open spec fn boundary(content_type: Seq<char>) -> Option<Seq<char>> {
    parameter(content_type, "boundary="@)
}

/// The name of the file that the header lines from `i` on give.
pub open spec fn filename_from(lines: Seq<Seq<char>>, i: int) -> Option<Seq<char>>
    decreases lines.len() - i,
{
    if i < 0 || i >= lines.len() {
        None
    } else if "content-disposition:"@.is_prefix_of(text::lowercase(lines[i])) {
        match parameter(lines[i], "filename="@) {
            Some(name) => Some(name),
            None => filename_from(lines, i + 1),
        }
    } else {
        filename_from(lines, i + 1)
    }
}

/// The name of the file that the headers of a part give.
pub open spec fn filename(headers: Seq<char>) -> Option<Seq<char>> {
    filename_from(text::lines(headers), 0)
}

/// What stands before every part, and after the last.
pub open spec fn delimiter(boundary: Seq<char>) -> Seq<u8> {
    encode_utf8("--"@ + boundary)
}

/// The file in one part: its name, and what follows the empty line. A part without an empty line,
/// without readable headers or without a name holds no file.
pub open spec fn part_file(part: Seq<u8>) -> Option<(Seq<char>, Seq<u8>)> {
    match seqs::find(part, bytes::blank_line()) {
        None => None,
        Some(h) => if valid_utf8(part.take(h)) {
            match filename(decode_utf8(part.take(h))) {
                Some(name) => Some((name, part.skip(h + 4))),
                None => None,
            }
        } else {
            None
        },
    }
}

/// The place where the next part after `pos` starts and the distance from there to the delimiter
/// that ends it, if there is such a part. A line end stands between a delimiter and its part.
pub open spec fn next_part(body: Seq<u8>, delim: Seq<u8>, pos: int) -> Option<(int, int)> {
    match seqs::find(body.skip(pos), delim) {
        None => None,
        Some(found) => {
            let start = pos + found + delim.len() + 2;
            if start > body.len() {
                None
            } else {
                match seqs::find(body.skip(start), delim) {
                    None => None,
                    Some(n) => Some((start, n)),
                }
            }
        },
    }
}

/// A part starts behind the place from which it is looked for.
pub proof fn lemma_next_part(body: Seq<u8>, delim: Seq<u8>, pos: int)
    requires
        0 <= pos <= body.len(),
    ensures
        next_part(body, delim, pos) matches Some((start, n)) ==> pos + 2 <= start && 0 <= n && start
            + n + delim.len() <= body.len(),
{
    seqs::lemma_find_from(body.skip(pos), delim, 0);
    if let Some(found) = seqs::find(body.skip(pos), delim) {
        let start = pos + found + delim.len() + 2;
        if start <= body.len() {
            seqs::lemma_find_from(body.skip(start), delim, 0);
        }
    }
}

/// Of every part that is met from `pos` on, the line end that closes it stands between its start
/// and the delimiter after it.
pub open spec fn parts_apart(body: Seq<u8>, delim: Seq<u8>, pos: int) -> bool
    decreases body.len() - pos,
{
    if pos < 0 || pos > body.len() {
        true
    } else {
        proof {
            lemma_next_part(body, delim, pos);
        }
        match next_part(body, delim, pos) {
            None => true,
            Some((start, n)) => n >= 2 && parts_apart(body, delim, start),
        }
    }
}

/// The files in the parts from `pos` on, up to the first part that leaves no room for the line end
/// that closes it.
pub open spec fn files_from(body: Seq<u8>, delim: Seq<u8>, pos: int) -> Seq<
    (Seq<char>, Seq<u8>),
>
    decreases body.len() - pos,
{
    if pos < 0 || pos > body.len() {
        Seq::empty()
    } else {
        proof {
            lemma_next_part(body, delim, pos);
        }
        match next_part(body, delim, pos) {
            None => Seq::empty(),
            Some((start, n)) => if n < 2 {
                Seq::empty()
            } else {
                let rest = files_from(body, delim, start);
                match part_file(body.subrange(start, start + n - 2)) {
                    Some(file) => seq![file] + rest,
                    None => rest,
                }
            },
        }
    }
}

/// The files, each with where it is to be saved: its name, seen from `dir`. A name that is an
/// absolute path stands for itself, and a `..` in a name is not resolved.
pub open spec fn placed(files: Seq<(Seq<char>, Seq<u8>)>, dir: Seq<char>) -> Seq<UploadView> {
    files.map_values(
        |f: (Seq<char>, Seq<u8>)|
            UploadView { name: f.0, dest: path::joined(dir, f.0), data: f.1 },
    )
}

/// The files of an upload.
pub open spec fn uploads(body: Seq<u8>, boundary: Seq<char>, dir: Seq<char>) -> Seq<UploadView> {
    placed(files_from(body, delimiter(boundary), 0), dir)
}

// ---------------------------------------------------------------------------
// Reading
// ---------------------------------------------------------------------------

/// An uploaded file, and where it is to be saved.
pub struct Upload {
    pub name: String,
    pub dest: String,
    pub data: Vec<u8>,
}

impl View for Upload {
    type V = UploadView;

    open spec fn view(&self) -> UploadView {
        UploadView { name: self.name@, dest: self.dest@, data: self.data@ }
    }
}

/// What every upload stands for.
pub open spec fn upload_views(v: Seq<Upload>) -> Seq<UploadView> {
    v.map_values(|u: Upload| u@)
}

/// The value of the first parameter that starts with `prefix`.
fn parameter_value(s: &[char], prefix: &str) -> (r: Option<String>)
    ensures
        match r {
            Some(v) => parameter(s@, prefix@) == Some(v@),
            None => parameter(s@, prefix@) is None,
        },
{
    let params = text::split_at_char(s, ';');
    let ghost all = text::slices(params@);
    let mut i: usize = 0;
    while i < params.len()
        invariant
            i <= params@.len(),
            all == text::slices(params@),
            parameter(s@, prefix@) == parameter_from(all, prefix@, i as int),
        decreases params@.len() - i,
    {
        assert(all[i as int] == params@[i as int]@);
        if let Some(value) = text::strip_prefix(text::trimmed(params[i]), prefix) {
            let bare = text::trimmed_end_char(text::trimmed_start_char(value, '"'), '"');
            return Some(text::string_of(bare));
        }
        i = i + 1;
    }
    None
}

/// The boundary that a content type names.
pub fn parse_boundary(content_type: &str) -> (r: Option<String>)
    ensures
        match r {
            Some(b) => boundary(content_type@) == Some(b@),
            None => boundary(content_type@) is None,
        },
{
    let chars = text::chars_of(content_type);
    parameter_value(chars.as_slice(), "boundary=")
}

/// The name of the file that the headers of a part give.
pub fn extract_filename(headers: &[char]) -> (r: Option<String>)
    ensures
        match r {
            Some(name) => filename(headers@) == Some(name@),
            None => filename(headers@) is None,
        },
{
    let lines = text::lines_of(headers);
    let ghost all = text::slices(lines@);
    let mut i: usize = 0;
    while i < lines.len()
        invariant
            i <= lines@.len(),
            all == text::slices(lines@),
            filename(headers@) == filename_from(all, i as int),
        decreases lines@.len() - i,
    {
        assert(all[i as int] == lines@[i as int]@);
        let line = text::string_of(lines[i]);
        let lower = text::to_lowercase(line.as_str());
        let lower_chars = text::chars_of(lower.as_str());
        if text::starts_with_text(lower_chars.as_slice(), "content-disposition:") {
            if let Some(name) = parameter_value(lines[i], "filename=") {
                return Some(name);
            }
        }
        i = i + 1;
    }
    None
}

/// The bytes of the delimiter for a boundary.
fn delimiter_bytes(boundary: &str) -> (r: Vec<u8>)
    ensures
        r@ == delimiter(boundary@),
        r@.len() >= 2,
{
    let mut line = "--".to_owned();
    line.append(boundary);
    let r = response::encoded(line.as_str());
    proof {
        lemma_delimiter(boundary@);
    }
    r
}

/// Looks for the next part after `pos`.
fn find_part(body: &[u8], delim: &[u8], pos: usize) -> (r: Option<(usize, usize)>)
    requires
        pos <= body@.len(),
        delim@.len() > 0,
    ensures
        match r {
            Some((start, n)) => next_part(body@, delim@, pos as int) == Some(
                (start as int, n as int),
            ) && pos + 2 <= start && start + n + delim@.len() <= body@.len(),
            None => next_part(body@, delim@, pos as int) is None,
        },
{
    let len: usize = body.len();
    let tail = slice_subrange(body, pos, len);
    assert(tail@ =~= body@.skip(pos as int));
    let found = match bytes::find_subsequence(tail, delim) {
        Some(f) => f,
        None => {
            return None;
        },
    };
    let behind: usize = pos + found + delim.len();
    if len - behind < 2 {
        return None;
    }
    let start: usize = behind + 2;
    let rest = slice_subrange(body, start, len);
    assert(rest@ =~= body@.skip(start as int));
    match bytes::find_subsequence(rest, delim) {
        Some(n) => Some((start, n)),
        None => None,
    }
}

/// The file in one part.
fn read_part(part: &[u8]) -> (r: Option<(String, Vec<u8>)>)
    ensures
        match r {
            Some((name, data)) => part_file(part@) == Some((name@, data@)),
            None => part_file(part@) is None,
        },
{
    let len: usize = part.len();
    let blank: [u8; 4] = [13u8, 10u8, 13u8, 10u8];
    assert(blank@ =~= bytes::blank_line());
    let h = match bytes::find_subsequence(part, blank.as_slice()) {
        Some(h) => h,
        None => {
            return None;
        },
    };
    let head = slice_subrange(part, 0, h);
    assert(head@ =~= part@.take(h as int));
    let headers = match text::decoded(head) {
        Some(c) => c,
        None => {
            return None;
        },
    };
    match extract_filename(headers.as_slice()) {
        Some(name) => {
            let data = slice_subrange(part, h + 4, len);
            assert(data@ =~= part@.skip(h + 4));
            Some((name, bytes::copy_of(data)))
        },
        None => None,
    }
}

/// The files in a body, and where each is to be saved, seen from `upload_dir`, up to the first part
/// that leaves no room for the line end that closes it; and whether there is no such part.
pub fn uploads_until_fault(body: &[u8], boundary: &str, upload_dir: &str) -> (r: (
    Vec<Upload>,
    bool,
))
    ensures
        upload_views(r.0@) == uploads(body@, boundary@, upload_dir@),
        r.1 == parts_apart(body@, delimiter(boundary@), 0),
{
    let delim = delimiter_bytes(boundary);
    let mut files: Vec<Upload> = Vec::new();
    let ghost all = files_from(body@, delim@, 0);
    let ghost mut seen: Seq<(Seq<char>, Seq<u8>)> = Seq::empty();
    let len: usize = body.len();
    let mut pos: usize = 0;
    assert(seen + all =~= all);
    assert(upload_views(files@) =~= placed(seen, upload_dir@));
    loop
        invariant
            pos <= body@.len(),
            len == body@.len(),
            delim@ == delimiter(boundary@),
            delim@.len() > 0,
            parts_apart(body@, delim@, 0) == parts_apart(body@, delim@, pos as int),
            all == files_from(body@, delim@, 0),
            all == seen + files_from(body@, delim@, pos as int),
            upload_views(files@) == placed(seen, upload_dir@),
        decreases body@.len() - pos,
    {
        match find_part(body, delim.as_slice(), pos) {
            Some((start, n)) => {
                if n < 2 {
                    assert(all =~= seen);
                    return (files, false);
                }
                let end: usize = start + (n - 2);
                let part = slice_subrange(body, start, end);
                let ghost rest = files_from(body@, delim@, start as int);
                match read_part(part) {
                    Some((name, data)) => {
                        let dest = path::join_path(upload_dir, name.as_str());
                        let ghost file = (name@, data@);
                        let ghost before = files@;
                        let upload = Upload { name, dest, data };
                        files.push(upload);
                        proof {
                            assert(upload_views(files@) =~= upload_views(before).push(upload@));
                            assert(placed(seen.push(file), upload_dir@) =~= placed(
                                seen,
                                upload_dir@,
                            ).push(upload@));
                            assert(seen + (seq![file] + rest) =~= seen.push(file) + rest);
                            seen = seen.push(file);
                        }
                    },
                    None => {},
                }
                pos = start;
            },
            None => {
                assert(all =~= seen);
                return (files, true);
            },
        }
    }
}

/// The files in a body, and where each is to be saved, seen from `upload_dir`.
pub fn save_multipart_uploads(body: &[u8], boundary: &str, upload_dir: &str) -> (r: Vec<Upload>)
    requires
        parts_apart(body@, delimiter(boundary@), 0),
    ensures
        upload_views(r@) == uploads(body@, boundary@, upload_dir@),
{
    uploads_until_fault(body, boundary, upload_dir).0
}

// ---------------------------------------------------------------------------
// Laws
// ---------------------------------------------------------------------------

/// A part as a client means it: its headers, which name a file or do not, and the contents.
pub struct Part {
    pub headers: Seq<char>,
    pub data: Seq<u8>,
}

/// A part as it is sent.
pub open spec fn part_bytes(p: Part) -> Seq<u8> {
    encode_utf8(p.headers) + bytes::blank_line() + p.data
}

/// A part that can be sent: its headers end at the first empty line, and the delimiter stands
/// nowhere before the end of the part.
pub open spec fn sendable(p: Part, delim: Seq<u8>) -> bool {
    &&& seqs::find(part_bytes(p), bytes::blank_line()) == Some(encode_utf8(p.headers).len() as int)
    &&& seqs::find(part_bytes(p) + bytes::crlf() + delim, delim) == Some(
        part_bytes(p).len() as int + 2,
    )
}

/// The parts as a client sends them: a delimiter before each, and one that ends the last.
pub open spec fn sent_parts(parts: Seq<Part>, delim: Seq<u8>) -> Seq<u8>
    decreases parts.len(),
{
    if parts.len() == 0 {
        delim + encode_utf8("--\r\n"@)
    } else {
        delim + bytes::crlf() + part_bytes(parts[0]) + bytes::crlf() + sent_parts(
            parts.drop_first(),
            delim,
        )
    }
}

/// The files that the parts carry: the contents of every part whose headers name a file.
pub open spec fn carried(parts: Seq<Part>) -> Seq<(Seq<char>, Seq<u8>)>
    decreases parts.len(),
{
    if parts.len() == 0 {
        Seq::empty()
    } else {
        let rest = carried(parts.drop_first());
        match filename(parts[0].headers) {
            Some(name) => seq![(name, parts[0].data)] + rest,
            None => rest,
        }
    }
}

/// A delimiter starts with two hyphens.
proof fn lemma_delimiter(boundary: Seq<char>)
    ensures
        delimiter(boundary).len() >= 2,
        delimiter(boundary)[0] == 45u8,
{
    reveal_strlit("--");
    encoding::lemma_encode_concat("--"@, boundary);
    is_ascii_chars_encode_utf8("--"@);
}

/// The parts that stand `k` bytes behind `pos` are read from `pos` on, if no delimiter stands in
/// between.
proof fn lemma_parts_read(body: Seq<u8>, delim: Seq<u8>, pos: int, k: int, parts: Seq<Part>)
    requires
        0 <= pos,
        0 <= k,
        pos + k <= body.len(),
        delim.len() >= 2,
        delim[0] == 45u8,
        body.skip(pos + k) == sent_parts(parts, delim),
        seqs::find(body.skip(pos), delim) == Some(k),
        forall|i: int| 0 <= i < parts.len() ==> sendable(#[trigger] parts[i], delim),
    ensures
        files_from(body, delim, pos) == carried(parts),
        parts_apart(body, delim, pos),
    decreases parts.len(),
{
    broadcast use {encode_utf8_valid_utf8, encode_utf8_decode_utf8};

    let sent = sent_parts(parts, delim);
    let start = pos + k + delim.len() + 2;
    if parts.len() == 0 {
        reveal_strlit("--\r\n");
        is_ascii_chars_encode_utf8("--\r\n"@);
        let end = encode_utf8("--\r\n"@);
        let rest = body.skip(start);
        assert(rest =~= end.skip(2)) by {
            assert(rest =~= body.skip(pos + k).skip(delim.len() as int + 2));
        }
        assert(end[2] == 13u8 && end[3] == 10u8);
        seqs::lemma_find_from(rest, delim, 0);
        if let Some(j) = seqs::find(rest, delim) {
            assert(rest.subrange(j, j + delim.len())[0] == rest[j]);
        }
    } else {
        let p = parts[0];
        let others = parts.drop_first();
        let content = part_bytes(p);
        let n = content.len() as int + 2;
        assert(sendable(p, delim));
        let after = sent_parts(others, delim);
        let rest = body.skip(start);
        assert(rest =~= content + bytes::crlf() + after) by {
            assert(rest =~= body.skip(pos + k).skip(delim.len() as int + 2));
        }
        let tail = after.skip(delim.len() as int);
        assert(after =~= delim + tail);
        assert(rest =~= (content + bytes::crlf() + delim) + tail);
        seqs::lemma_find_extends(content + bytes::crlf() + delim, delim, tail);
        assert(next_part(body, delim, pos) == Some((start, n)));
        assert(body.subrange(start, start + n - 2) =~= content) by {
            assert(body.subrange(start, start + n - 2) =~= rest.take(n - 2));
        }
        let h = encode_utf8(p.headers);
        assert(content.take(h.len() as int) =~= h);
        assert(content.skip(h.len() as int + 4) =~= p.data);
        assert(body.skip(start + n) =~= after) by {
            assert(body.skip(start + n) =~= rest.skip(n));
        }
        assert forall|i: int| 0 <= i < others.len() implies sendable(
            #[trigger] others[i],
            delim,
        ) by {
            assert(others[i] == parts[i + 1]);
        }
        lemma_parts_read(body, delim, start, n, others);
    }
}

/// Files that were sent as parts of a body are all read from it, in their order, with their names
/// and their contents. Parts that name no file, such as the other fields of a form, may stand among
/// them, and are passed over.
pub proof fn law_uploads_read_back(parts: Seq<Part>, boundary: Seq<char>, dir: Seq<char>)
    requires
        forall|i: int| 0 <= i < parts.len() ==> sendable(#[trigger] parts[i], delimiter(boundary)),
    ensures
        parts_apart(sent_parts(parts, delimiter(boundary)), delimiter(boundary), 0),
        uploads(sent_parts(parts, delimiter(boundary)), boundary, dir) == placed(
            carried(parts),
            dir,
        ),
{
    let delim = delimiter(boundary);
    let body = sent_parts(parts, delim);
    lemma_delimiter(boundary);
    assert(body.skip(0) =~= body);
    assert(body.subrange(0, delim.len() as int) =~= delim);
    seqs::lemma_find_is(body, delim, 0, 0);
    lemma_parts_read(body, delim, 0, 0, parts);
}

/// The text is on one line, and has no semicolon.
pub open spec fn plain_piece(s: Seq<char>) -> bool {
    !s.contains(';') && !s.contains('\n')
}

/// The text neither starts nor ends with a quote.
pub open spec fn unquoted_ends(s: Seq<char>) -> bool {
    s.len() > 0 ==> s[0] != '"' && s.last() != '"'
}

/// What the header of a part of a form says of the field.
pub open spec fn field_parameter(field: Seq<char>) -> Seq<char> {
    " name=\""@ + field + "\""@
}

/// What the header of a part of a form says of the file.
pub open spec fn file_parameter(name: Seq<char>) -> Seq<char> {
    " filename=\""@ + name + "\""@
}

/// The header of a part of a form, with the name of a file if it carries one.
pub open spec fn form_header(field: Seq<char>, file: Option<Seq<char>>) -> Seq<char> {
    match file {
        Some(name) => text::joined(
            seq!["Content-Disposition: form-data"@, field_parameter(field), file_parameter(name)],
            seq![';'],
        ),
        None => text::joined(
            seq!["Content-Disposition: form-data"@, field_parameter(field)],
            seq![';'],
        ),
    }
}

/// Quotes around a text that neither starts nor ends with one are taken off.
proof fn lemma_unquoted(name: Seq<char>)
    requires
        unquoted_ends(name),
    ensures
        unquoted(seq!['"'] + name + seq!['"']) == name,
{
    let s = seq!['"'] + name + seq!['"'];
    let opened = name + seq!['"'];
    assert(s.drop_first() =~= opened);
    reveal_with_fuel(text::trim_start_char, 3);
    reveal_with_fuel(text::trim_end_char, 3);
    if name.len() == 0 {
        assert(opened.drop_first() =~= Seq::<char>::empty());
        assert(name =~= Seq::<char>::empty());
    } else {
        assert(opened[0] == name[0]);
        assert(opened.drop_last() =~= name);
    }
}

/// Every character of a quoted parameter is one of the name or of what stands around it.
proof fn lemma_parameter_chars(prefix: Seq<char>, name: Seq<char>, c: char)
    requires
        (prefix + name + seq!['"']).contains(c),
    ensures
        prefix.contains(c) || name.contains(c) || c == '"',
{
    let s = prefix + name + seq!['"'];
    let i = choose|i: int| 0 <= i < s.len() && s[i] == c;
    if i < prefix.len() {
        assert(prefix[i] == c);
    } else if i < prefix.len() + name.len() {
        assert(name[i - prefix.len()] == c);
    }
}

/// A parameter whose parts are on one line and have no semicolon is such a text too.
proof fn lemma_parameter(prefix: Seq<char>, name: Seq<char>)
    requires
        plain_piece(name),
        plain_piece(prefix),
    ensures
        plain_piece(prefix + name + seq!['"']),
{
    let s = prefix + name + seq!['"'];
    if s.contains(';') {
        lemma_parameter_chars(prefix, name, ';');
    }
    if s.contains('\n') {
        lemma_parameter_chars(prefix, name, '\n');
    }
}

/// A header line of a part that starts with the disposition is looked through for a file.
proof fn lemma_disposition(header: Seq<char>, first: Seq<char>, rest: Seq<char>)
    requires
        first == "Content-Disposition: form-data"@,
        header == first + rest,
        !header.contains('\n'),
    ensures
        filename(header) == parameter(header, "filename="@),
{
    reveal_strlit("Content-Disposition: form-data");
    reveal_strlit("content-disposition:");
    seqs::lemma_index_from(header, '\n', 0);
    if let Some(i) = seqs::index_of(header, '\n') {
        assert(header.contains(header[i]));
    }
    assert(text::lines(header) =~= seq![header]);
    let lower = text::lowercase(header);
    let key = "content-disposition:"@;
    text::law_ascii_start_in_lower_case(first, rest);
    assert(text::ascii_lowercase(first).take(key.len() as int) =~= key);
    assert(lower.take(key.len() as int) =~= lower.take(first.len() as int).take(
        key.len() as int,
    ));
    reveal_with_fuel(filename_from, 2);
    assert(seq![header][0] == header);
}

/// Plain pieces that are joined by semicolons are on one line.
proof fn lemma_joined_pieces(pieces: Seq<Seq<char>>)
    requires
        forall|i: int| 0 <= i < pieces.len() ==> plain_piece(#[trigger] pieces[i]),
    ensures
        !text::joined(pieces, seq![';']).contains('\n'),
    decreases pieces.len(),
{
    if pieces.len() > 1 {
        let first = pieces[0];
        let rest = pieces.drop_first();
        assert forall|i: int| 0 <= i < rest.len() implies plain_piece(#[trigger] rest[i]) by {
            assert(rest[i] == pieces[i + 1]);
        }
        lemma_joined_pieces(rest);
        text::lemma_joined_first(pieces, seq![';']);
        let tail = text::joined(rest, seq![';']);
        let s = first + seq![';'] + tail;
        let n = first.len() as int;
        assert(plain_piece(first));
        assert forall|i: int| 0 <= i < s.len() implies #[trigger] s[i] != '\n' by {
            if i < n {
                assert(s[i] == first[i]);
                assert(first.contains(first[i]));
            } else if i > n {
                assert(s[i] == tail[i - n - 1]);
                assert(tail.contains(tail[i - n - 1]));
            }
        }
    } else if pieces.len() == 1 {
        assert(plain_piece(pieces[0]));
    }
}

/// The disposition of a part is a plain piece that names no file.
proof fn lemma_first_piece()
    ensures
        plain_piece("Content-Disposition: form-data"@),
        text::after_prefix(text::trim("Content-Disposition: form-data"@), "filename="@) is None,
{
    reveal_strlit("Content-Disposition: form-data");
    reveal_strlit("filename=");
    let first = "Content-Disposition: form-data"@;
    text::lemma_trim_keeps(first);
    assert(first[0] != "filename="@[0]);
}

/// What is said of the field is a plain piece that names no file.
proof fn lemma_field_piece(field: Seq<char>)
    requires
        plain_piece(field),
    ensures
        plain_piece(field_parameter(field)),
        text::after_prefix(text::trim(field_parameter(field)), "filename="@) is None,
{
    reveal_strlit(" name=\"");
    reveal_strlit("\"");
    reveal_strlit("filename=");
    assert("\""@ =~= seq!['"']);
    let named = field_parameter(field);
    let bare = named.drop_first();
    lemma_parameter(" name=\""@, field);
    assert(named =~= seq![' '] + bare);
    wire::lemma_trim_behind_space(bare);
    text::lemma_trim_keeps(bare);
    assert(bare[0] != "filename="@[0]);
}

/// What is said of the file is a plain piece that names it.
proof fn lemma_file_piece(name: Seq<char>)
    requires
        plain_piece(name),
    ensures
        plain_piece(file_parameter(name)),
        text::after_prefix(text::trim(file_parameter(name)), "filename="@) == Some(
            seq!['"'] + name + seq!['"'],
        ),
{
    reveal_strlit(" filename=\"");
    reveal_strlit("\"");
    reveal_strlit("filename=");
    assert("\""@ =~= seq!['"']);
    let filed = file_parameter(name);
    let bare = filed.drop_first();
    lemma_parameter(" filename=\""@, name);
    assert(filed =~= seq![' '] + bare);
    wire::lemma_trim_behind_space(bare);
    text::lemma_trim_keeps(bare);
    assert(bare.take(9) =~= "filename="@);
    assert(bare.skip(9) =~= seq!['"'] + name + seq!['"']);
}

/// The header that the pieces make is looked through for a file, piece by piece.
proof fn lemma_pieces_read(pieces: Seq<Seq<char>>)
    requires
        pieces.len() > 1,
        pieces[0] == "Content-Disposition: form-data"@,
        forall|i: int| 0 <= i < pieces.len() ==> plain_piece(#[trigger] pieces[i]),
    ensures
        filename(text::joined(pieces, seq![';'])) == parameter_from(pieces, "filename="@, 0),
{
    let header = text::joined(pieces, seq![';']);
    let tail = seq![';'] + text::joined(pieces.drop_first(), seq![';']);
    lemma_joined_pieces(pieces);
    text::lemma_joined_first(pieces, seq![';']);
    assert(header =~= pieces[0] + tail);
    lemma_disposition(header, pieces[0], tail);
    assert forall|i: int| 0 <= i < pieces.len() implies !(#[trigger] pieces[i]).contains(';') by {
        assert(plain_piece(pieces[i]));
    }
    text::law_joined_parts_are_split(pieces, ';');
}

/// A part of a form with a file is read as naming that file, and a part without one as naming
/// none.
pub proof fn law_form_header_read_back(field: Seq<char>, file: Option<Seq<char>>)
    requires
        plain_piece(field),
        file matches Some(name) ==> plain_piece(name) && unquoted_ends(name),
    ensures
        filename(form_header(field, file)) == file,
{
    let first = "Content-Disposition: form-data"@;
    let named = field_parameter(field);
    lemma_first_piece();
    lemma_field_piece(field);
    reveal_with_fuel(parameter_from, 4);
    match file {
        Some(name) => {
            lemma_file_piece(name);
            lemma_unquoted(name);
            lemma_pieces_read(seq![first, named, file_parameter(name)]);
        },
        None => {
            lemma_pieces_read(seq![first, named]);
        },
    }
}

/// The parameter in place `k` is the first of its name.
proof fn lemma_first_parameter(params: Seq<Seq<char>>, prefix: Seq<char>, i: int, k: int)
    requires
        0 <= i <= k < params.len(),
        forall|j: int| i <= j < k ==> !prefix.is_prefix_of(text::trim(#[trigger] params[j])),
    ensures
        parameter_from(params, prefix, i) == parameter_from(params, prefix, k),
    decreases k - i,
{
    if i < k {
        assert(!prefix.is_prefix_of(text::trim(params[i])));
        lemma_first_parameter(params, prefix, i + 1, k);
    }
}

/// The value of a parameter is read as it was written, in its own case, with or without quotes
/// around it, if it is the first of its name; the other parameters and white space around it do not
/// matter.
proof fn lemma_parameter_read_back(
    params: Seq<Seq<char>>,
    prefix: Seq<char>,
    k: int,
    value: Seq<char>,
    quoted: bool,
)
    requires
        0 <= k < params.len(),
        forall|j: int| 0 <= j < params.len() ==> !(#[trigger] params[j]).contains(';'),
        forall|j: int| 0 <= j < k ==> !prefix.is_prefix_of(text::trim(#[trigger] params[j])),
        unquoted_ends(value),
        text::trim(params[k]) == prefix + (if quoted {
            seq!['"'] + value + seq!['"']
        } else {
            value
        }),
    ensures
        parameter(text::joined(params, seq![';']), prefix) == Some(value),
{
    let written = if quoted {
        seq!['"'] + value + seq!['"']
    } else {
        value
    };
    let own = prefix + written;
    assert(own.take(prefix.len() as int) =~= prefix);
    assert(own.skip(prefix.len() as int) =~= written);
    text::law_joined_parts_are_split(params, ';');
    lemma_first_parameter(params, prefix, 0, k);
    if quoted {
        lemma_unquoted(value);
    } else {
        assert(unquoted(value) == value);
    }
}

/// The boundary that a content type names is taken as it is written, in its own case, with or
/// without quotes, whatever other parameters stand around it.
pub proof fn law_boundary_read_back(
    params: Seq<Seq<char>>,
    k: int,
    value: Seq<char>,
    quoted: bool,
)
    requires
        0 <= k < params.len(),
        forall|j: int| 0 <= j < params.len() ==> !(#[trigger] params[j]).contains(';'),
        forall|j: int|
            0 <= j < k ==> !"boundary="@.is_prefix_of(text::trim(#[trigger] params[j])),
        unquoted_ends(value),
        text::trim(params[k]) == "boundary="@ + (if quoted {
            seq!['"'] + value + seq!['"']
        } else {
            value
        }),
    ensures
        boundary(text::joined(params, seq![';'])) == Some(value),
{
    lemma_parameter_read_back(params, "boundary="@, k, value, quoted);
}

/// A content type without the parameter names no boundary.
pub proof fn law_no_boundary(params: Seq<Seq<char>>)
    requires
        params.len() > 0,
        forall|j: int| 0 <= j < params.len() ==> !(#[trigger] params[j]).contains(';'),
        forall|j: int|
            0 <= j < params.len() ==> !"boundary="@.is_prefix_of(text::trim(#[trigger] params[j])),
    ensures
        boundary(text::joined(params, seq![';'])) is None,
{
    text::law_joined_parts_are_split(params, ';');
    let last = params.len() - 1;
    lemma_first_parameter(params, "boundary="@, 0, last);
    assert(!"boundary="@.is_prefix_of(text::trim(params[last])));
    reveal_with_fuel(parameter_from, 2);
}

/// The content type of a form names the boundary that stands behind it, with or without quotes.
pub proof fn law_form_type(value: Seq<char>)
    requires
        !value.contains(';'),
        unquoted_ends(value),
        value.len() > 0 ==> !text::is_space(value.last()),
    ensures
        boundary("multipart/form-data; boundary="@ + value) == Some(value),
        boundary("multipart/form-data; boundary="@ + seq!['"'] + value + seq!['"']) == Some(value),
        seqs::find("multipart/form-data; boundary="@ + value, "multipart/form-data"@) is Some,
{
    reveal_strlit("multipart/form-data; boundary=");
    reveal_strlit("multipart/form-data");
    reveal_strlit(" boundary=");
    reveal_strlit("boundary=");
    let kind = "multipart/form-data"@;
    let quoted = seq!['"'] + value + seq!['"'];
    lemma_form_type(value);
    lemma_form_type(quoted);
    let plain_params = seq![kind, " boundary="@ + value];
    let quoted_params = seq![kind, " boundary="@ + quoted];
    text::lemma_trim_keeps(kind);
    assert(kind[0] != "boundary="@[0]);
    assert forall|j: int| 0 <= j < 1 implies !"boundary="@.is_prefix_of(
        text::trim(#[trigger] plain_params[j]),
    ) by {}
    assert forall|j: int| 0 <= j < 1 implies !"boundary="@.is_prefix_of(
        text::trim(#[trigger] quoted_params[j]),
    ) by {}
    assert(!quoted.contains(';')) by {
        if quoted.contains(';') {
            let i = choose|i: int| 0 <= i < quoted.len() && quoted[i] == ';';
            assert(value[i - 1] == ';');
        }
    }
    lemma_form_params(value);
    lemma_form_params(quoted);
    law_boundary_read_back(plain_params, 1, value, false);
    law_boundary_read_back(quoted_params, 1, value, true);
    assert("multipart/form-data; boundary="@ + seq!['"'] + value + seq!['"']
        =~= "multipart/form-data; boundary="@ + quoted);
    let all = "multipart/form-data; boundary="@ + value;
    assert(all.subrange(0, kind.len() as int) =~= kind);
    assert(seqs::occurs_at(all, kind, 0));
    seqs::lemma_find_from(all, kind, 0);
}

/// The content type of a form is its kind and the parameter of the boundary, parted by a semicolon.
proof fn lemma_form_type(value: Seq<char>)
    ensures
        text::joined(seq!["multipart/form-data"@, " boundary="@ + value], seq![';'])
            == "multipart/form-data; boundary="@ + value,
{
    reveal_strlit("multipart/form-data; boundary=");
    reveal_strlit("multipart/form-data");
    reveal_strlit(" boundary=");
    let params = seq!["multipart/form-data"@, " boundary="@ + value];
    reveal_with_fuel(text::joined, 2);
    assert(params.drop_last() =~= seq!["multipart/form-data"@]);
    assert(text::joined(params, seq![';']) =~= "multipart/form-data; boundary="@ + value);
}

/// Neither part of the content type of a form holds a semicolon, and white space in front of the
/// parameter is trimmed.
proof fn lemma_form_params(value: Seq<char>)
    requires
        !value.contains(';'),
        value.len() > 0 ==> !text::is_space(value.last()),
    ensures
        !("multipart/form-data"@).contains(';'),
        !(" boundary="@ + value).contains(';'),
        text::trim(" boundary="@ + value) == "boundary="@ + value,
{
    reveal_strlit("multipart/form-data");
    reveal_strlit(" boundary=");
    reveal_strlit("boundary=");
    let param = " boundary="@ + value;
    if param.contains(';') {
        let i = choose|i: int| 0 <= i < param.len() && param[i] == ';';
        if i >= 10 {
            assert(value[i - 10] == ';');
        }
    }
    let own = "boundary="@ + value;
    assert(param =~= seq![' '] + own);
    wire::lemma_trim_behind_space(own);
    text::lemma_trim_keeps(own);
}

/// The first line from `i` on that gives a disposition is the one in place `k`.
proof fn lemma_first_disposition(lines: Seq<Seq<char>>, i: int, k: int)
    requires
        0 <= i <= k <= lines.len(),
        forall|j: int|
            i <= j < k ==> !"content-disposition:"@.is_prefix_of(
                text::lowercase(#[trigger] lines[j]),
            ),
    ensures
        filename_from(lines, i) == filename_from(lines, k),
    decreases k - i,
{
    if i < k {
        assert(!"content-disposition:"@.is_prefix_of(text::lowercase(lines[i])));
        lemma_first_disposition(lines, i + 1, k);
    }
}

/// Of the header lines of a part, in whatever order they stand, the disposition names the file. Its
/// own name may be written in any mix of cases; the name of the file is taken as it is written,
/// whatever other parameters stand before or behind it.
pub proof fn law_part_headers_read_back(
    lines: Seq<Seq<char>>,
    k: int,
    key: Seq<char>,
    rest: Seq<char>,
    params: Seq<Seq<char>>,
    p: int,
    name: Seq<char>,
    quoted: bool,
)
    requires
        forall|i: int|
            0 <= i < lines.len() ==> !(#[trigger] lines[i]).contains('\n') && (lines[i].len() > 0
                ==> lines[i].last() != '\r'),
        lines.last().len() > 0,
        0 <= k < lines.len(),
        forall|j: int|
            0 <= j < k ==> !"content-disposition:"@.is_prefix_of(
                text::lowercase(#[trigger] lines[j]),
            ),
        lines[k] == key + rest,
        is_ascii_chars(key),
        text::same_ignoring_ascii_case(key, "content-disposition:"@),
        lines[k] == text::joined(params, seq![';']),
        0 <= p < params.len(),
        forall|j: int| 0 <= j < params.len() ==> !(#[trigger] params[j]).contains(';'),
        forall|j: int|
            0 <= j < p ==> !"filename="@.is_prefix_of(text::trim(#[trigger] params[j])),
        unquoted_ends(name),
        text::trim(params[p]) == "filename="@ + (if quoted {
            seq!['"'] + name + seq!['"']
        } else {
            name
        }),
    ensures
        filename(text::joined(lines, seq!['\r', '\n'])) == Some(name),
{
    text::law_parted_lines_read_back(lines, true);
    lemma_first_disposition(lines, 0, k);
    lemma_parameter_read_back(params, "filename="@, p, name, quoted);
    lemma_disposition_key(key, rest);
}

/// The name of the disposition is found in any mix of cases.
proof fn lemma_disposition_key(key: Seq<char>, rest: Seq<char>)
    requires
        is_ascii_chars(key),
        text::same_ignoring_ascii_case(key, "content-disposition:"@),
    ensures
        "content-disposition:"@.is_prefix_of(text::lowercase(key + rest)),
{
    reveal_strlit("content-disposition:");
    let own = "content-disposition:"@;
    text::law_ascii_start_in_lower_case(key, rest);
    assert(text::ascii_lowercase(own) =~= own);
    assert(text::ascii_lowercase(key) =~= text::ascii_lowercase(own));
}

/// A part without a disposition names no file.
pub proof fn law_no_file_named(lines: Seq<Seq<char>>)
    requires
        forall|i: int|
            0 <= i < lines.len() ==> !(#[trigger] lines[i]).contains('\n') && (lines[i].len() > 0
                ==> lines[i].last() != '\r'),
        lines.len() > 0 ==> lines.last().len() > 0,
        forall|j: int|
            0 <= j < lines.len() ==> !"content-disposition:"@.is_prefix_of(
                text::lowercase(#[trigger] lines[j]),
            ),
    ensures
        filename(text::joined(lines, seq!['\r', '\n'])) is None,
{
    text::law_parted_lines_read_back(lines, true);
    lemma_first_disposition(lines, 0, lines.len() as int);
}

/// One more part in front of the others adds the file that its headers name, with its contents, and
/// a part that names none adds nothing.
pub proof fn law_carried_files(p: Part, parts: Seq<Part>)
    ensures
        filename(p.headers) matches Some(name) ==> carried(seq![p] + parts) == seq![
            (name, p.data),
        ] + carried(parts),
        filename(p.headers) is None ==> carried(seq![p] + parts) == carried(parts),
        carried(Seq::empty()) == Seq::<(Seq<char>, Seq<u8>)>::empty(),
{
    assert((seq![p] + parts).drop_first() =~= parts);
}

/// The files that are sent as the parts of a form under a boundary, each behind two hyphens and the
/// boundary, are read from it one for one: with the name that its headers give, the contents that
/// follow its empty line, and the place under the directory for uploads.
pub proof fn law_form_files(
    parts: Seq<Part>,
    names: Seq<Seq<char>>,
    boundary: Seq<char>,
    dir: Seq<char>,
    i: int,
)
    requires
        names.len() == parts.len(),
        forall|j: int|
            0 <= j < parts.len() ==> sendable(
                #[trigger] parts[j],
                encode_utf8(seq!['-', '-'] + boundary),
            ) && filename(parts[j].headers) == Some(names[j]),
        0 <= i < parts.len(),
        dir.len() > 0 && dir.last() != '/',
        !(names[i].len() > 0 && names[i][0] == '/'),
    ensures
        ({
            let all = uploads(
                sent_parts(parts, encode_utf8(seq!['-', '-'] + boundary)),
                boundary,
                dir,
            );
            &&& all.len() == parts.len()
            &&& all[i].name == names[i]
            &&& all[i].data == parts[i].data
            &&& all[i].dest == dir + seq!['/'] + names[i]
        }),
{
    reveal_strlit("--");
    assert("--"@ =~= seq!['-', '-']);
    assert forall|j: int| 0 <= j < parts.len() implies sendable(
        #[trigger] parts[j],
        delimiter(boundary),
    ) by {}
    law_uploads_read_back(parts, boundary, dir);
    lemma_all_carried(parts, names);
    path::law_joined_paths(dir, names[i]);
}

proof fn lemma_all_carried(parts: Seq<Part>, names: Seq<Seq<char>>)
    requires
        names.len() == parts.len(),
        forall|j: int|
            0 <= j < parts.len() ==> filename((#[trigger] parts[j]).headers) == Some(names[j]),
    ensures
        carried(parts).len() == parts.len(),
        forall|j: int|
            0 <= j < parts.len() ==> #[trigger] carried(parts)[j] == (names[j], parts[j].data),
    decreases parts.len(),
{
    if parts.len() > 0 {
        let rest = parts.drop_first();
        let others = names.drop_first();
        assert forall|j: int| 0 <= j < rest.len() implies filename((#[trigger] rest[j]).headers)
            == Some(others[j]) by {
            assert(rest[j] == parts[j + 1]);
        }
        lemma_all_carried(rest, others);
        assert(filename(parts[0].headers) == Some(names[0]));
        assert forall|j: int| 0 <= j < parts.len() implies #[trigger] carried(parts)[j] == (
            names[j],
            parts[j].data,
        ) by {
            if j > 0 {
                assert(carried(parts)[j] == carried(rest)[j - 1]);
            }
        }
    }
}

/// A part is its delimiter, a line end, its headers, an empty line, its contents and a line end, and
/// two hyphens follow the last delimiter.
pub proof fn law_parts_as_sent(p: Part, parts: Seq<Part>, delim: Seq<u8>)
    ensures
        sent_parts(seq![p] + parts, delim) == delim + seq![13u8, 10u8] + encode_utf8(p.headers)
            + seq![13u8, 10u8, 13u8, 10u8] + p.data + seq![13u8, 10u8] + sent_parts(parts, delim),
        sent_parts(Seq::empty(), delim) == delim + seq![45u8, 45u8, 13u8, 10u8],
{
    let all = seq![p] + parts;
    assert(all.drop_first() =~= parts);
    assert(bytes::crlf() =~= seq![13u8, 10u8]);
    assert(bytes::blank_line() =~= seq![13u8, 10u8, 13u8, 10u8]);
    assert(sent_parts(all, delim) =~= delim + seq![13u8, 10u8] + encode_utf8(p.headers) + seq![
        13u8,
        10u8,
        13u8,
        10u8,
    ] + p.data + seq![13u8, 10u8] + sent_parts(parts, delim));
    reveal_strlit("--\r\n");
    is_ascii_chars_encode_utf8("--\r\n"@);
    assert(encode_utf8("--\r\n"@) =~= seq![45u8, 45u8, 13u8, 10u8]);
}

/// What stands in front of the first delimiter of a form is passed over.
pub proof fn law_preamble_is_passed_over(
    preamble: Seq<u8>,
    parts: Seq<Part>,
    boundary: Seq<char>,
    dir: Seq<char>,
)
    requires
        forall|i: int| 0 <= i < parts.len() ==> sendable(#[trigger] parts[i], delimiter(boundary)),
        seqs::find(preamble + sent_parts(parts, delimiter(boundary)), delimiter(boundary)) == Some(
            preamble.len() as int,
        ),
    ensures
        uploads(preamble + sent_parts(parts, delimiter(boundary)), boundary, dir) == uploads(
            sent_parts(parts, delimiter(boundary)),
            boundary,
            dir,
        ),
{
    let delim = delimiter(boundary);
    let sent = sent_parts(parts, delim);
    let body = preamble + sent;
    lemma_delimiter(boundary);
    assert(body.skip(0) =~= body);
    assert(body.skip(preamble.len() as int) =~= sent);
    lemma_parts_read(body, delim, 0, preamble.len() as int, parts);
    law_uploads_read_back(parts, boundary, dir);
}

} // verus!
