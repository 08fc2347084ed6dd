//! Text handling over sequences of characters.
//!
//! A `&str` is taken apart into its characters once; everything after that works on character
//! slices, whose model is `Seq<char>`.

use crate::seqs;
use vstd::prelude::*;
use vstd::slice::slice_subrange;
use vstd::utf8::*;

verus! {

broadcast use vstd::string::group_string_axioms;

// ---------------------------------------------------------------------------
// Model
// ---------------------------------------------------------------------------

/// The characters with the Unicode property `White_Space`.
pub open spec fn is_space(c: char) -> bool {
    ||| '\u{9}' <= c <= '\u{d}'
    ||| c == ' '
    ||| c == '\u{85}'
    ||| c == '\u{a0}'
    ||| c == '\u{1680}'
    ||| '\u{2000}' <= c <= '\u{200a}'
    ||| c == '\u{2028}'
    ||| c == '\u{2029}'
    ||| c == '\u{202f}'
    ||| c == '\u{205f}'
    ||| c == '\u{3000}'
}

/// `s` without its leading white space.
pub open spec fn trim_start(s: Seq<char>) -> Seq<char>
    decreases s.len(),
{
    if s.len() > 0 && is_space(s[0]) {
        trim_start(s.drop_first())
    } else {
        s
    }
}

/// `s` without its trailing white space.
pub open spec fn trim_end(s: Seq<char>) -> Seq<char>
    decreases s.len(),
{
    if s.len() > 0 && is_space(s.last()) {
        trim_end(s.drop_last())
    } else {
        s
    }
}

/// `s` without leading and trailing white space.
pub open spec fn trim(s: Seq<char>) -> Seq<char> {
    trim_end(trim_start(s))
}

/// `s` without its leading occurrences of `c`.
pub open spec fn trim_start_char(s: Seq<char>, c: char) -> Seq<char>
    decreases s.len(),
{
    if s.len() > 0 && s[0] == c {
        trim_start_char(s.drop_first(), c)
    } else {
        s
    }
}

/// `s` without its trailing occurrences of `c`.
pub open spec fn trim_end_char(s: Seq<char>, c: char) -> Seq<char>
    decreases s.len(),
{
    if s.len() > 0 && s.last() == c {
        trim_end_char(s.drop_last(), c)
    } else {
        s
    }
}

/// `s` without the leading repetitions of `p`.
pub open spec fn trim_start_text(s: Seq<char>, p: Seq<char>) -> Seq<char>
    decreases s.len(),
{
    if p.len() > 0 && p.is_prefix_of(s) {
        trim_start_text(s.skip(p.len() as int), p)
    } else {
        s
    }
}

/// What follows `p` in `s`, where `s` begins with `p`.
pub open spec fn after_prefix(s: Seq<char>, p: Seq<char>) -> Option<Seq<char>> {
    if p.is_prefix_of(s) {
        Some(s.skip(p.len() as int))
    } else {
        None
    }
}

/// A line without the carriage return that ends it.
pub open spec fn without_cr<T>(s: Seq<T>, cr: T) -> Seq<T> {
    if s.len() > 0 && s.last() == cr {
        s.drop_last()
    } else {
        s
    }
}

/// The lines of `s`: each ends at a line feed, which may be preceded by a carriage return, or at
/// the end of `s`. A final line ending opens no further line.
pub open spec fn lines(s: Seq<char>) -> Seq<Seq<char>>
    decreases s.len(),
{
    if s.len() == 0 {
        Seq::empty()
    } else {
        match seqs::index_of(s, '\n') {
            Some(i) => if 0 <= i < s.len() {
                seq![without_cr(s.take(i), '\r')] + lines(s.skip(i + 1))
            } else {
                seq![s]
            },
            None => seq![s],
        }
    }
}

/// Number of characters before the first white space of `s`.
pub open spec fn word_len(s: Seq<char>) -> nat
    decreases s.len(),
{
    if s.len() == 0 || is_space(s[0]) {
        0
    } else {
        1 + word_len(s.drop_first())
    }
}

/// The maximal runs of characters of `s` that hold no white space.
pub open spec fn words(s: Seq<char>) -> Seq<Seq<char>>
    decreases s.len(),
{
    if s.len() == 0 {
        Seq::empty()
    } else if is_space(s[0]) {
        words(s.drop_first())
    } else {
        let n = word_len(s) as int;
        if 0 < n <= s.len() {
            seq![s.take(n)] + words(s.skip(n))
        } else {
            Seq::empty()
        }
    }
}

/// `s` cut at its first `c`: what stands before it and what follows it.
pub open spec fn cut(s: Seq<char>, c: char) -> Option<(Seq<char>, Seq<char>)> {
    match seqs::index_of(s, c) {
        Some(i) => Some((s.take(i), s.skip(i + 1))),
        None => None,
    }
}

/// `parts` with `sep` between neighbours.
pub open spec fn joined(parts: Seq<Seq<char>>, sep: Seq<char>) -> Seq<char>
    decreases parts.len(),
{
    if parts.len() == 0 {
        Seq::empty()
    } else if parts.len() == 1 {
        parts[0]
    } else {
        joined(parts.drop_last(), sep) + sep + parts.last()
    }
}

/// `c` with `A` to `Z` mapped to `a` to `z`.
pub open spec fn ascii_lower(c: char) -> char {
    if 'A' <= c <= 'Z' {
        ((c as u32) + 32) as char
    } else {
        c
    }
}

/// Equality of texts up to the case of ASCII letters.
pub open spec fn same_ignoring_ascii_case(a: Seq<char>, b: Seq<char>) -> bool {
    a.len() == b.len() && forall|i: int|
        0 <= i < a.len() ==> ascii_lower(#[trigger] a[i]) == ascii_lower(b[i])
}

/// The characters of every string of a sequence.
pub open spec fn views(v: Seq<String>) -> Seq<Seq<char>> {
    v.map_values(|s: String| s@)
}

/// The characters of every slice of a sequence.
pub open spec fn slices(v: Seq<&[char]>) -> Seq<Seq<char>> {
    v.map_values(|s: &[char]| s@)
}

/// `s` with `A` to `Z` mapped to `a` to `z`.
pub open spec fn ascii_lowercase(s: Seq<char>) -> Seq<char> {
    s.map_values(|c: char| ascii_lower(c))
}

/// Number of ASCII characters with which `s` starts.
pub open spec fn ascii_start(s: Seq<char>) -> nat
    decreases s.len(),
{
    if s.len() == 0 || s[0] > '\u{7f}' {
        0
    } else {
        1 + ascii_start(s.drop_first())
    }
}

/// What `str::to_lowercase` makes of a text that is not all ASCII, behind what it makes of the
/// ASCII characters with which the text starts.
pub uninterp spec fn unicode_lowercase(s: Seq<char>) -> Seq<char>;

/// `s` in lower case.
pub open spec fn lowercase(s: Seq<char>) -> Seq<char> {
    if is_ascii_chars(s) {
        ascii_lowercase(s)
    } else {
        ascii_lowercase(s.take(ascii_start(s) as int)) + unicode_lowercase(s)
    }
}

// ---------------------------------------------------------------------------
// The standard library
// ---------------------------------------------------------------------------

/// `str::to_lowercase`: the Unicode lowercase of a text, a function of the text alone. In the ASCII
/// characters with which the text starts, which may be all of it, it maps `A` to `Z` to `a` to `z`
/// and keeps the rest; what it makes of the characters behind them follows.
#[verifier::external_body]
pub(crate) fn to_lowercase(s: &str) -> (r: String)
    ensures
        is_ascii_chars(s@) ==> r@ == ascii_lowercase(s@),
        !is_ascii_chars(s@) ==> r@ == ascii_lowercase(s@.take(ascii_start(s@) as int))
            + unicode_lowercase(s@),
{
    s.to_lowercase()
}

/// `std::str::from_utf8`: the text that the bytes encode, if they are well-formed UTF-8.
#[verifier::external_body]
pub(crate) fn text_of_bytes(bytes: &[u8]) -> (r: Option<&str>)
    ensures
        r is Some <==> valid_utf8(bytes@),
        r matches Some(s) ==> encode_utf8(s@) == bytes@,
{
    std::str::from_utf8(bytes).ok()
}

/// `String::push` appends one character.
pub assume_specification[ String::push ](s: &mut String, c: char)
    ensures
        final(s)@ == old(s)@.push(c),
;

// ---------------------------------------------------------------------------
// Conversions
// ---------------------------------------------------------------------------

/// The characters of a text.
pub fn chars_of(s: &str) -> (r: Vec<char>)
    ensures
        r@ == s@,
{
    let mut out: Vec<char> = Vec::new();
    for c in it: s.chars()
        invariant
            out@ == it.seq().take(it.index() as int),
            it.seq() == s@,
    {
        out.push(c);
        assert(it.seq().take(it.index() + 1) =~= it.seq().take(it.index() as int).push(c));
    }
    assert(s@.take(s@.len() as int) =~= s@);
    out
}

/// The text made of the given characters.
pub fn string_of(s: &[char]) -> (r: String)
    ensures
        r@ == s@,
{
    let mut out = String::new();
    let mut i: usize = 0;
    while i < s.len()
        invariant
            i <= s@.len(),
            out@ == s@.take(i as int),
        decreases s@.len() - i,
    {
        out.push(s[i]);
        assert(s@.take(i + 1) =~= s@.take(i as int).push(s@[i as int]));
        i = i + 1;
    }
    assert(s@.take(i as int) =~= s@);
    out
}

/// The characters that the bytes encode, if they are well-formed UTF-8.
pub fn decoded(bytes: &[u8]) -> (r: Option<Vec<char>>)
    ensures
        match r {
            Some(c) => valid_utf8(bytes@) && c@ == decode_utf8(bytes@),
            None => !valid_utf8(bytes@),
        },
{
    match text_of_bytes(bytes) {
        Some(s) => {
            proof {
                encode_utf8_decode_utf8(s@);
            }
            Some(chars_of(s))
        },
        None => None,
    }
}

// ---------------------------------------------------------------------------
// Comparing
// ---------------------------------------------------------------------------

/// Whether two character slices hold the same text.
pub fn same_chars(a: &[char], b: &[char]) -> (r: bool)
    ensures
        r == (a@ == b@),
{
    if a.len() != b.len() {
        return false;
    }
    let mut i: usize = 0;
    while i < a.len()
        invariant
            a@.len() == b@.len(),
            i <= a@.len(),
            forall|j: int| 0 <= j < i ==> a@[j] == b@[j],
        decreases a@.len() - i,
    {
        if a[i] != b[i] {
            return false;
        }
        i = i + 1;
    }
    assert(a@ =~= b@);
    true
}

/// Whether a character slice holds the given text.
pub fn is_text(a: &[char], b: &str) -> (r: bool)
    ensures
        r == (a@ == b@),
{
    let c = chars_of(b);
    same_chars(a, c.as_slice())
}

/// Whether two strings hold the same text.
pub fn same_text(a: &str, b: &str) -> (r: bool)
    ensures
        r == (a@ == b@),
{
    let c = chars_of(a);
    is_text(c.as_slice(), b)
}

/// Whether `needle` stands in `hay` at position `at`.
pub fn stands_at(hay: &[char], needle: &[char], at: usize) -> (r: bool)
    ensures
        r == seqs::occurs_at(hay@, needle@, at as int),
{
    if needle.len() > hay.len() || at > hay.len() - needle.len() {
        return false;
    }
    same_chars(slice_subrange(hay, at, at + needle.len()), needle)
}

/// Whether `s` begins with `p`.
pub fn starts_with(s: &[char], p: &[char]) -> (r: bool)
    ensures
        r == p@.is_prefix_of(s@),
{
    stands_at(s, p, 0)
}

/// Whether `s` begins with the text `p`.
pub fn starts_with_text(s: &[char], p: &str) -> (r: bool)
    ensures
        r == p@.is_prefix_of(s@),
{
    let c = chars_of(p);
    starts_with(s, c.as_slice())
}

/// Whether `s` ends with `p`.
pub fn ends_with(s: &[char], p: &[char]) -> (r: bool)
    ensures
        r == p@.is_suffix_of(s@),
{
    if p.len() > s.len() {
        return false;
    }
    same_chars(slice_subrange(s, s.len() - p.len(), s.len()), p)
}

/// Whether the text `p` stands anywhere in `s`.
pub fn contains_text(s: &[char], p: &str) -> (r: bool)
    ensures
        r == (seqs::find(s@, p@) is Some),
{
    let c = chars_of(p);
    let n: usize = s.len();
    let mut i: usize = 0;
    loop
        invariant
            c@ == p@,
            n == s@.len(),
            i <= n,
            seqs::find(s@, p@) == seqs::find_from(s@, p@, i as int),
        decreases n - i,
    {
        if n - i < c.len() {
            return false;
        }
        if stands_at(s, c.as_slice(), i) {
            return true;
        }
        if i == n {
            return false;
        }
        i = i + 1;
    }
}

/// `c` with `A` to `Z` mapped to `a` to `z`.
pub fn to_ascii_lower(c: char) -> (r: char)
    ensures
        r == ascii_lower(c),
{
    if 'A' <= c && c <= 'Z' {
        (c as u8 + 32) as char
    } else {
        c
    }
}

/// Whether two texts are the same up to the case of ASCII letters.
pub fn eq_ignore_ascii_case(a: &str, b: &str) -> (r: bool)
    ensures
        r == same_ignoring_ascii_case(a@, b@),
{
    let x = chars_of(a);
    let y = chars_of(b);
    if x.len() != y.len() {
        return false;
    }
    let mut i: usize = 0;
    while i < x.len()
        invariant
            x@ == a@,
            y@ == b@,
            x@.len() == y@.len(),
            i <= x@.len(),
            forall|j: int| 0 <= j < i ==> ascii_lower(#[trigger] a@[j]) == ascii_lower(b@[j]),
        decreases x@.len() - i,
    {
        if to_ascii_lower(x[i]) != to_ascii_lower(y[i]) {
            return false;
        }
        i = i + 1;
    }
    true
}

// ---------------------------------------------------------------------------
// Trimming
// ---------------------------------------------------------------------------

/// Whether `c` is white space.
pub fn is_whitespace(c: char) -> (r: bool)
    ensures
        r == is_space(c),
{
    ('\u{9}' <= c && c <= '\u{d}') || c == ' ' || c == '\u{85}' || c == '\u{a0}' || c == '\u{1680}'
        || ('\u{2000}' <= c && c <= '\u{200a}') || c == '\u{2028}' || c == '\u{2029}' || c
        == '\u{202f}' || c == '\u{205f}' || c == '\u{3000}'
}

/// `s` without leading and trailing white space.
pub fn trimmed(s: &[char]) -> (r: &[char])
    ensures
        r@ == trim(s@),
{
    let mut i: usize = 0;
    assert(s@.skip(0) =~= s@);
    while i < s.len() && is_whitespace(s[i])
        invariant
            i <= s@.len(),
            trim_start(s@) == trim_start(s@.skip(i as int)),
        decreases s@.len() - i,
    {
        assert(s@.skip(i as int).drop_first() =~= s@.skip(i + 1));
        i = i + 1;
    }
    assert(trim_start(s@) == s@.skip(i as int));
    let mut j: usize = s.len();
    assert(s@.subrange(i as int, j as int) =~= s@.skip(i as int));
    while j > i && is_whitespace(s[j - 1])
        invariant
            i <= j <= s@.len(),
            trim(s@) == trim_end(s@.subrange(i as int, j as int)),
        decreases j,
    {
        assert(s@.subrange(i as int, j as int).drop_last() =~= s@.subrange(i as int, j - 1));
        j = j - 1;
    }
    slice_subrange(s, i, j)
}

/// `s` without its leading occurrences of `c`.
pub fn trimmed_start_char(s: &[char], c: char) -> (r: &[char])
    ensures
        r@ == trim_start_char(s@, c),
{
    let mut i: usize = 0;
    assert(s@.skip(0) =~= s@);
    while i < s.len() && s[i] == c
        invariant
            i <= s@.len(),
            trim_start_char(s@, c) == trim_start_char(s@.skip(i as int), c),
        decreases s@.len() - i,
    {
        assert(s@.skip(i as int).drop_first() =~= s@.skip(i + 1));
        i = i + 1;
    }
    assert(s@.subrange(i as int, s@.len() as int) =~= s@.skip(i as int));
    slice_subrange(s, i, s.len())
}

/// `s` without its trailing occurrences of `c`.
pub fn trimmed_end_char(s: &[char], c: char) -> (r: &[char])
    ensures
        r@ == trim_end_char(s@, c),
{
    let mut j: usize = s.len();
    assert(s@.take(j as int) =~= s@);
    while j > 0 && s[j - 1] == c
        invariant
            j <= s@.len(),
            trim_end_char(s@, c) == trim_end_char(s@.take(j as int), c),
        decreases j,
    {
        assert(s@.take(j as int).drop_last() =~= s@.take(j - 1));
        j = j - 1;
    }
    slice_subrange(s, 0, j)
}

/// `s` without the leading repetitions of the text `p`.
pub fn trimmed_start_text<'a>(s: &'a [char], p: &str) -> (r: &'a [char])
    ensures
        r@ == trim_start_text(s@, p@),
{
    let c = chars_of(p);
    let mut i: usize = 0;
    assert(s@.skip(0) =~= s@);
    while c.len() > 0 && starts_with(slice_subrange(s, i, s.len()), c.as_slice())
        invariant
            c@ == p@,
            i <= s@.len(),
            trim_start_text(s@, p@) == trim_start_text(s@.skip(i as int), p@),
        decreases s@.len() - i,
    {
        assert(s@.subrange(i as int, s@.len() as int) =~= s@.skip(i as int));
        assert(s@.skip(i as int).skip(p@.len() as int) =~= s@.skip(i + p@.len()));
        i = i + c.len();
    }
    assert(s@.subrange(i as int, s@.len() as int) =~= s@.skip(i as int));
    slice_subrange(s, i, s.len())
}

/// What follows the text `p` in `s`, where `s` begins with `p`.
pub fn strip_prefix<'a>(s: &'a [char], p: &str) -> (r: Option<&'a [char]>)
    ensures
        match r {
            Some(x) => after_prefix(s@, p@) == Some(x@),
            None => after_prefix(s@, p@) is None,
        },
{
    let c = chars_of(p);
    if starts_with(s, c.as_slice()) {
        assert(s@.subrange(p@.len() as int, s@.len() as int) =~= s@.skip(p@.len() as int));
        Some(slice_subrange(s, c.len(), s.len()))
    } else {
        None
    }
}

// ---------------------------------------------------------------------------
// Cutting
// ---------------------------------------------------------------------------

/// Position of the first `c` in `s`.
pub fn position_of(s: &[char], c: char) -> (r: Option<usize>)
    ensures
        match r {
            Some(i) => i < s@.len() && seqs::index_of(s@, c) == Some(i as int),
            None => seqs::index_of(s@, c) is None,
        },
{
    let mut i: usize = 0;
    while i < s.len()
        invariant
            i <= s@.len(),
            seqs::index_of(s@, c) == seqs::index_from(s@, c, i as int),
        decreases s@.len() - i,
    {
        if s[i] == c {
            return Some(i);
        }
        i = i + 1;
    }
    None
}

/// `s` cut at its first `c`.
pub fn cut_at(s: &[char], c: char) -> (r: Option<(&[char], &[char])>)
    ensures
        match r {
            Some((a, b)) => cut(s@, c) == Some((a@, b@)),
            None => cut(s@, c) is None,
        },
{
    let n: usize = s.len();
    match position_of(s, c) {
        Some(i) => {
            assert(s@.subrange(0, i as int) =~= s@.take(i as int));
            assert(s@.subrange(i + 1, s@.len() as int) =~= s@.skip(i + 1));
            Some((slice_subrange(s, 0, i), slice_subrange(s, i + 1, n)))
        },
        None => None,
    }
}

/// The pieces of `s` between the occurrences of `c`.
pub fn split_at_char(s: &[char], c: char) -> (r: Vec<&[char]>)
    ensures
        slices(r@) == seqs::split(s@, c),
{
    let mut out: Vec<&[char]> = Vec::new();
    let mut start: usize = 0;
    assert(s@.skip(0) =~= s@);
    assert(slices(out@) + seqs::split(s@.skip(0), c) =~= seqs::split(s@, c));
    loop
        invariant
            start <= s@.len(),
            slices(out@) + seqs::split(s@.skip(start as int), c) == seqs::split(s@, c),
        decreases s@.len() - start,
    {
        let rest = slice_subrange(s, start, s.len());
        assert(rest@ =~= s@.skip(start as int));
        let ghost before = slices(out@);
        match position_of(rest, c) {
            Some(i) => {
                let piece = slice_subrange(rest, 0, i);
                assert(piece@ =~= rest@.take(i as int));
                out.push(piece);
                assert(slices(out@) =~= before.push(piece@));
                assert(rest@.skip(i + 1) =~= s@.skip(start + i + 1));
                assert(before + (seq![piece@] + seqs::split(s@.skip(start + i + 1), c)) =~= before.push(
                    piece@,
                ) + seqs::split(s@.skip(start + i + 1), c));
                start = start + i + 1;
            },
            None => {
                out.push(rest);
                assert(slices(out@) =~= before + seq![rest@]);
                return out;
            },
        }
    }
}

/// The lines of `s`.
pub fn lines_of(s: &[char]) -> (r: Vec<&[char]>)
    ensures
        slices(r@) == lines(s@),
{
    let mut out: Vec<&[char]> = Vec::new();
    let mut start: usize = 0;
    assert(s@.skip(0) =~= s@);
    assert(slices(out@) + lines(s@.skip(0)) =~= lines(s@));
    while start < s.len()
        invariant
            start <= s@.len(),
            slices(out@) + lines(s@.skip(start as int)) == lines(s@),
        decreases s@.len() - start,
    {
        let rest = slice_subrange(s, start, s.len());
        assert(rest@ =~= s@.skip(start as int));
        let ghost before = slices(out@);
        match position_of(rest, '\n') {
            Some(i) => {
                let mut end: usize = i;
                if i > 0 && rest[i - 1] == '\r' {
                    end = i - 1;
                }
                let piece = slice_subrange(rest, 0, end);
                assert(piece@ =~= without_cr(rest@.take(i as int), '\r'));
                out.push(piece);
                assert(slices(out@) =~= before.push(piece@));
                assert(rest@.skip(i + 1) =~= s@.skip(start + i + 1));
                assert(before + (seq![piece@] + lines(s@.skip(start + i + 1))) =~= before.push(piece@)
                    + lines(s@.skip(start + i + 1)));
                start = start + i + 1;
            },
            None => {
                out.push(rest);
                assert(slices(out@) =~= before + seq![rest@]);
                return out;
            },
        }
    }
    assert(slices(out@) + lines(s@.skip(start as int)) =~= slices(out@));
    out
}

/// The words of `s`.
pub fn words_of(s: &[char]) -> (r: Vec<String>)
    ensures
        views(r@) == words(s@),
{
    let mut out: Vec<String> = Vec::new();
    let mut start: usize = 0;
    assert(s@.skip(0) =~= s@);
    assert(views(out@) + words(s@.skip(0)) =~= words(s@));
    while start < s.len()
        invariant
            start <= s@.len(),
            views(out@) + words(s@.skip(start as int)) == words(s@),
        decreases s@.len() - start,
    {
        let ghost rest = s@.skip(start as int);
        if is_whitespace(s[start]) {
            assert(rest.drop_first() =~= s@.skip(start + 1));
            start = start + 1;
        } else {
            let mut end: usize = start;
            while end < s.len() && !is_whitespace(s[end])
                invariant
                    start <= end <= s@.len(),
                    word_len(s@.skip(start as int)) == (end - start) + word_len(s@.skip(end as int)),
                decreases s@.len() - end,
            {
                assert(s@.skip(end as int).drop_first() =~= s@.skip(end + 1));
                end = end + 1;
            }
            let ghost before = views(out@);
            let piece = string_of(slice_subrange(s, start, end));
            assert(piece@ =~= rest.take(end - start));
            out.push(piece);
            assert(views(out@) =~= before.push(piece@));
            assert(rest.skip(end - start) =~= s@.skip(end as int));
            assert(before + (seq![piece@] + words(s@.skip(end as int))) =~= before.push(piece@)
                + words(s@.skip(end as int)));
            start = end;
        }
    }
    assert(views(out@) + words(s@.skip(start as int)) =~= views(out@));
    out
}

/// The strings of `parts` with `sep` between neighbours.
pub fn join(parts: &Vec<String>, sep: &str) -> (r: String)
    ensures
        r@ == joined(views(parts@), sep@),
{
    let mut out = String::new();
    let mut i: usize = 0;
    assert(views(parts@).take(0) =~= Seq::empty());
    while i < parts.len()
        invariant
            i <= parts@.len(),
            out@ == joined(views(parts@).take(i as int), sep@),
        decreases parts@.len() - i,
    {
        let ghost all = views(parts@);
        if i > 0 {
            out.append(sep);
        }
        out.append(parts[i].as_str());
        assert(all.take(i + 1).drop_last() =~= all.take(i as int));
        assert(all.take(i + 1).last() == parts@[i as int]@);
        i = i + 1;
    }
    assert(views(parts@).take(i as int) =~= views(parts@));
    out
}

// ---------------------------------------------------------------------------
// Lemmas
// ---------------------------------------------------------------------------

/// White space is trimmed at the ends alone.
pub proof fn lemma_trim_keeps(s: Seq<char>)
    requires
        s.len() > 0,
        !is_space(s[0]),
        !is_space(s.last()),
    ensures
        trim(s) == s,
{
}

/// Parts with a separator between neighbours start with the first part.
pub proof fn lemma_joined_first(parts: Seq<Seq<char>>, sep: Seq<char>)
    requires
        parts.len() > 1,
    ensures
        joined(parts, sep) == parts[0] + sep + joined(parts.drop_first(), sep),
    decreases parts.len(),
{
    let rest = parts.drop_first();
    if parts.len() == 2 {
        reveal_with_fuel(joined, 2);
        assert(parts.drop_last() =~= seq![parts[0]]);
    } else {
        lemma_joined_first(parts.drop_last(), sep);
        assert(parts.drop_last().drop_first() =~= rest.drop_last());
        assert(joined(parts, sep) =~= parts[0] + sep + joined(rest, sep));
    }
}

/// Parts that were joined by a character that none of them holds are split there again.
pub proof fn law_joined_parts_are_split(parts: Seq<Seq<char>>, c: char)
    requires
        parts.len() > 0,
        forall|i: int| 0 <= i < parts.len() ==> !(#[trigger] parts[i]).contains(c),
    ensures
        seqs::split(joined(parts, seq![c]), c) == parts,
    decreases parts.len(),
{
    let first = parts[0];
    if parts.len() == 1 {
        seqs::lemma_split_whole(first, c);
        assert(parts =~= seq![first]);
    } else {
        let rest = parts.drop_first();
        assert forall|i: int| 0 <= i < rest.len() implies !(#[trigger] rest[i]).contains(c) by {
            assert(rest[i] == parts[i + 1]);
        }
        law_joined_parts_are_split(rest, c);
        lemma_joined_first(parts, seq![c]);
        seqs::lemma_split_first(first, c, joined(rest, seq![c]));
        assert(parts =~= seq![first] + rest);
    }
}

/// ASCII texts that differ in the case of letters alone are the same in lower case: it does not
/// matter how a client writes the name of a header field.
pub proof fn law_case_does_not_matter(a: Seq<char>, b: Seq<char>)
    requires
        is_ascii_chars(a),
        is_ascii_chars(b),
    ensures
        lowercase(a) == lowercase(b) <==> same_ignoring_ascii_case(a, b),
{
    if same_ignoring_ascii_case(a, b) {
        assert(ascii_lowercase(a) =~= ascii_lowercase(b));
    }
    if ascii_lowercase(a) == ascii_lowercase(b) {
        assert(a.len() == ascii_lowercase(a).len());
        assert(b.len() == ascii_lowercase(b).len());
        assert forall|i: int| 0 <= i < a.len() implies ascii_lower(#[trigger] a[i]) == ascii_lower(
            b[i],
        ) by {
            assert(ascii_lowercase(a)[i] == ascii_lowercase(b)[i]);
        }
    }
}

/// The ASCII characters with which a text starts are counted.
proof fn lemma_ascii_start(s: Seq<char>, k: int)
    requires
        0 <= k <= s.len(),
        is_ascii_chars(s.take(k)),
    ensures
        k <= ascii_start(s) <= s.len(),
    decreases s.len(),
{
    if s.len() > 0 && s[0] <= '\u{7f}' {
        let rest = s.drop_first();
        let n = if k > 0 { k - 1 } else { 0 };
        assert forall|i: int| 0 <= i < n implies '\0' <= #[trigger] rest.take(n)[i]
            <= '\u{7f}' by {
            assert(rest.take(n)[i] == s.take(k)[i + 1]);
        }
        lemma_ascii_start(rest, n);
    } else if k > 0 {
        assert(s.take(k)[0] == s[0]);
    }
}

/// Whatever stands behind it, an ASCII start of a text is found in lower case as the same letters
/// in lower case.
pub proof fn law_ascii_start_in_lower_case(start: Seq<char>, rest: Seq<char>)
    requires
        is_ascii_chars(start),
    ensures
        ascii_lowercase(start).is_prefix_of(lowercase(start + rest)),
{
    let s = start + rest;
    let n = start.len() as int;
    assert(s.take(n) =~= start);
    lemma_ascii_start(s, n);
    assert(lowercase(s).take(n) =~= ascii_lowercase(start));
}

// ---------------------------------------------------------------------------
// Laws
// ---------------------------------------------------------------------------

/// Of the ASCII characters, the space and those from the tab to the carriage return are white space.
pub proof fn law_ascii_white_space(c: char)
    requires
        c <= '\u{7f}',
    ensures
        is_space(c) <==> c == ' ' || c == '\t' || c == '\n' || c == '\u{b}' || c == '\u{c}' || c
            == '\r',
{
}

/// Leading white space is trimmed, and nothing behind it.
proof fn lemma_trim_start(lead: Seq<char>, s: Seq<char>)
    requires
        forall|i: int| 0 <= i < lead.len() ==> is_space(#[trigger] lead[i]),
        s.len() > 0 ==> !is_space(s[0]),
    ensures
        trim_start(lead + s) == s,
    decreases lead.len(),
{
    if lead.len() > 0 {
        let rest = lead.drop_first();
        assert forall|i: int| 0 <= i < rest.len() implies is_space(#[trigger] rest[i]) by {
            assert(rest[i] == lead[i + 1]);
        }
        assert(is_space(lead[0]));
        assert((lead + s).drop_first() =~= rest + s);
        lemma_trim_start(rest, s);
    } else {
        assert(lead + s =~= s);
    }
}

/// Trailing white space is trimmed, and nothing in front of it.
proof fn lemma_trim_end(s: Seq<char>, trail: Seq<char>)
    requires
        forall|i: int| 0 <= i < trail.len() ==> is_space(#[trigger] trail[i]),
        s.len() > 0 ==> !is_space(s.last()),
    ensures
        trim_end(s + trail) == s,
    decreases trail.len(),
{
    if trail.len() > 0 {
        let rest = trail.drop_last();
        assert forall|i: int| 0 <= i < rest.len() implies is_space(#[trigger] rest[i]) by {
            assert(rest[i] == trail[i]);
        }
        assert(is_space(trail[trail.len() - 1]));
        assert((s + trail).drop_last() =~= s + rest);
        lemma_trim_end(s, rest);
    } else {
        assert(s + trail =~= s);
    }
}

/// White space around a text is trimmed, and all of the text in between is kept.
pub proof fn law_trim(lead: Seq<char>, s: Seq<char>, trail: Seq<char>)
    requires
        forall|i: int| 0 <= i < lead.len() ==> is_space(#[trigger] lead[i]),
        forall|i: int| 0 <= i < trail.len() ==> is_space(#[trigger] trail[i]),
        s.len() > 0 ==> !is_space(s[0]) && !is_space(s.last()),
    ensures
        trim(lead + s + trail) == s,
{
    if s.len() > 0 {
        assert(lead + s + trail =~= lead + (s + trail));
        lemma_trim_start(lead, s + trail);
        lemma_trim_end(s, trail);
    } else {
        let all = lead + trail;
        let none = Seq::<char>::empty();
        assert forall|i: int| 0 <= i < all.len() implies is_space(#[trigger] all[i]) by {
            if i < lead.len() {
                assert(all[i] == lead[i]);
            } else {
                assert(all[i] == trail[i - lead.len()]);
            }
        }
        assert(lead + s + trail =~= all + none);
        lemma_trim_start(all, none);
        assert(s =~= none);
    }
}

/// Repetitions of a character at the start of a text are trimmed, and nothing behind them.
pub proof fn law_trim_start_char(lead: Seq<char>, s: Seq<char>, c: char)
    requires
        forall|i: int| 0 <= i < lead.len() ==> #[trigger] lead[i] == c,
        s.len() > 0 ==> s[0] != c,
    ensures
        trim_start_char(lead + s, c) == s,
    decreases lead.len(),
{
    if lead.len() > 0 {
        let rest = lead.drop_first();
        assert forall|i: int| 0 <= i < rest.len() implies #[trigger] rest[i] == c by {
            assert(rest[i] == lead[i + 1]);
        }
        assert(lead[0] == c);
        assert((lead + s).drop_first() =~= rest + s);
        law_trim_start_char(rest, s, c);
    } else {
        assert(lead + s =~= s);
    }
}

/// Repetitions of a character at the end of a text are trimmed, and nothing in front of them.
pub proof fn law_trim_end_char(s: Seq<char>, trail: Seq<char>, c: char)
    requires
        forall|i: int| 0 <= i < trail.len() ==> #[trigger] trail[i] == c,
        s.len() > 0 ==> s.last() != c,
    ensures
        trim_end_char(s + trail, c) == s,
    decreases trail.len(),
{
    if trail.len() > 0 {
        let rest = trail.drop_last();
        assert forall|i: int| 0 <= i < rest.len() implies #[trigger] rest[i] == c by {
            assert(rest[i] == trail[i]);
        }
        assert(trail[trail.len() - 1] == c);
        assert((s + trail).drop_last() =~= s + rest);
        law_trim_end_char(s, rest, c);
    } else {
        assert(s + trail =~= s);
    }
}

/// The lines of a text, each with its end: CR LF or LF alone.
pub open spec fn ended(lines: Seq<Seq<char>>, with_cr: bool) -> Seq<char>
    decreases lines.len(),
{
    if lines.len() == 0 {
        Seq::empty()
    } else {
        lines[0] + (if with_cr {
            seq!['\r', '\n']
        } else {
            seq!['\n']
        }) + ended(lines.drop_first(), with_cr)
    }
}

/// Lines, empty ones among them, are told apart by their ends, of either kind.
pub proof fn law_lines_read_back(lines: Seq<Seq<char>>, with_cr: bool)
    requires
        forall|i: int|
            0 <= i < lines.len() ==> !(#[trigger] lines[i]).contains('\n') && (lines[i].len() > 0
                ==> lines[i].last() != '\r'),
    ensures
        self::lines(ended(lines, with_cr)) == lines,
    decreases lines.len(),
{
    if lines.len() > 0 {
        let first = lines[0];
        let rest = lines.drop_first();
        assert forall|i: int| 0 <= i < rest.len() implies !(#[trigger] rest[i]).contains('\n') && (
        rest[i].len() > 0 ==> rest[i].last() != '\r') by {
            assert(rest[i] == lines[i + 1]);
        }
        law_lines_read_back(rest, with_cr);
        let head = if with_cr {
            first.push('\r')
        } else {
            first
        };
        let s = ended(lines, with_cr);
        assert(s =~= head + seq!['\n'] + ended(rest, with_cr));
        let n = head.len() as int;
        assert(!first.contains('\n'));
        assert forall|j: int| 0 <= j < n implies s[j] != '\n' by {
            if j < first.len() {
                assert(first.contains(first[j]));
            }
        }
        seqs::lemma_index_is(s, '\n', 0, n);
        assert(s.take(n) =~= head);
        assert(s.skip(n + 1) =~= ended(rest, with_cr));
        if with_cr {
            assert(head.drop_last() =~= first);
        }
        assert(without_cr(head, '\r') == first);
        assert(lines =~= seq![first] + rest);
    } else {
        assert(lines =~= Seq::empty());
    }
}

/// The text is a word: it is not empty and holds no white space.
pub open spec fn is_word(s: Seq<char>) -> bool {
    s.len() > 0 && forall|i: int| 0 <= i < s.len() ==> !is_space(#[trigger] s[i])
}

/// A word ends where white space starts.
proof fn lemma_word_len(word: Seq<char>, rest: Seq<char>)
    requires
        forall|i: int| 0 <= i < word.len() ==> !is_space(#[trigger] word[i]),
        rest.len() > 0 ==> is_space(rest[0]),
    ensures
        word_len(word + rest) == word.len(),
    decreases word.len(),
{
    if word.len() > 0 {
        let tail = word.drop_first();
        assert forall|i: int| 0 <= i < tail.len() implies !is_space(#[trigger] tail[i]) by {
            assert(tail[i] == word[i + 1]);
        }
        assert(!is_space(word[0]));
        assert((word + rest).drop_first() =~= tail + rest);
        lemma_word_len(tail, rest);
    } else {
        assert(word + rest =~= rest);
    }
}

/// Words with spaces between them are told apart.
pub proof fn law_words_read_back(parts: Seq<Seq<char>>)
    requires
        forall|i: int| 0 <= i < parts.len() ==> is_word(#[trigger] parts[i]),
    ensures
        words(joined(parts, seq![' '])) == parts,
    decreases parts.len(),
{
    if parts.len() == 0 {
        assert(parts =~= Seq::empty());
    } else {
        let first = parts[0];
        let rest = parts.drop_first();
        assert(is_word(first));
        assert(!is_space(first[0]));
        assert forall|i: int| 0 <= i < rest.len() implies is_word(#[trigger] rest[i]) by {
            assert(rest[i] == parts[i + 1]);
        }
        law_words_read_back(rest);
        let n = first.len() as int;
        reveal_with_fuel(words, 2);
        if parts.len() == 1 {
            let none = Seq::<char>::empty();
            assert(first + none =~= first);
            lemma_word_len(first, none);
            assert(first.take(n) =~= first);
            assert(first.skip(n) =~= none);
            assert(parts =~= seq![first]);
        } else {
            lemma_joined_first(parts, seq![' ']);
            let behind = seq![' '] + joined(rest, seq![' ']);
            let s = joined(parts, seq![' ']);
            assert(s =~= first + behind);
            lemma_word_len(first, behind);
            assert(s.take(n) =~= first);
            assert(s.skip(n) =~= behind);
            assert(behind.drop_first() =~= joined(rest, seq![' ']));
            assert(parts =~= seq![first] + rest);
        }
    }
}

/// The capital letters of ASCII become the small ones in their order, and nothing else changes.
pub proof fn law_ascii_lower_case(c: char, k: int)
    requires
        0 <= k < 26,
    ensures
        ascii_lower((65 + k) as char) == (97 + k) as char,
        !('A' <= c <= 'Z') ==> ascii_lower(c) == c,
{
}

/// Lines with ends of either kind between them are told apart, whatever they hold but line feeds and
/// a carriage return at their end, as long as the last one is not empty.
pub proof fn law_parted_lines_read_back(lines: Seq<Seq<char>>, with_cr: bool)
    requires
        forall|i: int|
            0 <= i < lines.len() ==> !(#[trigger] lines[i]).contains('\n') && (lines[i].len() > 0
                ==> lines[i].last() != '\r'),
        lines.len() > 0 ==> lines.last().len() > 0,
    ensures
        self::lines(
            joined(
                lines,
                if with_cr {
                    seq!['\r', '\n']
                } else {
                    seq!['\n']
                },
            ),
        ) == lines,
    decreases lines.len(),
{
    let line_end = if with_cr {
        seq!['\r', '\n']
    } else {
        seq!['\n']
    };
    let s = joined(lines, line_end);
    if lines.len() == 0 {
        assert(lines =~= Seq::empty());
    } else if lines.len() == 1 {
        let first = lines[0];
        assert(!first.contains('\n'));
        seqs::lemma_index_from(first, '\n', 0);
        if let Some(i) = seqs::index_of(first, '\n') {
            assert(first.contains(first[i]));
        }
        assert(lines =~= seq![first]);
    } else {
        let first = lines[0];
        let rest = lines.drop_first();
        assert forall|i: int| 0 <= i < rest.len() implies !(#[trigger] rest[i]).contains('\n') && (
        rest[i].len() > 0 ==> rest[i].last() != '\r') by {
            assert(rest[i] == lines[i + 1]);
        }
        assert(rest.last() == lines.last());
        law_parted_lines_read_back(rest, with_cr);
        lemma_joined_first(lines, line_end);
        let head = if with_cr {
            first.push('\r')
        } else {
            first
        };
        assert(s =~= head + seq!['\n'] + joined(rest, line_end));
        let n = head.len() as int;
        assert(!first.contains('\n'));
        assert forall|j: int| 0 <= j < n implies s[j] != '\n' by {
            if j < first.len() {
                assert(first.contains(first[j]));
            }
        }
        seqs::lemma_index_is(s, '\n', 0, n);
        assert(s.take(n) =~= head);
        assert(s.skip(n + 1) =~= joined(rest, line_end));
        if with_cr {
            assert(head.drop_last() =~= first);
        }
        assert(without_cr(head, '\r') == first);
        assert(lines =~= seq![first] + rest);
    }
}

/// White space, however much of it, parts words, and stands for nothing at the ends of a text.
pub proof fn law_parted_words(a: Seq<char>, gap: Seq<char>, b: Seq<char>)
    requires
        gap.len() > 0,
        forall|i: int| 0 <= i < gap.len() ==> is_space(#[trigger] gap[i]),
    ensures
        words(a + gap + b) == words(a) + words(b),
    decreases a.len(),
{
    let s = a + gap + b;
    if a.len() == 0 {
        lemma_words_behind_space(gap, b);
        assert(s =~= gap + b);
        assert(words(a) + words(b) =~= words(b));
    } else if is_space(a[0]) {
        assert(s.drop_first() =~= a.drop_first() + gap + b);
        law_parted_words(a.drop_first(), gap, b);
    } else {
        let n = word_len(a) as int;
        lemma_word_len_is(a);
        let word = a.take(n);
        let rest = a.skip(n);
        assert(is_space(gap[0]));
        assert forall|i: int| 0 <= i < word.len() implies !is_space(#[trigger] word[i]) by {
            assert(word[i] == a[i]);
        }
        assert(s =~= word + (rest + gap + b));
        assert((rest + gap + b)[0] == if rest.len() > 0 { rest[0] } else { gap[0] });
        lemma_word_len(word, rest + gap + b);
        assert(s.take(n) =~= word);
        assert(s.skip(n) =~= rest + gap + b);
        law_parted_words(rest, gap, b);
        assert(seq![word] + (words(rest) + words(b)) =~= (seq![word] + words(rest)) + words(b));
    }
}

/// The characters before the first white space of a text are counted.
proof fn lemma_word_len_is(s: Seq<char>)
    ensures
        word_len(s) <= s.len(),
        forall|i: int| 0 <= i < word_len(s) ==> !is_space(#[trigger] s[i]),
        word_len(s) < s.len() ==> is_space(s[word_len(s) as int]),
        s.len() > 0 && !is_space(s[0]) ==> word_len(s) > 0,
    decreases s.len(),
{
    if s.len() > 0 && !is_space(s[0]) {
        let rest = s.drop_first();
        lemma_word_len_is(rest);
        assert forall|i: int| 0 <= i < word_len(s) implies !is_space(#[trigger] s[i]) by {
            if i > 0 {
                assert(s[i] == rest[i - 1]);
            }
        }
    }
}

proof fn lemma_words_behind_space(gap: Seq<char>, b: Seq<char>)
    requires
        forall|i: int| 0 <= i < gap.len() ==> is_space(#[trigger] gap[i]),
    ensures
        words(gap + b) == words(b),
    decreases gap.len(),
{
    if gap.len() > 0 {
        let rest = gap.drop_first();
        assert forall|i: int| 0 <= i < rest.len() implies is_space(#[trigger] rest[i]) by {
            assert(rest[i] == gap[i + 1]);
        }
        assert(is_space(gap[0]));
        assert((gap + b).drop_first() =~= rest + b);
        lemma_words_behind_space(rest, b);
    } else {
        assert(gap + b =~= b);
    }
}

} // verus!
