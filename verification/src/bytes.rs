//! Searching and splitting of raw bytes.

use crate::seqs;
use crate::text;
use vstd::prelude::*;
use vstd::slice::slice_subrange;

verus! {

/// Carriage return, line feed.
pub open spec fn crlf() -> Seq<u8> {
    seq![13u8, 10u8]
}

/// The empty line that ends a header section.
pub open spec fn blank_line() -> Seq<u8> {
    seq![13u8, 10u8, 13u8, 10u8]
}

/// The contents of every slice of a sequence.
pub open spec fn slices(v: Seq<&[u8]>) -> Seq<Seq<u8>> {
    v.map_values(|s: &[u8]| s@)
}

/// Whether two byte slices hold the same bytes.
pub fn same_bytes(a: &[u8], b: &[u8]) -> (r: bool)
    ensures
        r == (a@ == b@),
{
    if a.len() != b.len() {
        return false;
    }
    let mut i: usize = 0;
    while i < a.len()
        invariant
            a@.len() == b@.len(),
            i <= a@.len(),
            forall|j: int| 0 <= j < i ==> a@[j] == b@[j],
        decreases a@.len() - i,
    {
        if a[i] != b[i] {
            return false;
        }
        i = i + 1;
    }
    assert(a@ =~= b@);
    true
}

/// Position of the first occurrence of `needle` in `haystack`.
pub fn find_subsequence(haystack: &[u8], needle: &[u8]) -> (r: Option<usize>)
    requires
        needle@.len() > 0,
    ensures
        match r {
            Some(i) => i + needle@.len() <= haystack@.len() && seqs::find(haystack@, needle@) == Some(
                i as int,
            ) && seqs::occurs_at(haystack@, needle@, i as int),
            None => seqs::find(haystack@, needle@) is None,
        },
{
    let n: usize = haystack.len();
    let m: usize = needle.len();
    let mut i: usize = 0;
    while n - i >= m
        invariant
            n == haystack@.len(),
            m == needle@.len(),
            m > 0,
            i <= n,
            seqs::find(haystack@, needle@) == seqs::find_from(haystack@, needle@, i as int),
        decreases n - i,
    {
        if same_bytes(slice_subrange(haystack, i, i + m), needle) {
            return Some(i);
        }
        i = i + 1;
    }
    None
}

/// Position of the first `b` in `s`.
pub fn position_of(s: &[u8], b: u8) -> (r: Option<usize>)
    ensures
        match r {
            Some(i) => i < s@.len() && seqs::index_of(s@, b) == Some(i as int),
            None => seqs::index_of(s@, b) is None,
        },
{
    let mut i: usize = 0;
    while i < s.len()
        invariant
            i <= s@.len(),
            seqs::index_of(s@, b) == seqs::index_from(s@, b, i as int),
        decreases s@.len() - i,
    {
        if s[i] == b {
            return Some(i);
        }
        i = i + 1;
    }
    None
}

/// The pieces of `s` between the occurrences of `b`.
pub fn split_at_byte(s: &[u8], b: u8) -> (r: Vec<&[u8]>)
    ensures
        slices(r@) == seqs::split(s@, b),
        r@.len() > 0,
{
    let mut out: Vec<&[u8]> = Vec::new();
    let mut start: usize = 0;
    assert(s@.skip(0) =~= s@);
    assert(slices(out@) + seqs::split(s@.skip(0), b) =~= seqs::split(s@, b));
    loop
        invariant
            start <= s@.len(),
            slices(out@) + seqs::split(s@.skip(start as int), b) == seqs::split(s@, b),
        decreases s@.len() - start,
    {
        let rest = slice_subrange(s, start, s.len());
        assert(rest@ =~= s@.skip(start as int));
        let ghost before = slices(out@);
        match position_of(rest, b) {
            Some(i) => {
                let piece = slice_subrange(rest, 0, i);
                assert(piece@ =~= rest@.take(i as int));
                out.push(piece);
                assert(slices(out@) =~= before.push(piece@));
                assert(rest@.skip(i + 1) =~= s@.skip(start + i + 1));
                assert(before + (seq![piece@] + seqs::split(s@.skip(start + i + 1), b)) =~= before.push(
                    piece@,
                ) + seqs::split(s@.skip(start + i + 1), b));
                start = start + i + 1;
            },
            None => {
                out.push(rest);
                assert(slices(out@) =~= before + seq![rest@]);
                return out;
            },
        }
    }
}

/// A line without the carriage return that ends it.
pub fn strip_cr(line: &[u8]) -> (r: &[u8])
    ensures
        r@ == text::without_cr(line@, 13u8),
{
    let n: usize = line.len();
    if n > 0 && line[n - 1] == 13u8 {
        assert(line@.subrange(0, n - 1) =~= line@.drop_last());
        slice_subrange(line, 0, n - 1)
    } else {
        line
    }
}

/// Appends the bytes of `data` to `out`.
pub fn append_bytes(out: &mut Vec<u8>, data: &[u8])
    ensures
        final(out)@ == old(out)@ + data@,
{
    out.extend_from_slice(data);
    assert(out@ =~= old(out)@ + data@);
}

/// A copy of the bytes of `data`.
pub fn copy_of(data: &[u8]) -> (r: Vec<u8>)
    ensures
        r@ == data@,
{
    let mut out: Vec<u8> = Vec::new();
    append_bytes(&mut out, data);
    assert(out@ =~= data@);
    out
}

} // verus!
