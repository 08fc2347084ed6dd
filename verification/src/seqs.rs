//! Searching and splitting of sequences, shared by byte and character handling.

use vstd::prelude::*;

verus! {

/// Position of the first `x` in `s` at or after `from`.
pub open spec fn index_from<T>(s: Seq<T>, x: T, from: int) -> Option<int>
    decreases s.len() - from,
{
    if from < 0 || from >= s.len() {
        None
    } else if s[from] == x {
        Some(from)
    } else {
        index_from(s, x, from + 1)
    }
}

/// Position of the first `x` in `s`.
pub open spec fn index_of<T>(s: Seq<T>, x: T) -> Option<int> {
    index_from(s, x, 0)
}

/// `needle` stands in `hay` at position `i`.
pub open spec fn occurs_at<T>(hay: Seq<T>, needle: Seq<T>, i: int) -> bool {
    0 <= i && i + needle.len() <= hay.len() && hay.subrange(i, i + needle.len()) == needle
}

/// Position of the first occurrence of `needle` in `hay` at or after `from`.
pub open spec fn find_from<T>(hay: Seq<T>, needle: Seq<T>, from: int) -> Option<int>
    decreases hay.len() - from,
{
    if from < 0 || from + needle.len() > hay.len() {
        None
    } else if occurs_at(hay, needle, from) {
        Some(from)
    } else if from >= hay.len() {
        None
    } else {
        find_from(hay, needle, from + 1)
    }
}

/// Position of the first occurrence of `needle` in `hay`.
pub open spec fn find<T>(hay: Seq<T>, needle: Seq<T>) -> Option<int> {
    find_from(hay, needle, 0)
}

/// The pieces of `s` between the occurrences of `x`; always at least one piece.
pub open spec fn split<T>(s: Seq<T>, x: T) -> Seq<Seq<T>>
    decreases s.len(),
{
    match index_of(s, x) {
        Some(i) => if 0 <= i < s.len() {
            seq![s.take(i)] + split(s.skip(i + 1), x)
        } else {
            seq![s]
        },
        None => seq![s],
    }
}

pub proof fn lemma_index_from<T>(s: Seq<T>, x: T, from: int)
    requires
        0 <= from,
    ensures
        match index_from(s, x, from) {
            Some(i) => from <= i < s.len() && s[i] == x && forall|j: int|
                from <= j < i ==> s[j] != x,
            None => forall|j: int| from <= j < s.len() ==> s[j] != x,
        },
    decreases s.len() - from,
{
    if from < s.len() && s[from] != x {
        lemma_index_from(s, x, from + 1);
    }
}

/// An occurrence with none before it is the first one.
pub proof fn lemma_index_is<T>(s: Seq<T>, x: T, from: int, i: int)
    requires
        0 <= from <= i < s.len(),
        s[i] == x,
        forall|j: int| from <= j < i ==> s[j] != x,
    ensures
        index_from(s, x, from) == Some(i),
{
    lemma_index_from(s, x, from);
    let r = index_from(s, x, from);
    if r is None {
        assert(s[i] != x);
    } else if r->0 < i {
        assert(s[r->0] != x);
    } else if r->0 > i {
        assert(s[i] != x);
    }
}

pub proof fn lemma_find_from<T>(hay: Seq<T>, needle: Seq<T>, from: int)
    requires
        0 <= from,
    ensures
        match find_from(hay, needle, from) {
            Some(i) => from <= i && occurs_at(hay, needle, i) && forall|j: int|
                from <= j < i ==> !occurs_at(hay, needle, j),
            None => forall|j: int| from <= j ==> !occurs_at(hay, needle, j),
        },
    decreases hay.len() - from,
{
    if from + needle.len() <= hay.len() && !occurs_at(hay, needle, from) && from < hay.len() {
        lemma_find_from(hay, needle, from + 1);
    }
}

/// An occurrence with none before it is the first one.
pub proof fn lemma_find_is<T>(hay: Seq<T>, needle: Seq<T>, from: int, i: int)
    requires
        0 <= from <= i,
        occurs_at(hay, needle, i),
        forall|j: int| from <= j < i ==> !occurs_at(hay, needle, j),
    ensures
        find_from(hay, needle, from) == Some(i),
{
    lemma_find_from(hay, needle, from);
}

/// What follows a sequence does not move the first occurrence inside it.
pub proof fn lemma_find_extends<T>(hay: Seq<T>, needle: Seq<T>, extra: Seq<T>)
    requires
        find(hay, needle) is Some,
    ensures
        find(hay + extra, needle) == find(hay, needle),
{
    lemma_find_from(hay, needle, 0);
    let i = find(hay, needle)->0;
    let whole = hay + extra;
    assert(whole.subrange(i, i + needle.len()) =~= hay.subrange(i, i + needle.len()));
    assert forall|j: int| 0 <= j < i implies !occurs_at(whole, needle, j) by {
        if occurs_at(whole, needle, j) {
            assert(whole.subrange(j, j + needle.len()) =~= hay.subrange(j, j + needle.len()));
            assert(occurs_at(hay, needle, j));
        }
    }
    lemma_find_is(whole, needle, 0, i);
}

/// A sequence without `x` is one piece.
pub proof fn lemma_split_whole<T>(s: Seq<T>, x: T)
    requires
        !s.contains(x),
    ensures
        split(s, x) == seq![s],
{
    lemma_index_from(s, x, 0);
}

/// A piece without `x` in front of an `x` is the first one.
pub proof fn lemma_split_first<T>(first: Seq<T>, x: T, rest: Seq<T>)
    requires
        !first.contains(x),
    ensures
        split(first + seq![x] + rest, x) == seq![first] + split(rest, x),
{
    let s = first + seq![x] + rest;
    let n = first.len() as int;
    assert forall|j: int| 0 <= j < n implies s[j] != x by {
        assert(first.contains(first[j]));
    }
    lemma_index_is(s, x, 0, n);
    assert(s.take(n) =~= first);
    assert(s.skip(n + 1) =~= rest);
}

/// Where an element of the needle does not occur, the needle does not either.
pub proof fn lemma_find_first_element<T>(hay: Seq<T>, needle: Seq<T>, rest: Seq<T>)
    requires
        needle.len() > 0,
        !hay.contains(needle[0]),
    ensures
        find(hay + needle + rest, needle) == Some(hay.len() as int),
{
    let whole = hay + needle + rest;
    let n = hay.len() as int;
    assert(whole.subrange(n, n + needle.len()) =~= needle);
    assert forall|j: int| 0 <= j < n implies !occurs_at(whole, needle, j) by {
        if occurs_at(whole, needle, j) {
            assert(whole.subrange(j, j + needle.len())[0] == hay[j]);
            assert(hay.contains(hay[j]));
        }
    }
    lemma_find_is(whole, needle, 0, n);
}

/// What is found is the first place where the whole needle stands, and nothing is found only if it
/// stands nowhere.
pub proof fn law_find<T>(before: Seq<T>, needle: Seq<T>, behind: Seq<T>, hay: Seq<T>, i: int)
    ensures
        find(before + needle + behind, needle) is Some,
        find(before + needle + behind, needle)->0 <= before.len(),
        find(hay, needle) == Some(i) ==> 0 <= i && i + needle.len() <= hay.len() && hay.subrange(
            i,
            i + needle.len(),
        ) == needle,
{
    let whole = before + needle + behind;
    let n = before.len() as int;
    assert(whole.subrange(n, n + needle.len()) =~= needle);
    assert(occurs_at(whole, needle, n));
    lemma_find_from(whole, needle, 0);
    lemma_find_from(hay, needle, 0);
}

} // verus!
