//! Paths of the file system, as text with `/` as separator.

use crate::text;
use vstd::prelude::*;
use vstd::slice::slice_subrange;

verus! {

/// `part` seen from `base`: `part` itself where it is absolute, else `part` behind `base`.
pub open spec fn joined(base: Seq<char>, part: Seq<char>) -> Seq<char> {
    if part.len() > 0 && part[0] == '/' {
        part
    } else if base.len() == 0 || base.last() == '/' {
        base + part
    } else {
        base + "/"@ + part
    }
}

/// Position of the last `c` among the first `n` characters of `s`.
pub open spec fn last_index(s: Seq<char>, c: char, n: int) -> Option<int>
    decreases n,
{
    if n <= 0 || n > s.len() {
        None
    } else if s[n - 1] == c {
        Some(n - 1)
    } else {
        last_index(s, c, n - 1)
    }
}

/// `p` without the separators, and the `.` components after a separator, that end it.
pub open spec fn trim_tail(p: Seq<char>) -> Seq<char>
    decreases p.len(),
{
    if p.len() > 0 && p.last() == '/' {
        trim_tail(p.drop_last())
    } else if p.len() > 1 && p.last() == '.' && p[p.len() - 2] == '/' {
        trim_tail(p.drop_last())
    } else {
        p
    }
}

/// The last component of a path.
pub open spec fn last_component(p: Seq<char>) -> Seq<char> {
    let t = trim_tail(p);
    match last_index(t, '/', t.len() as int) {
        Some(i) => t.skip(i + 1),
        None => t,
    }
}

/// What follows the last dot of the name of the file; a dot that starts the name does not count.
pub open spec fn extension(p: Seq<char>) -> Option<Seq<char>> {
    let f = last_component(p);
    if f == "."@ || f == ".."@ {
        None
    } else {
        match last_index(f, '.', f.len() as int) {
            Some(i) => if i > 0 {
                Some(f.skip(i + 1))
            } else {
                None
            },
            None => None,
        }
    }
}

/// The path without its last component, unless it has none.
pub open spec fn parent(p: Seq<char>) -> Option<Seq<char>> {
    let t = trim_tail(p);
    if t.len() == 0 {
        None
    } else {
        match last_index(t, '/', t.len() as int) {
            Some(i) => {
                let d = trim_tail(t.take(i + 1));
                Some(
                    if d.len() == 0 {
                        "/"@
                    } else {
                        d
                    },
                )
            },
            None => Some(Seq::empty()),
        }
    }
}

/// `part` seen from `base`.
pub fn join_path(base: &str, part: &str) -> (r: String)
    ensures
        r@ == joined(base@, part@),
{
    let b = text::chars_of(base);
    let p = text::chars_of(part);
    if p.len() > 0 && p[0] == '/' {
        return part.to_owned();
    }
    let mut out = base.to_owned();
    if b.len() > 0 && b[b.len() - 1] != '/' {
        out.append("/");
    }
    out.append(part);
    out
}

/// Position of the last `c` in `s`.
fn last_position(s: &[char], c: char) -> (r: Option<usize>)
    ensures
        match r {
            Some(i) => i < s@.len() && last_index(s@, c, s@.len() as int) == Some(i as int),
            None => last_index(s@, c, s@.len() as int) is None,
        },
{
    let mut n: usize = s.len();
    while n > 0
        invariant
            n <= s@.len(),
            last_index(s@, c, s@.len() as int) == last_index(s@, c, n as int),
        decreases n,
    {
        if s[n - 1] == c {
            return Some(n - 1);
        }
        n = n - 1;
    }
    None
}

/// `p` without what ends it in vain.
fn without_tail(p: &[char]) -> (r: &[char])
    ensures
        r@ == trim_tail(p@),
{
    let mut n: usize = p.len();
    assert(p@.take(n as int) =~= p@);
    while n > 0 && (p[n - 1] == '/' || (n > 1 && p[n - 1] == '.' && p[n - 2] == '/'))
        invariant
            n <= p@.len(),
            trim_tail(p@) == trim_tail(p@.take(n as int)),
        decreases n,
    {
        assert(p@.take(n as int).drop_last() =~= p@.take(n - 1));
        n = n - 1;
    }
    slice_subrange(p, 0, n)
}

/// The extension of the file that a path names.
pub fn path_extension(path: &str) -> (r: Option<String>)
    ensures
        match r {
            Some(e) => extension(path@) == Some(e@),
            None => extension(path@) is None,
        },
{
    let p = text::chars_of(path);
    let t = without_tail(p.as_slice());
    let n: usize = t.len();
    let f = match last_position(t, '/') {
        Some(i) => {
            assert(t@.subrange(i + 1, n as int) =~= t@.skip(i + 1));
            slice_subrange(t, i + 1, n)
        },
        None => t,
    };
    if text::is_text(f, ".") || text::is_text(f, "..") {
        return None;
    }
    let m: usize = f.len();
    match last_position(f, '.') {
        Some(i) => if i > 0 {
            assert(f@.subrange(i + 1, m as int) =~= f@.skip(i + 1));
            Some(text::string_of(slice_subrange(f, i + 1, m)))
        } else {
            None
        },
        None => None,
    }
}

/// The path without its last component.
pub fn path_parent(path: &str) -> (r: Option<String>)
    ensures
        match r {
            Some(d) => parent(path@) == Some(d@),
            None => parent(path@) is None,
        },
{
    let p = text::chars_of(path);
    let t = without_tail(p.as_slice());
    let n: usize = t.len();
    if n == 0 {
        return None;
    }
    match last_position(t, '/') {
        Some(i) => {
            let head = slice_subrange(t, 0, i + 1);
            assert(head@ =~= t@.take(i + 1));
            let d = without_tail(head);
            if d.len() == 0 {
                Some("/".to_owned())
            } else {
                Some(text::string_of(d))
            }
        },
        None => Some(String::new()),
    }
}

// ---------------------------------------------------------------------------
// Laws
// ---------------------------------------------------------------------------

/// A relative path is put behind a directory with one separator between them, an absolute path
/// stands for itself.
pub proof fn law_joined_paths(base: Seq<char>, part: Seq<char>)
    ensures
        part.len() > 0 && part[0] == '/' ==> joined(base, part) == part,
        !(part.len() > 0 && part[0] == '/') && base.len() > 0 && base.last() != '/' ==> joined(
            base,
            part,
        ) == base + seq!['/'] + part,
        !(part.len() > 0 && part[0] == '/') && base.len() > 0 && base.last() == '/' ==> joined(
            base,
            part,
        ) == base + part,
        base.len() == 0 ==> joined(base, part) == part,
{
    reveal_strlit("/");
    assert("/"@ =~= seq!['/']);
    if base.len() == 0 {
        assert(base + part =~= part);
    }
}

/// A place of `c` with none behind it, among the first `n` characters, is the last one.
proof fn lemma_last_index_is(s: Seq<char>, c: char, n: int, i: int)
    requires
        0 <= i < n <= s.len(),
        s[i] == c,
        forall|j: int| i < j < n ==> s[j] != c,
    ensures
        last_index(s, c, n) == Some(i),
    decreases n,
{
    if i < n - 1 {
        lemma_last_index_is(s, c, n - 1, i);
    }
}

/// Where `c` does not occur it has no last place.
proof fn lemma_no_last_index(s: Seq<char>, c: char, n: int)
    requires
        0 <= n <= s.len(),
        !s.contains(c),
    ensures
        last_index(s, c, n) is None,
    decreases n,
{
    if n > 0 {
        assert(s.contains(s[n - 1]));
        lemma_no_last_index(s, c, n - 1);
    }
}

/// The text can be the name of a file in a directory.
pub open spec fn file_name(name: Seq<char>) -> bool {
    name.len() > 0 && !name.contains('/') && name != seq!['.'] && name != seq!['.', '.']
}

/// The text is nothing or ends in a separator.
pub open spec fn directory_prefix(dir: Seq<char>) -> bool {
    dir.len() > 0 ==> dir.last() == '/'
}

/// The last component of a path is the name of the file, wherever the file is.
proof fn lemma_last_component(dir: Seq<char>, name: Seq<char>)
    requires
        directory_prefix(dir),
        file_name(name),
    ensures
        trim_tail(dir + name) == dir + name,
        last_component(dir + name) == name,
        dir.len() == 0 ==> last_index(dir + name, '/', (dir + name).len() as int) is None,
        dir.len() > 0 ==> last_index(dir + name, '/', (dir + name).len() as int) == Some(
            dir.len() - 1,
        ),
{
    let p = dir + name;
    let n = p.len() as int;
    assert(name.contains(name.last()));
    assert(p.last() == name.last());
    if name.len() == 1 {
        assert(name =~= seq![name[0]]);
    } else {
        assert(p[n - 2] == name[name.len() - 2]);
        assert(name.contains(name[name.len() - 2]));
    }
    assert(trim_tail(p) == p);
    if dir.len() == 0 {
        assert(p =~= name);
        lemma_no_last_index(name, '/', n);
    } else {
        assert forall|j: int| dir.len() - 1 < j < n implies p[j] != '/' by {
            assert(name.contains(name[j - dir.len()]));
        }
        lemma_last_index_is(p, '/', n, dir.len() - 1);
        assert(p.skip(dir.len() as int) =~= name);
    }
}

/// The extension of a file is what follows the last dot of its name, wherever the file is.
pub proof fn law_extension(dir: Seq<char>, stem: Seq<char>, ext: Seq<char>)
    requires
        directory_prefix(dir),
        stem.len() > 0,
        !stem.contains('/'),
        !ext.contains('/'),
        !ext.contains('.'),
        ext.len() > 0,
    ensures
        extension(dir + stem + seq!['.'] + ext) == Some(ext),
{
    let name = stem + seq!['.'] + ext;
    let p = dir + stem + seq!['.'] + ext;
    reveal_strlit(".");
    reveal_strlit("..");
    assert(p =~= dir + name);
    assert(!name.contains('/')) by {
        if name.contains('/') {
            let i = choose|i: int| 0 <= i < name.len() && name[i] == '/';
            if i < stem.len() {
                assert(stem.contains(stem[i]));
            } else if i > stem.len() {
                assert(ext.contains(ext[i - stem.len() - 1]));
            }
        }
    }
    assert(name.len() >= 3);
    lemma_last_component(dir, name);
    let n = stem.len() as int;
    assert forall|j: int| n < j < name.len() implies name[j] != '.' by {
        assert(ext.contains(ext[j - n - 1]));
    }
    lemma_last_index_is(name, '.', name.len() as int, n);
    assert(name.skip(n + 1) =~= ext);
}

/// A file whose name has no dot, or none but at its start, has no extension.
pub proof fn law_no_extension(dir: Seq<char>, name: Seq<char>)
    requires
        directory_prefix(dir),
        file_name(name),
        !name.drop_first().contains('.'),
    ensures
        extension(dir + name) is None,
{
    lemma_last_component(dir, name);
    let n = name.len() as int;
    assert forall|j: int| 0 < j < n implies name[j] != '.' by {
        assert(name.drop_first().contains(name.drop_first()[j - 1]));
    }
    if name[0] == '.' {
        lemma_last_index_is(name, '.', n, 0);
    } else {
        lemma_no_last_index(name, '.', n);
    }
}

/// The path of the directory of a file is what precedes the separator in front of its name; a file
/// in the root is in the root, and a bare name is in no directory.
pub proof fn law_parent(dir: Seq<char>, name: Seq<char>)
    requires
        file_name(name),
    ensures
        dir.len() > 0 && dir.last() != '/' && dir.last() != '.' ==> parent(
            dir + seq!['/'] + name,
        ) == Some(dir),
        parent(seq!['/'] + name) == Some(seq!['/']),
        parent(name) == Some(Seq::<char>::empty()),
{
    reveal_strlit("/");
    assert("/"@ =~= seq!['/']);
    let none = Seq::<char>::empty();
    lemma_last_component(none, name);
    assert(none + name =~= name);
    let root = seq!['/'];
    lemma_last_component(root, name);
    assert((root + name).take(1) =~= root);
    assert(root.drop_last() =~= none);
    reveal_with_fuel(trim_tail, 2);
    if dir.len() > 0 && dir.last() != '/' && dir.last() != '.' {
        let base = dir + seq!['/'];
        lemma_last_component(base, name);
        assert((base + name).take(base.len() as int) =~= base);
        assert(base.drop_last() =~= dir);
        assert(trim_tail(base) == dir);
    }
}

} // verus!
