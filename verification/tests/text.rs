use localhost::number::{read_unsigned, to_decimal, to_padded_hex, to_signed_decimal};
use localhost::path::{join_path, path_extension, path_parent};
use localhost::string_map::StringMap;
use localhost::text::{
    chars_of, contains_text, cut_at, decoded, ends_with, eq_ignore_ascii_case, is_whitespace, join,
    lines_of, same_text, split_at_char, starts_with_text, string_of, strip_prefix, trimmed,
    words_of,
};
use std::path::Path;

/// All texts of at most `n` characters out of `alphabet`.
fn texts(alphabet: &[char], n: usize) -> Vec<String> {
    let mut all = vec![String::new()];
    let mut last = all.clone();
    for _ in 0..n {
        let mut next = Vec::new();
        for s in &last {
            for c in alphabet {
                next.push(format!("{}{}", s, c));
            }
        }
        all.extend(next.clone());
        last = next;
    }
    all
}

#[test]
fn paths_are_taken_apart() {
    for s in texts(&['/', '.', 'a'], 7) {
        let p = Path::new(&s);
        let extension = p.extension().map(|e| e.to_str().unwrap().to_string());
        assert_eq!(path_extension(&s), extension, "extension of {:?}", s);
        let parent = p.parent().map(|d| d.to_str().unwrap().to_string());
        assert_eq!(path_parent(&s), parent, "parent of {:?}", s);
    }
}

#[test]
fn paths_are_joined() {
    let all = texts(&['/', '.', 'a'], 4);
    for a in &all {
        for b in &all {
            let expected = Path::new(a).join(b).to_str().unwrap().to_string();
            assert_eq!(join_path(a, b), expected, "{:?} and {:?}", a, b);
        }
    }
}

#[test]
fn white_space_is_that_of_unicode() {
    for n in 0..0x11_0000u32 {
        if let Some(c) = char::from_u32(n) {
            assert_eq!(is_whitespace(c), c.is_whitespace(), "{:x}", n);
        }
    }
}

#[test]
fn texts_are_trimmed_and_split() {
    for s in texts(&[' ', '\n', '\r', 'a', ':'], 5) {
        let chars = chars_of(&s);
        assert_eq!(string_of(trimmed(&chars)), s.trim());
        let lines: Vec<String> = lines_of(&chars).iter().map(|l| string_of(l)).collect();
        let expected: Vec<&str> = s.lines().collect();
        assert_eq!(lines, expected, "lines of {:?}", s);
        let pieces: Vec<String> =
            split_at_char(&chars, ':').iter().map(|l| string_of(l)).collect();
        let expected: Vec<&str> = s.split(':').collect();
        assert_eq!(pieces, expected);
        let expected: Vec<&str> = s.split_whitespace().collect();
        assert_eq!(words_of(&chars), expected);
        let halves = cut_at(&chars, ':').map(|(a, b)| (string_of(a), string_of(b)));
        let expected = s.split_once(':').map(|(a, b)| (a.to_string(), b.to_string()));
        assert_eq!(halves, expected);
    }
}

#[test]
fn texts_are_searched() {
    let all = texts(&['a', 'b'], 4);
    for a in &all {
        let chars = chars_of(a);
        for b in &all {
            assert_eq!(contains_text(&chars, b), a.contains(b.as_str()));
            assert_eq!(starts_with_text(&chars, b), a.starts_with(b.as_str()));
            assert_eq!(ends_with(&chars, &chars_of(b)), a.ends_with(b.as_str()));
            assert_eq!(same_text(a, b), a == b);
            let rest = strip_prefix(&chars, b).map(string_of);
            assert_eq!(rest.as_deref(), a.strip_prefix(b.as_str()));
        }
    }
}

#[test]
fn case_is_ignored_in_ascii_alone() {
    assert!(eq_ignore_ascii_case("gEt", "GeT"));
    assert!(!eq_ignore_ascii_case("get", "gett"));
    assert!(!eq_ignore_ascii_case("\u{e9}", "\u{c9}"));
    assert!(!eq_ignore_ascii_case("@", "`"));
}

#[test]
fn bytes_are_decoded() {
    assert_eq!(decoded(b"a\xc3\xa9").map(|c| string_of(&c)), Some("a\u{e9}".to_string()));
    assert!(decoded(b"\xc3").is_none());
    assert!(decoded(b"\xff").is_none());
}

#[test]
fn words_are_joined() {
    let words = vec!["a".to_string(), "b".to_string(), "c".to_string()];
    assert_eq!(join(&words, ", "), "a, b, c");
    assert_eq!(join(&Vec::new(), ", "), "");
}

#[test]
fn numbers_are_written_and_read() {
    for n in [0u64, 7, 10, 255, 4096, 65535, u64::MAX] {
        assert_eq!(to_decimal(n), n.to_string());
        let chars = chars_of(&n.to_string());
        assert_eq!(read_unsigned(&chars, 10, u64::MAX), Some(n));
        assert_eq!(to_padded_hex(n, 16), format!("{:016x}", n));
        let hex = chars_of(&format!("{:x}", n));
        assert_eq!(read_unsigned(&hex, 16, u64::MAX), Some(n));
    }
    for n in [0i32, 5, -5, i32::MAX, i32::MIN] {
        assert_eq!(to_signed_decimal(n), n.to_string());
    }
}

#[test]
fn numbers_have_limits() {
    for s in texts(&['+', '-', '1', '9', ' '], 5) {
        let chars = chars_of(&s);
        assert_eq!(read_unsigned(&chars, 10, 255), s.parse::<u8>().ok().map(|n| n as u64), "{:?}", s);
        assert_eq!(
            read_unsigned(&chars, 10, 65535),
            s.parse::<u16>().ok().map(|n| n as u64),
            "{:?}",
            s
        );
    }
}

#[test]
fn maps_keep_the_last_value_in_the_first_place() {
    let mut m = StringMap::new();
    m.insert("a".to_string(), "1".to_string());
    m.insert("b".to_string(), "2".to_string());
    m.insert("a".to_string(), "3".to_string());
    assert_eq!(m.len(), 2);
    assert_eq!(m.entry(0), ("a", "3"));
    assert_eq!(m.entry(1), ("b", "2"));
    assert!(m.get("c").is_none());
    let copy = m.clone();
    assert_eq!(copy.get("b").unwrap(), "2");
}
