use localhost::multipart::{
    extract_filename, parse_boundary, save_multipart_uploads, uploads_until_fault,
};

fn chars(s: &str) -> Vec<char> {
    s.chars().collect()
}

#[test]
fn boundaries() {
    assert_eq!(
        parse_boundary("multipart/form-data; boundary=abc"),
        Some("abc".to_string())
    );
    assert_eq!(
        parse_boundary("multipart/form-data;  boundary=\"a b\" ; x=y"),
        Some("a b".to_string())
    );
    assert_eq!(parse_boundary("multipart/form-data"), None);
    assert_eq!(parse_boundary("boundary ="), None);
}

#[test]
fn filenames() {
    let one = chars("Content-Disposition: form-data; name=\"f\"; filename=\"a.txt\"\r\nX: y");
    assert_eq!(extract_filename(&one), Some("a.txt".to_string()));
    let upper = chars("X: filename=no\r\nCONTENT-DISPOSITION: form-data; filename=b");
    assert_eq!(extract_filename(&upper), Some("b".to_string()));
    let wide = chars("Content-Disposition: form-data; name=\"f\"; filename=\"\u{c9}t\u{e9}.txt\"");
    assert_eq!(extract_filename(&wide), Some("\u{c9}t\u{e9}.txt".to_string()));
    let inner = chars("Content-Disposition: form-data; name=\"\"f\"; filename=\"a\"b\rc\"");
    assert_eq!(extract_filename(&inner), Some("a\"b\rc".to_string()));
    let none = chars("Content-Disposition: form-data; name=\"f\"");
    assert_eq!(extract_filename(&none), None);
}

const BODY: &[u8] = b"--B\r\n\
Content-Disposition: form-data; name=\"f\"; filename=\"a.txt\"\r\n\
Content-Type: text/plain\r\n\r\nfirst\r\n\
--B\r\nContent-Disposition: form-data; name=\"t\"\r\n\r\nno file\r\n\
--B\r\nContent-Disposition: form-data; name=\"g\"; filename=\"/b\"\r\n\r\n\r\n\
--B--\r\n";

#[test]
fn files_of_a_body() {
    assert!(uploads_until_fault(BODY, "B", "./up").1);
    let files = save_multipart_uploads(BODY, "B", "./up");
    assert_eq!(files.len(), 2);
    assert_eq!(files[0].name, "a.txt");
    assert_eq!(files[0].dest, "./up/a.txt");
    assert_eq!(files[0].data, b"first");
    assert_eq!(files[1].name, "/b");
    assert_eq!(files[1].dest, "/b");
    assert!(files[1].data.is_empty());
}

#[test]
fn bodies_without_files() {
    assert!(save_multipart_uploads(b"", "B", "d").is_empty());
    assert!(save_multipart_uploads(b"--B--\r\n", "B", "d").is_empty());
    assert!(save_multipart_uploads(b"--B", "B", "d").is_empty());
    assert!(save_multipart_uploads(b"--B\r\nno blank line\r\n--B--", "B", "d").is_empty());
}

#[test]
fn delimiters_that_are_too_close() {
    assert!(!uploads_until_fault(b"--B\r\n--B--", "B", "d").1);
    assert!(!uploads_until_fault(b"--B\r\nx--B--", "B", "d").1);
    assert!(uploads_until_fault(b"--B\r\n\r\n--B--", "B", "d").1);
}

#[test]
fn files_before_a_fault() {
    let body = b"--B\r\nContent-Disposition: form-data; filename=a\r\n\r\nx\r\n--B\r\n--B--\r\n";
    let (files, sound) = uploads_until_fault(body, "B", "d");
    assert!(!sound);
    assert_eq!(files.len(), 1);
    assert_eq!(files[0].dest, "d/a");
    assert_eq!(files[0].data, b"x");
}
