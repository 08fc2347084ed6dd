use localhost::response::{default_error_page, encoded, status_reason, Response};

#[test]
fn test_serialize_200() {
    let resp = Response::new(200).with_body(b"hello".to_vec(), "text/plain");
    let bytes = resp.serialize();
    let text = String::from_utf8(bytes).unwrap();
    assert!(text.starts_with("HTTP/1.1 200 OK\r\n"));
    assert!(text.contains("Content-Length: 5"));
    assert!(text.ends_with("hello"));
}

#[test]
fn test_redirect() {
    let resp = Response::redirect(301, "/new-location");
    let bytes = resp.serialize();
    let text = String::from_utf8(bytes).unwrap();
    assert!(text.starts_with("HTTP/1.1 301 Moved Permanently\r\n"));
    assert!(text.contains("Location: /new-location"));
}

#[test]
fn exact_bytes() {
    let resp = Response::new(404).with_header("A", "1").with_body(b"x".to_vec(), "t").with_header("A", "2");
    assert_eq!(
        resp.serialize(),
        b"HTTP/1.1 404 Not Found\r\nA: 2\r\nContent-Type: t\r\nContent-Length: 1\r\n\r\nx".to_vec()
    );
    assert_eq!(Response::new(599).serialize(), b"HTTP/1.1 599 Unknown\r\n\r\n".to_vec());
}

#[test]
fn body_stands_behind_the_first_empty_line() {
    let resp = Response::new(200).with_body(b"a\r\n\r\nb".to_vec(), "t");
    let bytes = resp.serialize();
    let at = bytes.windows(4).position(|w| w == b"\r\n\r\n").unwrap();
    assert_eq!(&bytes[at + 4..], b"a\r\n\r\nb");
}

#[test]
fn redirects_have_no_body() {
    assert_eq!(
        Response::redirect(302, "/x").serialize(),
        b"HTTP/1.1 302 Found\r\nLocation: /x\r\nContent-Length: 0\r\n\r\n".to_vec()
    );
}

#[test]
fn errors_with_and_without_a_page() {
    let page = "<!DOCTYPE html><html><head><title>403 Forbidden</title></head>\
                <body><h1>403 Forbidden</h1></body></html>";
    assert_eq!(default_error_page(403), page);
    let standard = Response::error(403, None);
    assert_eq!(standard.body, page.as_bytes());
    assert_eq!(
        standard.headers.get("Content-Type").unwrap(),
        "text/html; charset=utf-8"
    );
    assert_eq!(
        standard.headers.get("Content-Length").unwrap(),
        &page.len().to_string()
    );
    let own = Response::error(403, Some(b"no".to_vec()));
    assert_eq!(own.body, b"no");
    assert_eq!(own.status, 403);
}

#[test]
fn reasons() {
    let known: Vec<(u16, &str)> = vec![
        (200, "OK"),
        (201, "Created"),
        (204, "No Content"),
        (301, "Moved Permanently"),
        (302, "Found"),
        (304, "Not Modified"),
        (400, "Bad Request"),
        (403, "Forbidden"),
        (404, "Not Found"),
        (405, "Method Not Allowed"),
        (408, "Request Timeout"),
        (413, "Content Too Large"),
        (500, "Internal Server Error"),
        (501, "Not Implemented"),
        (504, "Unknown"),
        (0, "Unknown"),
    ];
    for (code, reason) in known {
        assert_eq!(status_reason(code), reason);
    }
}

#[test]
fn text_is_encoded() {
    assert_eq!(encoded("a\u{e9}\u{2014}"), "a\u{e9}\u{2014}".as_bytes());
}
