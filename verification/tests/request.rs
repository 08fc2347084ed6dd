use localhost::request::{decode_chunked, decode_chunks, Chunked, Method, ParseError, RequestParser};

#[test]
fn test_parse_simple_get() {
    let raw = b"GET /index.html HTTP/1.1\r\nHost: localhost\r\n\r\n";
    let mut parser = RequestParser::new(1024 * 1024);
    parser.feed(raw);
    let req = parser.try_parse().unwrap().unwrap();
    assert_eq!(req.method, Method::Get);
    assert_eq!(req.uri, "/index.html");
    assert_eq!(req.headers.get("host").map(|s| s.as_str()), Some("localhost"));
}

#[test]
fn test_parse_post_with_body() {
    let body = b"name=foo&value=bar";
    let raw = format!(
        "POST /submit HTTP/1.1\r\nHost: localhost\r\nContent-Length: {}\r\n\r\n",
        body.len()
    );
    let mut data = raw.into_bytes();
    data.extend_from_slice(body);
    let mut parser = RequestParser::new(1024 * 1024);
    parser.feed(&data);
    let req = parser.try_parse().unwrap().unwrap();
    assert_eq!(req.method, Method::Post);
    assert_eq!(req.body, body);
}

#[test]
fn test_query_string() {
    let raw = b"GET /search?q=hello&page=2 HTTP/1.1\r\nHost: localhost\r\n\r\n";
    let mut parser = RequestParser::new(1024 * 1024);
    parser.feed(raw);
    let req = parser.try_parse().unwrap().unwrap();
    assert_eq!(req.uri, "/search");
    assert_eq!(req.query_string, "q=hello&page=2");
}

fn fed(data: &[u8], max: usize) -> RequestParser {
    let mut parser = RequestParser::new(max);
    parser.feed(data);
    parser
}

fn invalid(data: &[u8]) -> String {
    match fed(data, 100).try_parse() {
        Err(ParseError::Invalid(m)) => m,
        _ => panic!("not refused"),
    }
}

#[test]
fn methods_have_names() {
    assert_eq!(Method::from_str("GET"), Method::Get);
    assert_eq!(Method::from_str("POST"), Method::Post);
    assert_eq!(Method::from_str("DELETE"), Method::Delete);
    assert_eq!(Method::from_str("get"), Method::Other("get".to_string()));
    assert_eq!(Method::from_str("PUT").as_str(), "PUT");
    assert_eq!(Method::Get.as_str(), "GET");
    assert_eq!(Method::Post.as_str(), "POST");
    assert_eq!(Method::Delete.as_str(), "DELETE");
}

#[test]
fn a_request_in_pieces() {
    let raw = b"DELETE /a HTTP/1.0\r\nX-Y:  z  \r\n\r\n";
    let mut parser = RequestParser::new(10);
    let n = raw.len();
    for i in 0..n - 1 {
        parser.feed(&raw[i..i + 1]);
        assert!(parser.try_parse().unwrap().is_none());
    }
    parser.feed(&raw[n - 1..]);
    let req = parser.try_parse().unwrap().unwrap();
    assert_eq!(req.method, Method::Delete);
    assert_eq!(req.version, "HTTP/1.0");
    assert_eq!(req.headers.get("x-y").map(|s| s.as_str()), Some("z"));
    assert!(req.headers.get("X-Y").is_none());
    parser.reset();
    assert!(parser.try_parse().unwrap().is_none());
}

#[test]
fn header_names_ignore_case() {
    let req = fed(b"GET / HTTP/1.1\r\nHOST: a\r\nhost: b\r\nno colon\r\n\r\n", 10)
        .try_parse()
        .unwrap()
        .unwrap();
    assert_eq!(req.headers.get("host").map(|s| s.as_str()), Some("b"));
    assert_eq!(req.headers.len(), 1);
}

#[test]
fn header_names_beyond_ascii() {
    let raw = "GET / HTTP/1.1\r\n\u{c9}T\u{c9}: v\r\n\r\n";
    let req = fed(raw.as_bytes(), 10).try_parse().unwrap().unwrap();
    assert_eq!(req.headers.get("\u{e9}t\u{e9}").map(|s| s.as_str()), Some("v"));
}

#[test]
fn named_hosts() {
    assert_eq!(fed(b"GET / HTTP/1.1\r\nHost: a:1\r\n\r\n", 10).host(), "a:1");
    assert_eq!(fed(b"GET / HTTP/1.1\r\n\r\n", 10).host(), "");
    assert_eq!(fed(b"GET / HTTP/1.1\r\nHost: a", 10).host(), "");
    assert_eq!(fed(b"GET\r\nHost: a\r\n\r\n", 10).host(), "");
}

#[test]
fn refused_requests() {
    assert_eq!(invalid(b"GET\r\n\r\n"), "Missing URI");
    assert_eq!(invalid(b"GET /\r\n\r\n"), "Missing HTTP version");
    assert_eq!(invalid(b"\xff / HTTP/1.1\r\n\r\n"), "Non-UTF8 request line");
    assert_eq!(invalid(b"GET / HTTP/1.1\r\n\xff: a\r\n\r\n"), "Non-UTF8 header key");
    assert_eq!(invalid(b"GET / HTTP/1.1\r\na: \xff\r\n\r\n"), "Non-UTF8 header value");
    assert_eq!(
        invalid(b"GET / HTTP/1.1\r\nContent-Length: x\r\n\r\n"),
        "Invalid Content-Length"
    );
}

#[test]
fn error_messages() {
    assert_eq!(
        ParseError::Invalid("Missing URI".to_string()).message(),
        "Invalid request: Missing URI"
    );
    assert_eq!(ParseError::TooLarge.message(), "Request entity too large");
}

#[test]
fn body_limit() {
    let at = b"POST / HTTP/1.1\r\nContent-Length: 3\r\n\r\nabc";
    assert_eq!(fed(at, 3).try_parse().unwrap().unwrap().body, b"abc");
    assert!(matches!(fed(at, 2).try_parse(), Err(ParseError::TooLarge)));
    let chunked = b"POST / HTTP/1.1\r\nTransfer-Encoding: Chunked\r\n\r\n3\r\nabc\r\n0\r\n\r\n";
    assert_eq!(fed(chunked, 3).try_parse().unwrap().unwrap().body, b"abc");
    assert!(matches!(fed(chunked, 2).try_parse(), Err(ParseError::TooLarge)));
}

#[test]
fn what_follows_a_body_is_left() {
    let req = fed(b"POST / HTTP/1.1\r\nContent-Length: 2\r\n\r\nabc", 10)
        .try_parse()
        .unwrap()
        .unwrap();
    assert_eq!(req.body, b"ab");
    let none = fed(b"POST / HTTP/1.1\r\n\r\nabc", 10).try_parse().unwrap().unwrap();
    assert!(none.body.is_empty());
}

#[test]
fn chunks() {
    assert_eq!(decode_chunked(b"4\r\nWiki\r\n5\r\npedia\r\n0\r\n\r\n").unwrap(), b"Wikipedia");
    assert_eq!(decode_chunked(b"A\r\n0123456789\r\na\r\nabcdefghij\r\n0\r\n").unwrap().len(), 20);
    assert_eq!(decode_chunked(b" 1 \r\nx\r\n0\r\n").unwrap(), b"x");
    assert!(decode_chunked(b"4\r\nWiki\r\n5\r\npedi").is_none());
    assert!(decode_chunked(b"zz\r\n").is_none());
    assert!(decode_chunked(b"").is_none());
}

#[test]
fn chunks_cut_off() {
    let whole: &[u8] = b"3\r\nabc\r\n12\r\n0123456789abcdefgh\r\n0\r\n";
    for k in 0..whole.len() {
        assert!(decode_chunked(&whole[..k]).is_none());
    }
    for behind in ["", "\r\n", "x", "5\r\nab"] {
        let mut data = whole.to_vec();
        data.extend_from_slice(behind.as_bytes());
        assert_eq!(decode_chunked(&data).unwrap(), b"abc0123456789abcdefgh");
    }
}

#[test]
fn chunk_sizes_that_do_not_fit() {
    let data = format!("{:x}\r\nabc", usize::MAX);
    assert!(matches!(decode_chunks(data.as_bytes()), Chunked::SizeOverflow));
    assert!(matches!(decode_chunks(b"1\r\na\r\n0\r\n\r\n"), Chunked::Body(_)));
    assert!(matches!(decode_chunks(b"1\r\na"), Chunked::Incomplete));
    let raw = format!("POST / HTTP/1.1\r\nTransfer-Encoding: chunked\r\n\r\n{}", data);
    assert!(fed(raw.as_bytes(), 10).checked_parse().is_none());
    assert!(fed(b"GET / HTTP/1.1\r\n\r\n", 10).checked_parse().is_some());
}
