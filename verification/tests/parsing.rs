use http_server::body::Body;
use http_server::config::Config;
use http_server::headers::{ContentEncoding, ContentType, Headers};
use http_server::parser::{body_length, find_line_end, is_crlf, parse_request, read_header_lines};
use http_server::request::{parse_request_line, trim_lines, Method, ParseError, Request};
use http_server::text::{contains, is_whitespace, split_header_line, strip_prefix, trim_end};

fn lines(items: &[&str]) -> Vec<String> {
    items.iter().map(|s| s.to_string()).collect()
}

#[test]
fn request_line_with_three_words() {
    let (method, path, version) = parse_request_line("GET /index.html HTTP/1.1\r\n").unwrap();
    assert_eq!(method, Method::Get);
    assert_eq!(path, "/index.html");
    assert_eq!(version, "HTTP/1.1");
}

#[test]
fn request_line_post() {
    let (method, path, version) = parse_request_line("POST /files/a.txt HTTP/1.0").unwrap();
    assert_eq!(method, Method::Post);
    assert_eq!(path, "/files/a.txt");
    assert_eq!(version, "HTTP/1.0");
}

#[test]
fn request_line_keeps_path_and_version_verbatim() {
    let (_, path, version) = parse_request_line("  GET\t/a%20b/\u{e9}?x=1 \u{a0} hTTp/9\r\n").unwrap();
    assert_eq!(path, "/a%20b/\u{e9}?x=1");
    assert_eq!(version, "hTTp/9");
}

#[test]
fn request_line_ignores_words_after_the_third() {
    let (method, path, version) = parse_request_line("GET / HTTP/1.1 extra words\r\n").unwrap();
    assert_eq!(method, Method::Get);
    assert_eq!(path, "/");
    assert_eq!(version, "HTTP/1.1");
}

#[test]
fn request_line_with_too_few_words() {
    assert_eq!(parse_request_line("GET /\r\n").unwrap_err(), ParseError::MalformedRequestLine);
    assert_eq!(parse_request_line("GET").unwrap_err(), ParseError::MalformedRequestLine);
    assert_eq!(parse_request_line("").unwrap_err(), ParseError::MalformedRequestLine);
    assert_eq!(parse_request_line(" \r\n").unwrap_err(), ParseError::MalformedRequestLine);
    assert_eq!(parse_request_line("PUT /\r\n").unwrap_err(), ParseError::MalformedRequestLine);
}

#[test]
fn request_line_with_unknown_method() {
    assert_eq!(parse_request_line("PUT / HTTP/1.1\r\n").unwrap_err(), ParseError::UnknownMethod);
    assert_eq!(parse_request_line("get / HTTP/1.1\r\n").unwrap_err(), ParseError::UnknownMethod);
    assert_eq!(parse_request_line("GETS / HTTP/1.1\r\n").unwrap_err(), ParseError::UnknownMethod);
}

#[test]
fn method_from_str() {
    assert_eq!(Method::from_str("GET"), Ok(Method::Get));
    assert_eq!(Method::from_str("POST"), Ok(Method::Post));
    assert_eq!(Method::from_str("DELETE"), Err(ParseError::UnknownMethod));
    assert_eq!(Method::from_str(""), Err(ParseError::UnknownMethod));
}

#[test]
fn parse_error_messages_differ() {
    assert_ne!(ParseError::MalformedRequestLine.message(), ParseError::UnknownMethod.message());
}

#[test]
fn whitespace_characters() {
    for c in [' ', '\t', '\n', '\r', '\u{b}', '\u{c}', '\u{85}', '\u{a0}', '\u{1680}', '\u{2000}',
        '\u{200a}', '\u{2028}', '\u{2029}', '\u{202f}', '\u{205f}', '\u{3000}'] {
        assert!(is_whitespace(c));
    }
    for c in ['a', '0', ':', '\u{8}', '\u{e}', '\u{200b}', '\u{feff}', '\u{e9}'] {
        assert!(!is_whitespace(c));
    }
}

#[test]
fn whitespace_agrees_with_std() {
    let mut n: u32 = 0;
    while n <= 0x10ffff {
        if let Some(c) = char::from_u32(n) {
            assert_eq!(is_whitespace(c), c.is_whitespace());
        }
        n += 1;
    }
}

#[test]
fn trim_end_removes_trailing_whitespace_only() {
    assert_eq!(trim_end("Host: x\r\n"), "Host: x");
    assert_eq!(trim_end("  a b \t \u{3000}"), "  a b");
    assert_eq!(trim_end("\r\n"), "");
    assert_eq!(trim_end(""), "");
    assert_eq!(trim_end("abc"), "abc");
}

#[test]
fn header_line_splits_at_first_separator() {
    assert_eq!(
        split_header_line("Host: localhost: 4221"),
        Some(("Host".to_string(), "localhost: 4221".to_string()))
    );
    assert_eq!(split_header_line("A: "), Some(("A".to_string(), "".to_string())));
    assert_eq!(split_header_line(": v"), Some(("".to_string(), "v".to_string())));
    assert_eq!(split_header_line("a:b: c"), Some(("a:b".to_string(), "c".to_string())));
    assert_eq!(split_header_line("Host:localhost"), None);
    assert_eq!(split_header_line("no separator"), None);
    assert_eq!(split_header_line(""), None);
    assert_eq!(split_header_line(":"), None);
}

#[test]
fn contains_and_strip_prefix() {
    assert!(contains("deflate, gzip", "gzip"));
    assert!(contains("gzip", "gzip"));
    assert!(contains("abc", ""));
    assert!(!contains("gzi", "gzip"));
    assert!(!contains("", "gzip"));
    assert_eq!(strip_prefix("/echo/abc", "/echo/"), Some("abc".to_string()));
    assert_eq!(strip_prefix("/echo/", "/echo/"), Some("".to_string()));
    assert_eq!(strip_prefix("/echo", "/echo/"), None);
    assert_eq!(strip_prefix("/files/\u{e9}t\u{e9}", "/files/"), Some("\u{e9}t\u{e9}".to_string()));
}

#[test]
fn headers_are_found_whatever_their_case() {
    let headers = Headers::from(lines(&["User-Agent: x", "HOST: h", ""]));
    assert_eq!(headers.get("user-agent"), Some(&"x".to_string()));
    assert_eq!(headers.get("USER-AGENT"), Some(&"x".to_string()));
    assert_eq!(headers.get("User-Agent"), Some(&"x".to_string()));
    assert_eq!(headers.get("host"), Some(&"h".to_string()));
    assert_eq!(headers.get_user_agent(), Some(&"x".to_string()));
    assert_eq!(headers.get("accept"), None);
    assert_eq!(headers.len(), 2);
}

#[test]
fn headers_set_folds_the_name_and_keeps_the_value() {
    let mut headers = Headers::new();
    headers.set("X-Thing".to_string(), "MiXed Value ".to_string());
    assert_eq!(headers.len(), 1);
    assert_eq!(headers.name_at(0), "x-thing");
    assert_eq!(headers.value_at(0), "MiXed Value ");
    assert_eq!(headers.get("x-THING"), Some(&"MiXed Value ".to_string()));
}

#[test]
fn headers_set_replaces_in_place() {
    let mut headers = Headers::new();
    headers.set("A".to_string(), "1".to_string());
    headers.set("B".to_string(), "2".to_string());
    headers.set("a".to_string(), "3".to_string());
    assert_eq!(headers.len(), 2);
    assert_eq!(headers.name_at(0), "a");
    assert_eq!(headers.value_at(0), "3");
    assert_eq!(headers.name_at(1), "b");
    assert_eq!(headers.value_at(1), "2");
}

#[test]
fn headers_block_ends_at_first_empty_line() {
    let headers = Headers::from(lines(&["A: 1", "", "B: 2"]));
    assert_eq!(headers.len(), 1);
    assert_eq!(headers.get("a"), Some(&"1".to_string()));
    assert_eq!(headers.get("b"), None);
}

#[test]
fn headers_malformed_line_is_passed_over() {
    let headers = Headers::from(lines(&["A: 1", "garbage", "B:2", "C: 3"]));
    assert_eq!(headers.len(), 2);
    assert_eq!(headers.get("a"), Some(&"1".to_string()));
    assert_eq!(headers.get("c"), Some(&"3".to_string()));
}

#[test]
fn headers_later_line_wins() {
    let headers = Headers::from(lines(&["Accept: a", "ACCEPT: b"]));
    assert_eq!(headers.len(), 1);
    assert_eq!(headers.get("accept"), Some(&"b".to_string()));
}

#[test]
fn headers_of_no_lines() {
    let headers = Headers::from(Vec::new());
    assert_eq!(headers.len(), 0);
    assert_eq!(headers.get_content_length(), None);
    assert_eq!(headers.get_accept_encoding(), None);
    assert_eq!(headers.get_user_agent(), None);
}

#[test]
fn content_length_reads_unsigned_decimals() {
    let cases: [(&str, Option<usize>); 10] = [
        ("0", Some(0)),
        ("12", Some(12)),
        ("+5", Some(5)),
        ("007", Some(7)),
        ("", None),
        ("+", None),
        ("-1", None),
        ("12a", None),
        (" 12", None),
        ("99999999999999999999999999999999", None),
    ];
    for (text, expected) in cases {
        let mut headers = Headers::new();
        headers.set("Content-Length".to_string(), text.to_string());
        assert_eq!(headers.get_content_length(), expected);
    }
}

#[test]
fn canonical_setters_write_wire_strings() {
    let mut headers = Headers::new();
    headers.set_content_type(ContentType::PlainText);
    headers.set_content_length(1234);
    headers.set_content_encoding(ContentEncoding::Gzip);
    assert_eq!(headers.get("content-type"), Some(&"text/plain".to_string()));
    assert_eq!(headers.get("content-length"), Some(&"1234".to_string()));
    assert_eq!(headers.get("content-encoding"), Some(&"gzip".to_string()));
    assert_eq!(headers.get_content_length(), Some(1234));
    headers.set_content_type(ContentType::OctetStream);
    headers.set_content_length(0);
    assert_eq!(headers.get("content-type"), Some(&"application/octet-stream".to_string()));
    assert_eq!(headers.get("content-length"), Some(&"0".to_string()));
    assert_eq!(headers.len(), 3);
    assert_eq!(ContentType::PlainText.to_string(), "text/plain");
    assert_eq!(ContentType::OctetStream.as_str(), "application/octet-stream");
    assert_eq!(ContentEncoding::Gzip.to_string(), "gzip");
}

#[test]
fn accept_encoding_decides_gzip() {
    let cases: [(Option<&str>, bool); 6] = [
        (None, false),
        (Some("gzip"), true),
        (Some("deflate, gzip, br"), true),
        (Some("deflate"), false),
        (Some("GZIP"), false),
        (Some(""), false),
    ];
    for (value, expected) in cases {
        let mut headers = Headers::new();
        if let Some(v) = value {
            headers.set("Accept-Encoding".to_string(), v.to_string());
        }
        let request =
            Request::new(Method::Get, "/".to_string(), "HTTP/1.1".to_string(), headers, Body::new());
        assert_eq!(request.is_gzip_encoding(), expected);
    }
}

#[test]
fn body_constructors() {
    assert_eq!(Body::new().0, Vec::<u8>::new());
    assert_eq!(Body::from_str("abc").0, b"abc".to_vec());
    assert_eq!(Body::from_str("\u{e9}").0, vec![0xc3, 0xa9]);
    assert_eq!(Body::from_lines(lines(&["a", "b", "c"])).0, b"a\r\nb\r\nc".to_vec());
    assert_eq!(Body::from_lines(lines(&["only"])).0, b"only".to_vec());
    assert_eq!(Body::from_lines(lines(&["", ""])).0, b"\r\n".to_vec());
    assert_eq!(Body::from_lines(Vec::new()).0, Vec::<u8>::new());
    let mut body = Body::from_str("ab");
    body.push_str("cd");
    assert_eq!(body.0, b"abcd".to_vec());
    assert_eq!(body.len(), 4);
    assert_eq!(body.duplicate().0, body.0);
}

#[test]
fn request_with_payload() {
    let input = b"POST /files/foo.txt HTTP/1.1\r\nHost: localhost:4221\r\nContent-Length: 5\r\nUser-Agent: curl/8\r\n\r\nhello";
    let request = parse_request(input).unwrap();
    assert_eq!(request.method, Method::Post);
    assert_eq!(request.path, "/files/foo.txt");
    assert_eq!(request.version, "HTTP/1.1");
    assert_eq!(request.headers.len(), 3);
    assert_eq!(request.headers.get("host"), Some(&"localhost:4221".to_string()));
    assert_eq!(request.headers.get_user_agent(), Some(&"curl/8".to_string()));
    assert_eq!(request.headers.get_content_length(), Some(5));
    assert_eq!(request.body.0, b"hello".to_vec());
}

#[test]
fn request_without_headers() {
    let request = parse_request(b"GET / HTTP/1.1\r\n\r\n").unwrap();
    assert_eq!(request.method, Method::Get);
    assert_eq!(request.path, "/");
    assert_eq!(request.version, "HTTP/1.1");
    assert_eq!(request.headers.len(), 0);
    assert!(request.body.0.is_empty());
}

#[test]
fn request_payload_is_taken_byte_for_byte() {
    let mut input = b"POST /files/bin HTTP/1.1\r\nContent-Length: 8\r\n\r\n".to_vec();
    let payload: Vec<u8> = vec![0, 255, 13, 10, 13, 10, 128, 10];
    input.extend_from_slice(&payload);
    input.extend_from_slice(b"trailing bytes");
    let request = parse_request(&input).unwrap();
    assert_eq!(request.body.0, payload);
}

#[test]
fn request_without_usable_content_length_has_no_payload() {
    for head in [
        "GET / HTTP/1.1\r\n\r\n",
        "GET / HTTP/1.1\r\nContent-Length: x\r\n\r\n",
        "GET / HTTP/1.1\r\nContent-Length: 0\r\n\r\n",
        "GET / HTTP/1.1\r\nContent-Length: -3\r\n\r\n",
    ] {
        let mut input = head.as_bytes().to_vec();
        input.extend_from_slice(b"ignored");
        assert!(parse_request(&input).unwrap().body.0.is_empty());
    }
}

#[test]
fn request_header_names_are_folded() {
    let request = parse_request(b"GET /user-agent HTTP/1.1\r\nUSER-agent: x\r\n\r\n").unwrap();
    assert_eq!(request.headers.get("user-agent"), Some(&"x".to_string()));
    assert_eq!(request.headers.get("User-Agent"), Some(&"x".to_string()));
    assert_eq!(request.headers.get_user_agent(), Some(&"x".to_string()));
    assert_eq!(request.headers.name_at(0), "user-agent");
}

#[test]
fn request_malformed_header_line_is_passed_over() {
    let request =
        parse_request(b"GET / HTTP/1.1\r\nA: 1\r\nnonsense\r\nB: 2\r\n\r\n").unwrap();
    assert_eq!(request.headers.len(), 2);
    assert_eq!(request.headers.get("a"), Some(&"1".to_string()));
    assert_eq!(request.headers.get("b"), Some(&"2".to_string()));
}

#[test]
fn request_header_values_lose_trailing_white_space_only() {
    let request = parse_request(b"GET / HTTP/1.1\r\nA:   padded \t \r\n\r\n").unwrap();
    assert_eq!(request.headers.get("a"), Some(&"  padded".to_string()));
}

#[test]
fn request_blank_line_hides_later_headers() {
    let request = parse_request(b"GET / HTTP/1.1\r\nA: 1\r\n \r\nB: 2\r\n\r\n").unwrap();
    assert_eq!(request.headers.len(), 1);
    assert_eq!(request.headers.get("b"), None);
}

#[test]
fn request_that_ends_early() {
    for input in [
        &b""[..],
        &b"GET / HTTP/1.1"[..],
        &b"GET / HTTP/1.1\r\n"[..],
        &b"GET / HTTP/1.1\r\nHost: x\r\n"[..],
        &b"GET / HTTP/1.1\r\nHost: x\r\n\r"[..],
        &b"POST / HTTP/1.1\r\nContent-Length: 5\r\n\r\nhell"[..],
        &b"GET / HTTP/1.1\r\nHost: \xff"[..],
    ] {
        assert_eq!(parse_request(input).unwrap_err(), ParseError::UnexpectedEnd);
    }
}

#[test]
fn request_with_bad_first_line() {
    assert_eq!(parse_request(b"GET\r\n\r\n").unwrap_err(), ParseError::MalformedRequestLine);
    assert_eq!(parse_request(b"\r\n\r\n").unwrap_err(), ParseError::MalformedRequestLine);
    assert_eq!(parse_request(b"GET /\n").unwrap_err(), ParseError::MalformedRequestLine);
    assert_eq!(
        parse_request(b"PATCH / HTTP/1.1\r\n\r\n").unwrap_err(),
        ParseError::UnknownMethod
    );
    assert_eq!(parse_request(b"PATCH / HTTP/1.1\n").unwrap_err(), ParseError::UnknownMethod);
}

#[test]
fn request_with_invalid_encoding() {
    assert_eq!(
        parse_request(b"GET /\xff HTTP/1.1\r\n\r\n").unwrap_err(),
        ParseError::InvalidEncoding
    );
    assert_eq!(
        parse_request(b"GET / HTTP/1.1\r\nHost: \xc3\x28\r\n\r\n").unwrap_err(),
        ParseError::InvalidEncoding
    );
    assert_eq!(
        parse_request(b"GET / HTTP/1.1\r\nHost: \xc3\r\n").unwrap_err(),
        ParseError::InvalidEncoding
    );
}

#[test]
fn request_with_non_ascii_text() {
    let request =
        parse_request("GET /echo/\u{e9}t\u{e9} HTTP/1.1\r\nX-N\u{c9}: \u{4f60}\r\n\r\n".as_bytes())
            .unwrap();
    assert_eq!(request.path, "/echo/\u{e9}t\u{e9}");
    assert_eq!(request.headers.get("x-n\u{e9}"), Some(&"\u{4f60}".to_string()));
}

#[test]
fn request_grows_until_complete() {
    let whole = b"POST /files/a HTTP/1.1\r\nContent-Length: 3\r\n\r\nabcXYZ";
    let complete_at = whole.len() - 3;
    let mut n = 0;
    while n < complete_at {
        assert_eq!(parse_request(&whole[..n]).unwrap_err(), ParseError::UnexpectedEnd);
        n += 1;
    }
    while n <= whole.len() {
        let request = parse_request(&whole[..n]).unwrap();
        assert_eq!(request.path, "/files/a");
        assert_eq!(request.body.0, b"abc".to_vec());
        n += 1;
    }
}

#[test]
fn line_ends_after_its_line_feed() {
    assert_eq!(find_line_end(b"ab\ncd\n", 0), Some(3));
    assert_eq!(find_line_end(b"ab\ncd\n", 2), Some(3));
    assert_eq!(find_line_end(b"ab\ncd\n", 3), Some(6));
    assert_eq!(find_line_end(b"ab\ncd\n", 6), None);
    assert_eq!(find_line_end(b"ab\ncd\n", 9), None);
    assert_eq!(find_line_end(b"abc", 0), None);
    assert_eq!(find_line_end(b"", 0), None);
}

#[test]
fn head_terminator() {
    assert!(is_crlf(b"\r\n"));
    assert!(!is_crlf(b""));
    assert!(!is_crlf(b"\n"));
    assert!(!is_crlf(b" \r\n"));
    assert!(!is_crlf(b"\r\n\r\n"));
}

#[test]
fn header_lines_up_to_the_terminator() {
    let input = b"GET / HTTP/1.1\r\nA: 1\r\nB: 2\n\r\nrest";
    assert_eq!(read_header_lines(input, 16), Ok((lines(&["A: 1\r\n", "B: 2\n"]), 29)));
    assert_eq!(read_header_lines(input, 27), Ok((Vec::new(), 29)));
    assert_eq!(read_header_lines(input, 29), Err(ParseError::UnexpectedEnd));
    assert_eq!(read_header_lines(input, 99), Err(ParseError::UnexpectedEnd));
    assert_eq!(read_header_lines(b"\xff\n\r\n", 0), Err(ParseError::InvalidEncoding));
}

#[test]
fn announced_payload_length() {
    let mut headers = Headers::new();
    assert_eq!(body_length(&headers), 0);
    headers.set("Content-Length".to_string(), "17".to_string());
    assert_eq!(body_length(&headers), 17);
    headers.set("Content-Length".to_string(), "seventeen".to_string());
    assert_eq!(body_length(&headers), 0);
}

#[test]
fn lines_are_trimmed_one_by_one() {
    assert_eq!(trim_lines(&lines(&["a \r\n", " b", "\r\n"])), lines(&["a", " b", ""]));
}

#[test]
fn config_directory() {
    let args = lines(&["server"]);
    assert!(Config::accepts(&args));
    assert_eq!(Config::new(&args, "/srv").directory, "/srv/public");
    let args = lines(&["server", "--directory", "/tmp/data"]);
    assert!(Config::accepts(&args));
    assert_eq!(Config::new(&args, "/srv").directory, "/tmp/data");
    let args = lines(&["server", "--directory", "/a", "--verbose", "--directory", "/b"]);
    assert!(Config::accepts(&args));
    assert_eq!(Config::new(&args, "/srv").directory, "/b");
    let args = lines(&["server", "--directory", "--directory"]);
    assert!(Config::accepts(&args));
    assert_eq!(Config::new(&args, "/srv").directory, "--directory");
    assert!(Config::accepts(&Vec::new()));
    assert_eq!(Config::new(&Vec::new(), "").directory, "/public");
}

#[test]
fn config_directory_without_value() {
    assert!(!Config::accepts(&lines(&["server", "--directory"])));
    assert!(!Config::accepts(&lines(&["--directory"])));
    assert!(!Config::accepts(&lines(&["server", "--directory", "/a", "--directory"])));
    assert!(!Config::accepts(&lines(&["--directory", "--directory", "--directory"])));
}

#[test]
fn config_resolves_names_under_the_directory() {
    let config = Config::new(&lines(&["--directory", "/tmp/data"]), "/");
    assert_eq!(config.resolve("foo.txt"), "/tmp/data/foo.txt");
    assert_eq!(config.resolve(""), "/tmp/data/");
    assert_eq!(config.resolve("a/b"), "/tmp/data/a/b");
}
