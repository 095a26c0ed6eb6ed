use http_crawler::http::parse::set_cookie_header;
use http_crawler::http::{header_has, HttpError, Method, RequestBuilder, Response};
use indexmap::IndexMap;

#[test]
fn parse_response() {
    let input = r#"HTTP/1.1 200 OK
Date: Fri, 31 Dec 1999 23:59:59 GMT
Content-Type: text/plain
Content-Length: 42
some-footer: some-value
another-footer: another-value

abcdefghijklmnopqrstuvwxyz1234567890abcdef"#;

    assert_eq!(
        Response::try_from(input).unwrap(),
        Response {
            code: 200,
            message: "OK".to_string(),
            set_cookies: Vec::new(),
            headers: IndexMap::from([
                (
                    "Date".to_string(),
                    "Fri, 31 Dec 1999 23:59:59 GMT".to_string()
                ),
                ("Content-Type".to_string(), "text/plain".to_string()),
                ("Content-Length".to_string(), "42".to_string()),
                ("some-footer".to_string(), "some-value".to_string()),
                ("another-footer".to_string(), "another-value".to_string()),
            ]),
            body: Some(r#"abcdefghijklmnopqrstuvwxyz1234567890abcdef"#.to_string())
        }
    );
}

#[test]
fn chunked_encoding() {
    let input = r#"HTTP/1.1 200 OK
Date: Fri, 31 Dec 1999 23:59:59 GMT
Content-Type: text/plain
Transfer-Encoding: chunked

1a; ignore-stuff-here
abcdefghijklmnopqrstuvwxyz
10
1234567890abcdef
0
some-footer: some-value
another-footer: another-value"#;

    let response = Response::try_from(input).unwrap();
    assert!(response.is_chunked());

    assert_eq!(
        response,
        Response {
            code: 200,
            message: "OK".to_string(),
            set_cookies: Vec::new(),
            headers: [
                ("Date", "Fri, 31 Dec 1999 23:59:59 GMT"),
                ("Content-Type", "text/plain"),
                ("Transfer-Encoding", "chunked"),
                ("some-footer", "some-value"),
                ("another-footer", "another-value"),
            ]
            .into_iter()
            .map(|(k, v)| (k.to_string(), v.to_string()))
            .collect(),
            body: Some("abcdefghijklmnopqrstuvwxyz1234567890abcdef".to_string()),
        }
    );
}

fn headers_of(pairs: &[(&str, &str)]) -> IndexMap<String, String> {
    pairs.iter().map(|(k, v)| (k.to_string(), v.to_string())).collect()
}

#[test]
fn crlf_lines_and_cookies() {
    let input = "HTTP/1.1 302 Found\r\nSet-Cookie: sessionid=abc123; Path=/\r\nset-cookie: csrftoken =xyz \r\nLocation: /fakebook/\r\nSET-COOKIE: nocookie\r\n\r\n";
    let r = Response::try_from(input).unwrap();
    assert_eq!(r.code, 302);
    assert_eq!(r.message, "Found");
    assert_eq!(r.headers, headers_of(&[("Location", "/fakebook/")]));
    assert_eq!(
        r.set_cookies,
        vec![
            ("sessionid".to_string(), "abc123".to_string()),
            ("csrftoken".to_string(), "xyz".to_string()),
        ]
    );
    assert_eq!(r.body, None);
    assert_eq!(r.cookies(), "sessionid=abc123; csrftoken=xyz");
}

#[test]
fn repeated_cookie_keeps_last_value() {
    let input = "HTTP/1.1 200 OK\nSet-Cookie: a=1\nSet-Cookie: b=2\nSet-Cookie: a=3\n\n";
    let r = Response::try_from(input).unwrap();
    assert_eq!(
        r.set_cookies,
        vec![("a".to_string(), "3".to_string()), ("b".to_string(), "2".to_string())]
    );
    assert_eq!(r.cookies(), "a=3; b=2");
}

#[test]
fn repeated_header_keeps_first_place() {
    let input = "HTTP/1.1 200 OK\nA: 1\nB: 2\nA: 3\n\nbody";
    let r = Response::try_from(input).unwrap();
    let keys: Vec<&String> = r.headers.keys().collect();
    assert_eq!(keys, vec!["A", "B"]);
    assert_eq!(r.headers.get("A").unwrap(), "3");
    assert_eq!(r.body, Some("body".to_string()));
}

#[test]
fn header_value_trailing_whitespace_is_trimmed() {
    let input = "HTTP/1.1 200 OK\nX:   padded value \t \n\n";
    let r = Response::try_from(input).unwrap();
    assert_eq!(r.headers.get("X").unwrap(), "padded value");
}

#[test]
fn malformed_responses_are_refused() {
    let bad = [
        "",
        "HTTP",
        "HTTP/1.0 200 OK\n\n",
        "HTTP/1.1 OK\n\n",
        "HTTP/1.1 200\n\n",
        "HTTP/1.1 200 OK",
        "HTTP/1.1 4294967296 Too big\n\n",
        "HTTP/1.1 200 OK\nA: 1\n",
        "HTTP/1.1 200 OK\nNoColon\n\n",
        "HTTP/1.1 200 OK\nA: 1\nNoColonAtEnd",
        "HTTP/1.1 200 OK\rX\n\n",
        "HTTP/1.1 200 OK\nA: b\rc\n\n",
    ];
    for input in bad {
        assert_eq!(Response::try_from(input), Err(HttpError::MalformedResponse), "{input:?}");
    }
}

#[test]
fn largest_status_code_fits() {
    let r = Response::try_from("HTTP/1.1 4294967295 Max\n\n").unwrap();
    assert_eq!(r.code, 4294967295);
}

#[test]
fn chunk_data_running_past_the_input_is_refused() {
    let input = "HTTP/1.1 200 OK\nTransfer-Encoding: chunked\n\n10\nshort\n0\n";
    assert_eq!(Response::try_from(input), Err(HttpError::MalformedResponse));
}

#[test]
fn chunk_with_extension_after_zero_is_refused() {
    let input = "HTTP/1.1 200 OK\nTransfer-Encoding: chunked\n\n3\nabc\n0; ext\n";
    assert_eq!(Response::try_from(input), Err(HttpError::MalformedResponse));
}

#[test]
fn chunked_without_footers() {
    let input = "HTTP/1.1 200 OK\r\ntransfer-encoding: CHUNKED\r\n\r\n+5\r\nhello\r\n6\r\n world\r\n0";
    let r = Response::try_from(input).unwrap();
    assert!(r.is_chunked());
    assert_eq!(r.body, Some("hello world".to_string()));
}

#[test]
fn chunk_sizes_count_bytes() {
    let input = "HTTP/1.1 200 OK\nTransfer-Encoding: chunked\n\n6\néçà\n2\r\né\r\n0";
    let r = Response::try_from(input).unwrap();
    assert_eq!(r.body, Some("éçàé".to_string()));
}

#[test]
fn chunk_size_inside_a_character_is_refused() {
    let input = "HTTP/1.1 200 OK\nTransfer-Encoding: chunked\n\n1\né\n0";
    assert_eq!(Response::try_from(input), Err(HttpError::MalformedResponse));
}

#[test]
fn content_length_and_pending_body() {
    let r = Response::try_from("HTTP/1.1 200 OK\ncontent-length: 12\n\n").unwrap();
    assert_eq!(r.content_length(), Some(12));
    assert_eq!(r.pending_body_length(), Some(12));

    let r = Response::try_from("HTTP/1.1 200 OK\ncontent-length: +7\n\nabc").unwrap();
    assert_eq!(r.content_length(), Some(7));
    assert_eq!(r.pending_body_length(), Some(4));

    let r = Response::try_from("HTTP/1.1 200 OK\ncontent-length: 3\n\nabc").unwrap();
    assert_eq!(r.pending_body_length(), None);

    let r = Response::try_from("HTTP/1.1 200 OK\ncontent-length: 4\n\né").unwrap();
    assert_eq!(r.pending_body_length(), Some(2));

    let r = Response::try_from("HTTP/1.1 503 Busy\ncontent-length: 12\n\n").unwrap();
    assert_eq!(r.pending_body_length(), None);

    for bad in ["", "+", "-1", "12a", "99999999999999999999999"] {
        let input = format!("HTTP/1.1 200 OK\ncontent-length: {bad}\n\n");
        let r = Response::try_from(input.as_str()).unwrap();
        assert_eq!(r.content_length(), None, "{bad:?}");
        assert_eq!(r.pending_body_length(), None);
    }

    let r = Response::try_from("HTTP/1.1 200 OK\nContent-Length: 12\n\nhello").unwrap();
    assert_eq!(r.content_length(), None);
    assert_eq!(r.pending_body_length(), Some(7));
}

#[test]
fn the_lower_case_length_header_decides() {
    let r = Response::try_from("HTTP/1.1 200 OK\nContent-Length: 5\ncontent-length: 7\n\n").unwrap();
    assert_eq!(r.pending_body_length(), Some(7));
    let r = Response::try_from("HTTP/1.1 200 OK\nContent-Length: 5\nCONTENT-LENGTH: 7\n\n").unwrap();
    assert_eq!(r.pending_body_length(), Some(5));
    let r = Response::try_from("HTTP/1.1 200 OK\nContent-Length: 5\ncontent-length: x\n\n").unwrap();
    assert_eq!(r.pending_body_length(), None);
}

#[test]
fn adding_the_pending_body_completes_the_response() {
    let mut r = Response::try_from("HTTP/1.1 200 OK\nContent-Length: 10\n\nhello").unwrap();
    let missing = r.pending_body_length().unwrap();
    assert_eq!(missing, 5);
    r.add_body(" wrld");
    assert_eq!(r.body, Some("hello wrld".to_string()));
    assert_eq!(r.pending_body_length(), None);

    let mut r = Response::try_from("HTTP/1.1 200 OK\nCONTENT-LENGTH: 2\n\n").unwrap();
    assert_eq!(r.pending_body_length(), Some(2));
    r.add_body("é");
    assert_eq!(r.body, Some("é".to_string()));
    assert_eq!(r.pending_body_length(), None);
}

#[test]
fn set_cookie_header_values() {
    assert_eq!(
        set_cookie_header("sessionid=abc123; Path=/; HttpOnly"),
        Some((
            "; Path=/; HttpOnly".to_string(),
            ("sessionid".to_string(), "abc123".to_string())
        ))
    );
    assert_eq!(
        set_cookie_header("a =b "),
        Some((String::new(), ("a".to_string(), "b".to_string())))
    );
    assert_eq!(set_cookie_header("no cookie here; x"), None);
}

#[test]
fn keep_alive() {
    let r = Response::try_from("HTTP/1.1 200 OK\nconnection: Keep-Alive\n\n").unwrap();
    assert!(r.should_keep_alive());
    let r = Response::try_from("HTTP/1.1 200 OK\nConnection: keep-alive\n\n").unwrap();
    assert!(!r.should_keep_alive());
}

#[test]
fn header_has_tries_the_lower_case_name() {
    let h = headers_of(&[("x-mode", "ON")]);
    assert!(header_has(&h, "X-Mode", "on"));
    assert!(header_has(&h, "x-mode", "On"));
    assert!(!header_has(&h, "X-Mode", "off"));
    assert!(!header_has(&h, "X-Other", "on"));
    let h = headers_of(&[("X-Mode", "on")]);
    assert!(header_has(&h, "X-Mode", "ON"));
    let h1 = IndexMap::from([("transfer-encoding".to_string(), "Chunked".to_string())]);
    let h2 = IndexMap::from([("Transfer-Encoding".to_string(), "gzip, chunked".to_string())]);
    assert!(header_has(&h1, "Transfer-Encoding", "chunked"));
    assert!(!header_has(&h2, "Transfer-Encoding", "chunked"));
}

#[test]
fn lower_case_chunked_header_is_recognised() {
    assert_eq!(
        Response::try_from("HTTP/1.1 200 OK\r\nTransfer-Encoding: chunked\r\n\r\nzz\r\n"),
        Err(HttpError::MalformedResponse)
    );
    assert_eq!(
        Response::try_from("HTTP/1.1 200 OK\r\ntransfer-encoding: Chunked\r\n\r\n5\r\nabc"),
        Err(HttpError::MalformedResponse)
    );
}

#[test]
fn html_body_needs_a_body() {
    let r = Response::try_from("HTTP/1.1 200 OK\n\n").unwrap();
    assert!(matches!(r.html_body(), Err(HttpError::MissingBody)));
    let r = Response::try_from("HTTP/1.1 200 OK\n\n<p>hi</p>").unwrap();
    assert_eq!(r.html_body().unwrap().source(), "<p>hi</p>");
}

#[test]
fn method_names() {
    assert_eq!(Method::Get.to_string(), "GET");
    assert_eq!(Method::Post.to_string(), "POST");
    assert!(matches!(Method::try_from("GET"), Ok(Method::Get)));
    assert!(matches!(Method::try_from(Method::Post.to_string().as_str()), Ok(Method::Post)));
    assert_eq!(
        Method::try_from("get").unwrap_err(),
        "Failed to parse string 'get' for enum Method"
    );
}

#[test]
fn request_serialisation() {
    let r = RequestBuilder::new(Method::Get, "/index.html".to_string())
        .header("Host", "example.com")
        .header("Cookie", "a=1")
        .header("Host", "other.org");
    assert_eq!(
        r.to_string(),
        "GET /index.html HTTP/1.1\r\nHost: other.org\r\nCookie: a=1\r\n\r\n"
    );
}

#[test]
fn form_items_announce_their_length() {
    let r = RequestBuilder::new(Method::Post, "/login".to_string())
        .form_item("user", "bob")
        .form_item("next", "");
    assert_eq!(
        r.to_string(),
        "POST /login HTTP/1.1\r\nContent-Type: application/x-www-form-urlencoded\r\nContent-Length: 14\r\n\r\nuser=bob&next="
    );
}

#[test]
fn form_length_counts_bytes() {
    let r = RequestBuilder::new(Method::Post, "/".to_string()).form_item("name", "é");
    assert_eq!(
        r.to_string(),
        "POST / HTTP/1.1\r\nContent-Type: application/x-www-form-urlencoded\r\nContent-Length: 7\r\n\r\nname=é"
    );
}

#[test]
fn form_keeps_a_content_type_already_set() {
    let r = RequestBuilder::new(Method::Post, "/".to_string())
        .header("Content-Type", "text/plain")
        .header("Content-Length", "999")
        .form_item("a", "b");
    assert_eq!(
        r.to_string(),
        "POST / HTTP/1.1\r\nContent-Type: text/plain\r\nContent-Length: 3\r\n\r\na=b"
    );
}

#[test]
fn announced_length_reads_back() {
    let request = RequestBuilder::new(Method::Post, "/".to_string())
        .form_item("k", "0123456789")
        .to_string();
    let (head, body) = request.split_once("\r\n\r\n").unwrap();
    let announced = head
        .lines()
        .find_map(|l| l.strip_prefix("Content-Length: "))
        .unwrap();
    assert_eq!(announced, body.len().to_string());
    let response_text = format!("HTTP/1.1 200 OK\ncontent-length: {announced}\n\n");
    let response = Response::try_from(response_text.as_str()).unwrap();
    assert_eq!(response.content_length(), Some(body.len()));
}
