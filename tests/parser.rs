use request_http_parser::parser::{extract_query_param, Method, ParseError, Request};

#[test]
fn parser() {
    let req_str = format!(
        "POST /login HTTP/1.1\r\n\
            Content-Type: application/json\r\n\
            User-Agent: Test\r\n\
            Content-Length: {}\r\n\
            \r\n\
            {{\"username\": \"{}\",\"password\": \"{}\"}}",
        44, "crisandolin", "rumahorbo"
    );

    let req = Request::new(&req_str).unwrap();

    assert_eq!(Method::POST, req.method);
    assert_eq!("/login", req.path);
}

#[test]
fn method_tokens_construct_their_variant() {
    assert_eq!(Method::try_from("GET"), Ok(Method::GET));
    assert_eq!(Method::try_from("POST"), Ok(Method::POST));
    assert_eq!(Method::try_from("OPTIONS"), Ok(Method::OPTIONS));
}

#[test]
fn other_method_tokens_are_refused() {
    for token in ["get", "Post", "", "PUT", "GETS", " GET"] {
        assert_eq!(Method::try_from(token), Err(ParseError::UnsupportedMethod));
    }
}

#[test]
fn post_login_with_body() {
    let body = "{\"username\": \"crisandolin\",\"password\": \"rumahorbo\"}";
    let raw = format!(
        "POST /login HTTP/1.1\r\nContent-Type: application/json\r\nUser-Agent: Test\r\n\r\n{}",
        body
    );
    let req = Request::new(&raw).unwrap();
    assert_eq!(req.method, Method::POST);
    assert_eq!(req.path, "/login");
    assert!(req.params.is_none());
    assert_eq!(req.body, Some(body.to_string()));
    assert_eq!(
        req.headers.get("content-type"),
        Some(&"application/json".to_string())
    );
    assert_eq!(req.headers.get("user-agent"), Some(&"Test".to_string()));
}

#[test]
fn query_pairs_are_split() {
    let (path, params) = extract_query_param("/search?q=rust&lang=en");
    assert_eq!(path, "/search");
    let params = params.unwrap();
    assert_eq!(params.get("q"), Some(&"rust".to_string()));
    assert_eq!(params.get("lang"), Some(&"en".to_string()));
    assert_eq!(params.get("x"), None);
}

#[test]
fn trailing_question_mark_gives_empty_params() {
    let (path, params) = extract_query_param("/search?");
    assert_eq!(path, "/search");
    assert!(params.unwrap().is_empty());
}

#[test]
fn url_without_query_has_no_params() {
    let (path, params) = extract_query_param("/plain");
    assert_eq!(path, "/plain");
    assert!(params.is_none());
}

#[test]
fn malformed_query_pairs_are_dropped() {
    let (path, params) = extract_query_param("?flag&=v&k=&a=b=c");
    assert_eq!(path, "");
    let params = params.unwrap();
    assert_eq!(params.get("flag"), None);
    assert_eq!(params.get(""), None);
    assert_eq!(params.get("k"), Some(&"".to_string()));
    assert_eq!(params.get("a"), Some(&"b=c".to_string()));
}

#[test]
fn later_query_pair_wins() {
    let (_, params) = extract_query_param("/p?x=1&y=2&x=3");
    let params = params.unwrap();
    assert_eq!(params.get("x"), Some(&"3".to_string()));
    assert_eq!(params.get("y"), Some(&"2".to_string()));
}

#[test]
fn request_line_query_reaches_params() {
    let req = Request::new("GET /search?q=rust HTTP/1.1\r\n\r\n").unwrap();
    assert_eq!(req.method, Method::GET);
    assert_eq!(req.path, "/search");
    assert_eq!(
        req.params.unwrap().get("q"),
        Some(&"rust".to_string())
    );
    assert_eq!(req.body, Some(String::new()));
}

#[test]
fn header_names_are_lower_cased_and_trimmed() {
    let raw = "GET / HTTP/1.1\r\nContent-Type: application/json\r\n  X-Tag :  spaced \t\r\n";
    let req = Request::new(raw).unwrap();
    assert_eq!(
        req.headers.get("content-type"),
        Some(&"application/json".to_string())
    );
    assert_eq!(req.headers.get("Content-Type"), None);
    assert_eq!(req.headers.get("x-tag"), Some(&"spaced".to_string()));
    assert_eq!(req.body, None);
}

#[test]
fn unicode_whitespace_is_trimmed_from_values() {
    let req = Request::new("GET / HTTP/1.1\r\nX-A:\u{a0}v\u{3000}").unwrap();
    assert_eq!(req.headers.get("x-a"), Some(&"v".to_string()));
}

#[test]
fn repeated_header_overrides_earlier() {
    let req = Request::new("GET / HTTP/1.1\r\nHost: a\r\nhost: b\r\n\r\n").unwrap();
    assert_eq!(req.headers.get("host"), Some(&"b".to_string()));
}

#[test]
fn header_value_keeps_later_colons() {
    let req = Request::new("GET / HTTP/1.1\r\nDate: 12:30:45\r\nno colon here\r\n\r\n").unwrap();
    assert_eq!(req.headers.get("date"), Some(&"12:30:45".to_string()));
    assert_eq!(req.headers.get("no colon here"), None);
}

#[test]
fn empty_input_is_empty_request() {
    assert_eq!(Request::new("").err(), Some(ParseError::EmptyRequest));
    assert_eq!(
        Request::new("\r\n\r\nbody").err(),
        Some(ParseError::EmptyRequest)
    );
}

#[test]
fn blank_request_line_is_missing_method() {
    assert_eq!(
        Request::new("   \t ").err(),
        Some(ParseError::MissingMethod { unsupported: false })
    );
}

#[test]
fn unknown_method_is_missing_method() {
    assert_eq!(
        Request::new("get /index HTTP/1.1").err(),
        Some(ParseError::MissingMethod { unsupported: true })
    );
}

#[test]
fn method_without_path_is_missing_path() {
    assert_eq!(Request::new("GET").err(), Some(ParseError::MissingPath));
    assert_eq!(
        Request::new("GET  \r\nHost: x").err(),
        Some(ParseError::MissingPath)
    );
}

#[test]
fn body_is_kept_verbatim() {
    let req = Request::new("OPTIONS * HTTP/1.1\r\n\r\na\r\n\r\nb").unwrap();
    assert_eq!(req.method, Method::OPTIONS);
    assert_eq!(req.path, "*");
    assert_eq!(req.body, Some("a\r\n\r\nb".to_string()));
}

#[test]
fn parsing_twice_gives_equal_requests() {
    let raw = "POST /a?b=c HTTP/1.1\r\nHost: h\r\n\r\nxyz";
    let first = Request::new(raw).unwrap();
    let second = Request::new(raw).unwrap();
    assert_eq!(first.method, second.method);
    assert_eq!(first.path, second.path);
    assert_eq!(first.body, second.body);
    assert_eq!(
        first.params.unwrap().get("b"),
        second.params.unwrap().get("b")
    );
    assert_eq!(first.headers.get("host"), second.headers.get("host"));
}
