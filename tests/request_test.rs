use static_http::request::HTTPRequest;

#[test]
fn get_method_parse() {
    let raw_http = "GET /foo/bar/ HTTP/1.1".as_bytes();
    match HTTPRequest::parse(raw_http) {
        Ok(req) => assert_eq!(req.method, String::from("GET")),
        Err(()) => panic!("Unexpected Err"),
    }
}

#[test]
fn test_auto_index_true() {
    let raw_http = "GET /foo/bar/ HTTP/1.1".as_bytes();
    match HTTPRequest::parse(raw_http) {
        Ok(req) => assert_eq!(req.isAutoIndex, true),
        Err(()) => panic!("Unexpected Err"),
    }
}

#[test]
fn test_auto_index_false() {
    let raw_http = "GET /foo/bar/kek.html HTTP/1.1".as_bytes();
    match HTTPRequest::parse(raw_http) {
        Ok(req) => assert_eq!(req.isAutoIndex, false),
        Err(()) => panic!("Unexpected Err"),
    }
}

#[test]
fn head_method_parse() {
    let raw_http = "HEAD /foo/bar/ HTTP/1.1".as_bytes();
    match HTTPRequest::parse(raw_http) {
        Ok(req) => assert_eq!(req.method, String::from("HEAD")),
        Err(()) => panic!("Unexpected Err"),
    }
}

#[test]
fn valid_path_parse() {
    let raw_http = "HEAD /foo/bar HTTP/1.1".as_bytes();
    match HTTPRequest::parse(raw_http) {
        Ok(req) => assert_eq!(req.path, String::from("/foo/bar")),
        Err(()) => panic!("Unexpected Err"),
    }
}

#[test]
fn index_valid_path_parse() {
    let raw_http = "HEAD /foo/bar/ HTTP/1.1".as_bytes();
    match HTTPRequest::parse(raw_http) {
        Ok(req) => assert_eq!(req.path, String::from("/foo/bar/index.html")),
        Err(()) => panic!("Unexpected Err"),
    }
}

#[test]
fn with_query_valid_path_parse() {
    let raw_http = "HEAD /foo/bar/kek.html?asdsa HTTP/1.1".as_bytes();
    match HTTPRequest::parse(raw_http) {
        Ok(req) => assert_eq!(req.path, String::from("/foo/bar/kek.html")),
        Err(()) => panic!("Unexpected Err"),
    }
}

#[test]
fn with_space_valid_path_parse() {
    let raw_http = "HEAD /foo/bar/space%20in%20name.html HTTP/1.1".as_bytes();
    match HTTPRequest::parse(raw_http) {
        Ok(req) => assert_eq!(req.path, String::from("/foo/bar/space in name.html")),
        Err(()) => panic!("Unexpected Err"),
    }
}

#[test]
fn with_space_query_valid_path_parse() {
    let raw_http = "HEAD /foo/bar/space%20in%20name.html?l&=1 HTTP/1.1".as_bytes();
    match HTTPRequest::parse(raw_http) {
        Ok(req) => assert_eq!(req.path, String::from("/foo/bar/space in name.html")),
        Err(()) => panic!("Unexpected Err"),
    }
}

#[test]
fn url_encode_valid_path_parse() {
    let raw_http = "HEAD /foo/bar/%70%61%67%65%2e%68%74%6d%6c HTTP/1.1".as_bytes();
    match HTTPRequest::parse(raw_http) {
        Ok(req) => assert_eq!(req.path, String::from("/foo/bar/page.html")),
        Err(()) => panic!("Unexpected Err"),
    }
}

#[test]
fn url_encode_query_valid_path_parse() {
    let raw_http = "HEAD /foo/bar/%70%61%67%65%2e%68%74%6d%6c?asd=1&asd HTTP/1.1".as_bytes();
    match HTTPRequest::parse(raw_http) {
        Ok(req) => assert_eq!(req.path, String::from("/foo/bar/page.html")),
        Err(()) => panic!("Unexpected Err"),
    }
}

#[test]
fn file_with_dot_valid_path_parse() {
    let raw_http = "HEAD /foo/bar/index..html HTTP/1.1".as_bytes();
    match HTTPRequest::parse(raw_http) {
        Ok(req) => assert_eq!(req.path, String::from("/foo/bar/index..html")),
        Err(()) => panic!("Unexpected Err"),
    }
}

#[test]
fn not_valid_method_parse() {
    let raw_http = "POST /foo/bar/ HTTP/1.1".as_bytes();
    if HTTPRequest::parse(raw_http).is_ok() {
        panic!("Unexpected OK");
    }
}

#[test]
fn dot_escape_not_valid_path_parse() {
    let raw_http = "HEAD /foo/bar/../../ HTTP/1.1".as_bytes();
    if HTTPRequest::parse(raw_http).is_ok() {
        panic!("Unexpected OK");
    }
}

#[test]
fn request_line_ends_at_crlf() {
    let raw = "GET /a.css HTTP/1.1\r\nHost: x\r\n\r\n".as_bytes();
    let req = HTTPRequest::parse(raw).unwrap();
    assert_eq!(req.method, "GET");
    assert_eq!(req.path, "/a.css");
    assert!(!req.isAutoIndex);
}

#[test]
fn empty_request_line_is_refused() {
    assert!(HTTPRequest::parse(b"").is_err());
    assert!(HTTPRequest::parse(b"\r\nGET / HTTP/1.1").is_err());
}

#[test]
fn two_tokens_are_refused() {
    assert!(HTTPRequest::parse(b"GET /foo/bar/").is_err());
}

#[test]
fn lower_case_method_is_refused() {
    assert!(HTTPRequest::parse(b"get /foo HTTP/1.1").is_err());
}

#[test]
fn traversal_in_query_is_not_checked() {
    let req = HTTPRequest::parse(b"GET /a.html?x=/.. HTTP/1.1").unwrap();
    assert_eq!(req.path, "/a.html");
}

#[test]
fn encoded_traversal_passes_the_guard() {
    let req = HTTPRequest::parse(b"GET /foo/%2e%2e/secret HTTP/1.1").unwrap();
    assert_eq!(req.path, "/foo/../secret");
    assert!(!req.isAutoIndex);
}

#[test]
fn traversal_at_end_is_refused() {
    assert!(HTTPRequest::parse(b"GET /foo/.. HTTP/1.1").is_err());
}

#[test]
fn encoded_slash_asks_for_index() {
    let req = HTTPRequest::parse(b"GET /foo%2F HTTP/1.1").unwrap();
    assert_eq!(req.path, "/foo/index.html");
    assert!(req.isAutoIndex);
}

#[test]
fn empty_target_asks_for_index() {
    let req = HTTPRequest::parse(b"GET  HTTP/1.1").unwrap();
    assert_eq!(req.path, "index.html");
    assert!(req.isAutoIndex);
}

#[test]
fn bad_escape_is_kept() {
    let req = HTTPRequest::parse(b"GET /a%zz%4 HTTP/1.1").unwrap();
    assert_eq!(req.path, "/a%zz%4");
}

#[test]
fn non_utf8_decoded_path_is_refused() {
    assert!(HTTPRequest::parse(b"GET /a%ff HTTP/1.1").is_err());
}

#[test]
fn multibyte_path_decodes() {
    let req = HTTPRequest::parse(b"GET /caf%C3%A9.html HTTP/1.1").unwrap();
    assert_eq!(req.path, "/caf\u{e9}.html");
}

#[test]
fn new_request_is_empty() {
    let req = HTTPRequest::new();
    assert_eq!(req.method, "");
    assert_eq!(req.path, "");
    assert!(!req.isAutoIndex);
}

#[test]
fn parse_path_direct() {
    let (p, auto) = static_http::request::parsePath(b"/x/y/?q").unwrap();
    assert_eq!(p, "/x/y/index.html");
    assert!(auto);
    assert!(static_http::request::parsePath(b"/x/../y").is_err());
}
