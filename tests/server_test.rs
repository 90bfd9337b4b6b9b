use static_http::request::HTTPRequest;
use static_http::response::{HTTPResponse, Status};
use static_http::server::{answer, begin, handle_get, handle_head, handle_request, resolve, Step};

fn header<'a>(resp: &'a HTTPResponse, name: &str) -> Option<&'a str> {
    resp.headers.iter().find(|h| h.0 == name).map(|h| h.1.as_str())
}

fn lookup(raw: &[u8], root: &str) -> (HTTPRequest, String) {
    match begin(raw, root) {
        Step::Lookup(req, full) => (req, full),
        Step::Respond(_) => panic!("Unexpected refusal"),
    }
}

#[test]
fn traversal_gets_400() {
    match begin(b"HEAD /foo/bar/../../ HTTP/1.1\r\n\r\n", "/srv") {
        Step::Respond(resp) => {
            assert_eq!(resp.status, Some(Status::BadRequest));
            assert!(!resp.file);
            assert_eq!(header(&resp, "Server"), Some("Rust (Unix)"));
            assert_eq!(header(&resp, "Connection"), Some("close"));
            assert!(header(&resp, "Date").is_some());
            assert!(resp.head().starts_with("HTTP/1.1 400 Bad Request\r\n"));
        },
        Step::Lookup(..) => panic!("Unexpected OK"),
    }
}

#[test]
fn unknown_method_gets_400() {
    match begin(b"POST / HTTP/1.1\r\n\r\n", "/srv") {
        Step::Respond(resp) => assert_eq!(resp.status, Some(Status::BadRequest)),
        Step::Lookup(..) => panic!("Unexpected OK"),
    }
}

#[test]
fn lookup_path_joins_root() {
    let (req, full) = lookup(b"GET /foo/bar/ HTTP/1.1\r\n\r\n", "/srv/www");
    assert_eq!(full, "/srv/www/foo/bar/index.html");
    assert!(req.isAutoIndex);
    assert_eq!(resolve("/r", "/x"), "/r/x");
}

#[test]
fn get_found_file() {
    let (req, full) = lookup(b"GET /img/cat.png HTTP/1.1\r\n\r\n", "/srv");
    let resp = answer(&req, &full, Some(2048));
    assert_eq!(resp.status, Some(Status::Success));
    assert!(resp.file);
    assert_eq!(header(&resp, "Content-Type"), Some("image/png"));
    assert_eq!(header(&resp, "Content-Length"), Some("2048"));
    assert_eq!(resp.headers.len(), 5);
}

#[test]
fn head_found_file_has_no_body() {
    let (req, full) = lookup(b"HEAD /style.css HTTP/1.1\r\n\r\n", "/srv");
    let resp = answer(&req, &full, Some(10));
    assert_eq!(resp.status, Some(Status::Success));
    assert!(!resp.file);
    assert_eq!(header(&resp, "Content-Type"), Some("text/css"));
    assert_eq!(header(&resp, "Content-Length"), Some("10"));
}

#[test]
fn missing_index_is_forbidden_and_missing_file_not_found() {
    let (req, full) = lookup(b"GET /nothing/ HTTP/1.1\r\n\r\n", "/srv");
    let resp = answer(&req, &full, None);
    assert_eq!(resp.status, Some(Status::Forbidden));
    assert_eq!(header(&resp, "Content-Type"), None);
    let (req, full) = lookup(b"GET /nothing HTTP/1.1\r\n\r\n", "/srv");
    let resp = answer(&req, &full, None);
    assert_eq!(resp.status, Some(Status::NotFound));
    assert!(!resp.file);
    let resp = handle_head("/srv/x/index.html", true, None);
    assert_eq!(resp.status, Some(Status::Forbidden));
    let resp = handle_get("/srv/x", false, None);
    assert_eq!(resp.status, Some(Status::NotFound));
}

#[test]
fn repeated_get_differs_in_date_only() {
    let (req, full) = lookup(b"GET /index.html HTTP/1.1\r\n\r\n", "/srv");
    let a = answer(&req, &full, Some(77));
    let b = answer(&req, &full, Some(77));
    assert_eq!(a.status, b.status);
    assert_eq!(a.file, b.file);
    let without_date = |r: &HTTPResponse| {
        r.headers.iter().filter(|h| h.0 != "Date").cloned().collect::<Vec<_>>()
    };
    assert_eq!(without_date(&a), without_date(&b));
}

#[test]
fn other_method_is_not_allowed() {
    let req = HTTPRequest { method: String::from("PUT"), path: String::from("/a"), isAutoIndex: false };
    let resp = handle_request(&req, "/srv/a", Some(1));
    assert_eq!(resp.status, Some(Status::NotAllowed));
    assert!(resp.headers.is_empty());
}
