use static_http::response::{get_content_type_by_ext, HTTPResponse, Status};

fn header<'a>(resp: &'a HTTPResponse, name: &str) -> Option<&'a str> {
    resp.headers.iter().find(|h| h.0 == name).map(|h| h.1.as_str())
}

#[test]
fn content_types_by_extension() {
    assert_eq!(get_content_type_by_ext("html"), "text/html");
    assert_eq!(get_content_type_by_ext("css"), "text/css");
    assert_eq!(get_content_type_by_ext("js"), "application/javascript");
    assert_eq!(get_content_type_by_ext("jpg"), "image/jpeg");
    assert_eq!(get_content_type_by_ext("jpeg"), "image/jpeg");
    assert_eq!(get_content_type_by_ext("png"), "image/png");
    assert_eq!(get_content_type_by_ext("gif"), "image/gif");
    assert_eq!(get_content_type_by_ext("swf"), "application/x-shockwave-flash");
    assert_eq!(get_content_type_by_ext("txt"), "application/chiki_briki");
    assert_eq!(get_content_type_by_ext(""), "application/chiki_briki");
    assert_eq!(get_content_type_by_ext("HTML"), "application/chiki_briki");
}

#[test]
fn content_type_from_path() {
    let mut resp = HTTPResponse::new();
    resp.setContentType("/var/www/a.b/page.css");
    assert_eq!(header(&resp, "Content-Type"), Some("text/css"));
    resp.setContentType("/var/www.d/README");
    assert_eq!(header(&resp, "Content-Type"), Some("application/chiki_briki"));
    resp.setContentType("/var/www/.png");
    assert_eq!(header(&resp, "Content-Type"), Some("application/chiki_briki"));
    resp.setContentType("/var/www/x.tar.gif");
    assert_eq!(header(&resp, "Content-Type"), Some("image/gif"));
    assert_eq!(resp.headers.len(), 1);
}

#[test]
fn content_length_is_decimal() {
    let mut resp = HTTPResponse::new();
    resp.setContentLength(1234);
    assert_eq!(header(&resp, "Content-Length"), Some("1234"));
    resp.setContentLength(0);
    assert_eq!(header(&resp, "Content-Length"), Some("0"));
    resp.setContentLength(u64::MAX);
    assert_eq!(header(&resp, "Content-Length"), Some("18446744073709551615"));
    assert_eq!(resp.headers.len(), 1);
}

#[test]
fn push_header_replaces_same_name() {
    let mut resp = HTTPResponse::new();
    resp.push_header(String::from("A"), String::from("1"));
    resp.push_header(String::from("B"), String::from("2"));
    resp.push_header(String::from("A"), String::from("3"));
    assert_eq!(resp.headers.len(), 2);
    assert_eq!(header(&resp, "A"), Some("3"));
    assert_eq!(header(&resp, "B"), Some("2"));
}

#[test]
fn status_setters() {
    let mut resp = HTTPResponse::new();
    resp.setOk(true);
    assert_eq!(resp.status, Some(Status::Success));
    assert!(resp.file);
    resp.setNotFound();
    assert_eq!(resp.status, Some(Status::NotFound));
    assert!(!resp.file);
    resp.setBadRequest();
    assert_eq!(resp.status.unwrap().text(), "400 Bad Request");
    resp.set403();
    assert_eq!(resp.status.unwrap().text(), "403 Forbidden");
    resp.setNotAllowed();
    assert_eq!(resp.status.unwrap().text(), "405 Not Allowed");
    resp.setOk(false);
    assert_eq!(resp.status.unwrap().text(), "200 OK");
    assert_eq!(Status::NotFound.text(), "404 Not Found");
}

#[test]
fn head_text_layout() {
    let mut resp = HTTPResponse::new();
    resp.setOk(false);
    resp.setServer("Rust (Unix)");
    resp.setConnection("close");
    assert_eq!(
        resp.head(),
        "HTTP/1.1 200 OK\r\nServer: Rust (Unix)\r\nConnection: close\r\n\r\n"
    );
}

#[test]
fn date_header_shape() {
    let mut resp = HTTPResponse::new();
    resp.setDate();
    let date = header(&resp, "Date").unwrap();
    assert_eq!(date.len(), 29);
    assert!(date.ends_with(" GMT"));
    assert_eq!(&date[3..5], ", ");
    assert!(["Sun", "Mon", "Tue", "Wed", "Thu", "Fri", "Sat"].contains(&&date[0..3]));
    assert!(["Jan", "Feb", "Mar", "Apr", "May", "Jun", "Jul", "Aug", "Sep", "Oct", "Nov", "Dec"]
        .contains(&&date[8..11]));
    assert!(date[12..16].chars().all(|c| c.is_ascii_digit()));
    assert_eq!(&date[19..20], ":");
}
