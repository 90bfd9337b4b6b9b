use static_http::config::{
    Config, DOCUMENT_ROOT_ERROR, DOCUMENT_ROOT_INVALID_FORMAT, THREAD_LIMIT_ERROR,
    THREAD_LIMIT_INVALID_FORMAT,
};

#[test]
fn valid_config_text() {
    let cfg = Config::parse(String::from("thread_limit 8\ndocument_root /var/www/html\n")).unwrap();
    assert_eq!(cfg.thread_count, 8);
    assert_eq!(cfg.dir_root, "/var/www/html");
}

#[test]
fn trimmed_lines_and_plus_sign() {
    let cfg = Config::parse(String::from("  document_root /srv \r\n\tthread_limit +65535\u{3000}")).unwrap();
    assert_eq!(cfg.thread_count, 65535);
    assert_eq!(cfg.dir_root, "/srv");
}

#[test]
fn missing_document_root() {
    let err = Config::parse(String::from("thread_limit 4\n")).unwrap_err();
    assert_eq!(err, DOCUMENT_ROOT_ERROR);
}

#[test]
fn invalid_document_root() {
    let err = Config::parse(String::from("document_root  /a\nthread_limit 4")).unwrap_err();
    assert_eq!(err, DOCUMENT_ROOT_INVALID_FORMAT);
    let err = Config::parse(String::from("document_root\nthread_limit 4")).unwrap_err();
    assert_eq!(err, DOCUMENT_ROOT_INVALID_FORMAT);
}

#[test]
fn missing_thread_limit() {
    let err = Config::parse(String::from("document_root /a\n")).unwrap_err();
    assert_eq!(err, THREAD_LIMIT_ERROR);
}

#[test]
fn invalid_thread_limit() {
    for text in ["document_root /a\nthread_limit four", "document_root /a\nthread_limit 65536",
                 "document_root /a\nthread_limit -1", "document_root /a\nthread_limit +",
                 "document_root /a\nthread_limit 1 2", "document_root /a\nthread_limit 99999999999",
                 "document_root /a\nthread_limit 0", "document_root /a\nthread_limit +000"] {
        let err = Config::parse(String::from(text)).unwrap_err();
        assert_eq!(err, THREAD_LIMIT_INVALID_FORMAT, "{}", text);
    }
}

#[test]
fn first_matching_line_wins() {
    let cfg = Config::parse(String::from("document_root /one\ndocument_root /two\nthread_limit 007")).unwrap();
    assert_eq!(cfg.dir_root, "/one");
    assert_eq!(cfg.thread_count, 7);
}
