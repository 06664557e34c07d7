use http_engine::message::{Method, Request, UrlParts};
use http_engine::uri::request_for_url;

fn b(s: &str) -> Vec<u8> {
    s.as_bytes().to_vec()
}

#[test]
fn https_url_yields_host_default_port_and_target() {
    let (u, req) = request_for_url("https://example.com").unwrap();
    assert_eq!(u.host, b("example.com"));
    assert_eq!(u.port, 443);
    assert_eq!(u.path, b("/"));
    assert_eq!(u.query, None);
    assert_eq!(req.method, Method::Get);
    assert_eq!(req.target, b("/"));
    assert_eq!(req.headers, vec![(b("host"), b("example.com"))]);
    assert!(req.body.is_empty());
}

#[test]
fn explicit_port_path_and_query_carry_over() {
    let (u, req) = request_for_url("http://example.com:8080/a/b?x=1&y=2").unwrap();
    assert_eq!(u.host, b("example.com"));
    assert_eq!(u.port, 8080);
    assert_eq!(u.path, b("/a/b"));
    assert_eq!(u.query, Some(b("x=1&y=2")));
    assert_eq!(req.target, b("/a/b?x=1&y=2"));
}

#[test]
fn target_has_no_trailing_question_mark_without_query() {
    let (_, req) = request_for_url("https://example.com/chunked").unwrap();
    assert_eq!(req.target, b("/chunked"));
}

#[test]
fn unparseable_or_hostless_urls_are_rejected() {
    assert!(request_for_url("not a url").is_none());
    assert!(request_for_url("mailto:someone@example.com").is_none());
}

#[test]
fn get_builds_target_and_host_header_from_parts() {
    let parts = UrlParts {
        host: b("example.com"),
        port: 443,
        path: b("/p"),
        query: Some(b("k=v")),
    };
    let req = Request::get(&parts);
    assert_eq!(req.method, Method::Get);
    assert_eq!(req.target, b("/p?k=v"));
    assert_eq!(req.headers, vec![(b("host"), b("example.com"))]);
    assert!(req.body.is_empty());
}
