use http_engine::HttpError;
use http_engine::bytes::{parse_dec, parse_hex, u64_to_dec};
use http_engine::codec::{parse_header_line, parse_status_line, serialize_request};
use http_engine::message::{Method, Request};

fn b(s: &str) -> Vec<u8> {
    s.as_bytes().to_vec()
}

fn count_subslice(hay: &[u8], needle: &[u8]) -> usize {
    if needle.is_empty() || hay.len() < needle.len() {
        return 0;
    }
    let mut n = 0;
    for i in 0..=(hay.len() - needle.len()) {
        if &hay[i..i + needle.len()] == needle {
            n += 1;
        }
    }
    n
}

#[test]
fn serialize_get_without_body() {
    let req = Request {
        method: Method::Get,
        target: b("/index.html"),
        headers: vec![(b("host"), b("example.com"))],
        body: Vec::new(),
    };
    let out = serialize_request(&req);
    assert_eq!(out, b("GET /index.html HTTP/1.1\r\nhost: example.com\r\n\r\n"));
    assert_eq!(count_subslice(&out, b"content-length"), 0);
}

#[test]
fn serialize_post_inserts_content_length_exactly_once() {
    let req = Request {
        method: Method::Post,
        target: b("/echo"),
        headers: vec![(b("host"), b("example.com"))],
        body: b("name=pippo&age=3"),
    };
    let out = serialize_request(&req);
    assert_eq!(
        out,
        b("POST /echo HTTP/1.1\r\nhost: example.com\r\ncontent-length: 16\r\n\r\nname=pippo&age=3")
    );
    assert_eq!(count_subslice(&out, b"content-length"), 1);
}

#[test]
fn serialize_overwrites_caller_content_length() {
    let req = Request {
        method: Method::Put,
        target: b("/x"),
        headers: vec![
            (b("Content-Length"), b("999")),
            (b("accept"), b("*/*")),
            (b("CONTENT-LENGTH"), b("1")),
        ],
        body: b("ab"),
    };
    let out = serialize_request(&req);
    assert_eq!(
        out,
        b("PUT /x HTTP/1.1\r\naccept: */*\r\ncontent-length: 2\r\n\r\nab")
    );
    assert_eq!(count_subslice(&out, b"ontent-"), 1);
}

#[test]
fn serialize_empty_body_drops_stale_content_length() {
    let req = Request {
        method: Method::Delete,
        target: b("/y"),
        headers: vec![(b("content-length"), b("7"))],
        body: Vec::new(),
    };
    let out = serialize_request(&req);
    assert_eq!(out, b("DELETE /y HTTP/1.1\r\n\r\n"));
}

#[test]
fn method_tokens_are_uppercase_literals() {
    assert_eq!(Method::Get.token(), b("GET"));
    assert_eq!(Method::Head.token(), b("HEAD"));
    assert_eq!(Method::Post.token(), b("POST"));
    assert_eq!(Method::Put.token(), b("PUT"));
    assert_eq!(Method::Patch.token(), b("PATCH"));
    assert_eq!(Method::Delete.token(), b("DELETE"));
    assert_eq!(Method::Options.token(), b("OPTIONS"));
}

#[test]
fn status_line_parses_valid_codes() {
    assert_eq!(parse_status_line(&b("HTTP/1.1 200 OK")), Ok(200));
    assert_eq!(parse_status_line(&b("HTTP/1.1 404 Not Found")), Ok(404));
    assert_eq!(parse_status_line(&b("HTTP/1.0 599")), Ok(599));
    assert_eq!(parse_status_line(&b("  HTTP/1.1   301 moved")), Ok(301));
}

#[test]
fn status_line_rejects_malformed_input() {
    assert_eq!(
        parse_status_line(&b("")),
        Err(HttpError::MalformedStatusLine)
    );
    assert_eq!(
        parse_status_line(&b("HTTP/1.1")),
        Err(HttpError::MalformedStatusLine)
    );
    assert_eq!(
        parse_status_line(&b("HTTP/1.1 abc OK")),
        Err(HttpError::MalformedStatusLine)
    );
    assert_eq!(
        parse_status_line(&b("ICY 200 OK")),
        Err(HttpError::MalformedStatusLine)
    );
    assert_eq!(
        parse_status_line(&b("HTTP/1.1 99 low")),
        Err(HttpError::MalformedStatusLine)
    );
    assert_eq!(
        parse_status_line(&b("HTTP/1.1 600 high")),
        Err(HttpError::MalformedStatusLine)
    );
    assert_eq!(
        parse_status_line(&b("HTTP/1.1 2000 wide")),
        Err(HttpError::MalformedStatusLine)
    );
}

#[test]
fn header_line_splits_on_first_colon_and_trims() {
    assert_eq!(
        parse_header_line(&b("Content-Type: text/html")),
        Ok((b("Content-Type"), b("text/html")))
    );
    assert_eq!(
        parse_header_line(&b("date:  Mon, 01 Jan\t")),
        Ok((b("date"), b("Mon, 01 Jan")))
    );
    assert_eq!(
        parse_header_line(&b("a:b:c")),
        Ok((b("a"), b("b:c")))
    );
    assert_eq!(parse_header_line(&b("empty:")), Ok((b("empty"), b(""))));
}

#[test]
fn header_line_without_colon_is_malformed() {
    assert_eq!(
        parse_header_line(&b("no colon here")),
        Err(HttpError::MalformedHeaderLine)
    );
}

#[test]
fn decimal_and_hex_numerals() {
    assert_eq!(parse_dec(&b("5")), Some(5));
    assert_eq!(parse_dec(&b("007")), Some(7));
    assert_eq!(parse_dec(&b("4294967295")), Some(4294967295));
    assert_eq!(parse_dec(&b("4294967296")), None);
    assert_eq!(parse_dec(&b("")), None);
    assert_eq!(parse_dec(&b("12a")), None);
    assert_eq!(parse_hex(&b("4")), Some(4));
    assert_eq!(parse_hex(&b("1a")), Some(26));
    assert_eq!(parse_hex(&b("FF")), Some(255));
    assert_eq!(parse_hex(&b("zz")), None);
    assert_eq!(parse_hex(&b("")), None);
    assert_eq!(u64_to_dec(0), b("0"));
    assert_eq!(u64_to_dec(16), b("16"));
    assert_eq!(u64_to_dec(1234567890), b("1234567890"));
}
