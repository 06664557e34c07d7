use http_engine::HttpError;
use http_engine::codec::serialize_request;
use http_engine::connection::{ConnState, Connection};
use http_engine::message::{Method, Request};
use http_engine::transport::MemTransport;

fn b(s: &str) -> Vec<u8> {
    s.as_bytes().to_vec()
}

fn get_request() -> Request {
    Request {
        method: Method::Get,
        target: b("/"),
        headers: vec![(b("host"), b("example.com"))],
        body: Vec::new(),
    }
}

fn connection_for(input: &str) -> Connection<MemTransport> {
    Connection::new(MemTransport::new(b(input)))
}

#[test]
fn fixed_length_body_is_read_exactly() {
    let mut conn = connection_for("HTTP/1.1 200 OK\r\ncontent-length: 5\r\n\r\nHello");
    let resp = conn.send(&get_request()).unwrap();
    assert_eq!(resp.status, 200);
    assert_eq!(resp.headers, vec![(b("content-length"), b("5"))]);
    assert_eq!(resp.body, b("Hello"));
    assert_eq!(conn.state(), ConnState::Idle);
}

#[test]
fn short_fixed_length_body_is_unexpected_eof() {
    let mut conn = connection_for("HTTP/1.1 200 OK\r\ncontent-length: 5\r\n\r\nHel");
    assert_eq!(conn.send(&get_request()), Err(HttpError::UnexpectedEof));
    assert_eq!(conn.state(), ConnState::Closed);
}

#[test]
fn chunked_body_is_reassembled() {
    let mut conn = connection_for(
        "HTTP/1.1 200 OK\r\ntransfer-encoding: chunked\r\n\r\n4\r\nWiki\r\n5\r\npedia\r\n0\r\n\r\n",
    );
    let resp = conn.send(&get_request()).unwrap();
    assert_eq!(resp.body, b("Wikipedia"));
    assert_eq!(conn.state(), ConnState::Idle);
}

#[test]
fn chunk_extensions_and_trailers_are_consumed() {
    let mut conn = connection_for(
        "HTTP/1.1 200 OK\r\ntransfer-encoding: chunked\r\n\r\n4;name=val\r\nWiki\r\n0\r\nx-trailer: 1\r\n\r\n",
    );
    let resp = conn.send(&get_request()).unwrap();
    assert_eq!(resp.body, b("Wiki"));
    assert_eq!(conn.state(), ConnState::Idle);
    assert!(conn.transport().leftover().is_empty());
}

#[test]
fn malformed_chunk_size_closes_the_connection() {
    let mut conn = connection_for(
        "HTTP/1.1 200 OK\r\ntransfer-encoding: chunked\r\n\r\nzz\r\nWiki\r\n0\r\n\r\n",
    );
    assert_eq!(conn.send(&get_request()), Err(HttpError::MalformedChunkFraming));
    assert_eq!(conn.state(), ConnState::Closed);
}

#[test]
fn missing_chunk_delimiter_is_malformed() {
    let mut conn = connection_for(
        "HTTP/1.1 200 OK\r\ntransfer-encoding: chunked\r\n\r\n4\r\nWikiX\r\n0\r\n\r\n",
    );
    assert_eq!(conn.send(&get_request()), Err(HttpError::MalformedChunkFraming));
    assert_eq!(conn.state(), ConnState::Closed);
}

#[test]
fn eof_before_zero_chunk_is_malformed_framing() {
    let mut conn = connection_for(
        "HTTP/1.1 200 OK\r\ntransfer-encoding: chunked\r\n\r\n4\r\nWiki\r\n",
    );
    assert_eq!(conn.send(&get_request()), Err(HttpError::MalformedChunkFraming));
    assert_eq!(conn.state(), ConnState::Closed);
}

#[test]
fn close_delimited_body_reads_to_end_and_closes() {
    let mut conn = connection_for("HTTP/1.1 200 OK\r\n\r\nabc");
    let resp = conn.send(&get_request()).unwrap();
    assert_eq!(resp.body, b("abc"));
    assert_eq!(conn.state(), ConnState::Closed);
}

#[test]
fn keep_alive_allows_two_sequential_sends() {
    let mut conn = connection_for(
        "HTTP/1.1 200 OK\r\ncontent-length: 2\r\n\r\nokHTTP/1.1 201 Created\r\ncontent-length: 3\r\n\r\nyes",
    );
    let first = conn.send(&get_request()).unwrap();
    assert_eq!(first.status, 200);
    assert_eq!(first.body, b("ok"));
    assert_eq!(conn.state(), ConnState::Idle);
    let second = conn.send(&get_request()).unwrap();
    assert_eq!(second.status, 201);
    assert_eq!(second.body, b("yes"));
    assert_eq!(conn.state(), ConnState::Idle);
}

#[test]
fn close_delimited_response_forbids_reuse() {
    let mut conn = connection_for("HTTP/1.1 200 OK\r\n\r\nabc");
    conn.send(&get_request()).unwrap();
    assert_eq!(conn.state(), ConnState::Closed);
    assert_eq!(conn.send(&get_request()), Err(HttpError::ConnectionClosed));
    assert_eq!(conn.state(), ConnState::Closed);
}

#[test]
fn head_response_never_carries_a_body() {
    let mut head_req = get_request();
    head_req.method = Method::Head;
    let mut conn = connection_for("HTTP/1.1 200 OK\r\ncontent-length: 5\r\n\r\n");
    let resp = conn.send(&head_req).unwrap();
    assert_eq!(resp.body, b(""));
    assert_eq!(conn.state(), ConnState::Idle);
}

#[test]
fn no_content_status_reads_no_body_despite_headers() {
    let mut conn = connection_for("HTTP/1.1 204 No Content\r\ncontent-length: 99\r\n\r\n");
    let resp = conn.send(&get_request()).unwrap();
    assert_eq!(resp.status, 204);
    assert_eq!(resp.body, b(""));
    assert_eq!(conn.state(), ConnState::Idle);
}

#[test]
fn the_request_goes_on_the_wire_verbatim() {
    let req = Request {
        method: Method::Post,
        target: b("/echo"),
        headers: vec![(b("host"), b("example.com"))],
        body: b("hi"),
    };
    let mut conn = connection_for("HTTP/1.1 200 OK\r\ncontent-length: 0\r\n\r\n");
    conn.send(&req).unwrap();
    assert_eq!(conn.transport().written_bytes(), &serialize_request(&req));
}

#[test]
fn malformed_status_line_closes_the_connection() {
    let mut conn = connection_for("FTP/1.1 200 OK\r\n\r\n");
    assert_eq!(conn.send(&get_request()), Err(HttpError::MalformedStatusLine));
    assert_eq!(conn.state(), ConnState::Closed);
}

#[test]
fn header_line_without_colon_closes_the_connection() {
    let mut conn = connection_for("HTTP/1.1 200 OK\r\nbroken header line\r\n\r\n");
    assert_eq!(conn.send(&get_request()), Err(HttpError::MalformedHeaderLine));
    assert_eq!(conn.state(), ConnState::Closed);
}

#[test]
fn eof_inside_the_header_block_is_unexpected_eof() {
    let mut conn = connection_for("HTTP/1.1 200 OK\r\ncontent-length: 5\r\n");
    assert_eq!(conn.send(&get_request()), Err(HttpError::UnexpectedEof));
    assert_eq!(conn.state(), ConnState::Closed);
}

#[test]
fn empty_stream_is_unexpected_eof() {
    let mut conn = connection_for("");
    assert_eq!(conn.send(&get_request()), Err(HttpError::UnexpectedEof));
    assert_eq!(conn.state(), ConnState::Closed);
}

#[test]
fn bare_lf_line_endings_are_tolerated() {
    let mut conn = connection_for("HTTP/1.1 200 OK\ncontent-length: 2\n\nok");
    let resp = conn.send(&get_request()).unwrap();
    assert_eq!(resp.status, 200);
    assert_eq!(resp.body, b("ok"));
}

#[test]
fn explicit_close_forbids_further_sends() {
    let mut conn = connection_for("HTTP/1.1 200 OK\r\ncontent-length: 0\r\n\r\n");
    conn.close();
    assert_eq!(conn.state(), ConnState::Closed);
    assert_eq!(conn.send(&get_request()), Err(HttpError::ConnectionClosed));
}

#[test]
fn chunk_sizes_are_hexadecimal() {
    let mut conn = connection_for(
        "HTTP/1.1 200 OK\r\ntransfer-encoding: chunked\r\n\r\nA\r\n0123456789\r\n0\r\n\r\n",
    );
    let resp = conn.send(&get_request()).unwrap();
    assert_eq!(resp.body, b("0123456789"));
}

#[test]
fn oversized_chunk_size_numeral_is_malformed() {
    let mut conn = connection_for(
        "HTTP/1.1 200 OK\r\ntransfer-encoding: chunked\r\n\r\nfffffffff\r\nx\r\n0\r\n\r\n",
    );
    assert_eq!(conn.send(&get_request()), Err(HttpError::MalformedChunkFraming));
    assert_eq!(conn.state(), ConnState::Closed);
}

#[test]
fn leading_zeros_in_chunk_size_are_accepted() {
    let mut conn = connection_for(
        "HTTP/1.1 200 OK\r\ntransfer-encoding: chunked\r\n\r\n004\r\nWiki\r\n0\r\n\r\n",
    );
    let resp = conn.send(&get_request()).unwrap();
    assert_eq!(resp.body, b("Wiki"));
}
