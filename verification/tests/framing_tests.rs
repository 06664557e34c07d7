use http_engine::framing::{classify, Framing};
use http_engine::message::Method;

fn b(s: &str) -> Vec<u8> {
    s.as_bytes().to_vec()
}

fn h(pairs: &[(&str, &str)]) -> Vec<(Vec<u8>, Vec<u8>)> {
    pairs.iter().map(|(n, v)| (b(n), b(v))).collect()
}

#[test]
fn head_suppresses_body_whatever_the_headers_say() {
    let hs = h(&[("content-length", "5"), ("transfer-encoding", "chunked")]);
    assert_eq!(classify(Method::Head, 200, &hs), Framing::NoBody);
}

#[test]
fn no_content_statuses_suppress_body() {
    let hs = h(&[("content-length", "10")]);
    assert_eq!(classify(Method::Get, 204, &hs), Framing::NoBody);
    assert_eq!(classify(Method::Get, 304, &hs), Framing::NoBody);
    assert_eq!(classify(Method::Get, 100, &hs), Framing::NoBody);
    assert_eq!(classify(Method::Get, 101, &hs), Framing::NoBody);
    assert_eq!(classify(Method::Get, 199, &hs), Framing::NoBody);
    assert_eq!(classify(Method::Get, 200, &hs), Framing::Fixed(10));
}

#[test]
fn chunked_takes_precedence_over_content_length() {
    let hs = h(&[("content-length", "5"), ("transfer-encoding", "chunked")]);
    assert_eq!(classify(Method::Get, 200, &hs), Framing::Chunked);
}

#[test]
fn chunked_is_case_insensitive_and_trimmed() {
    let hs = h(&[("Transfer-Encoding", "  Chunked ")]);
    assert_eq!(classify(Method::Get, 200, &hs), Framing::Chunked);
}

#[test]
fn only_the_last_encoding_of_a_list_counts() {
    let gz_then_chunked = h(&[("transfer-encoding", "gzip, chunked")]);
    assert_eq!(classify(Method::Get, 200, &gz_then_chunked), Framing::Chunked);
    let chunked_then_gz = h(&[("transfer-encoding", "chunked, gzip")]);
    assert_eq!(classify(Method::Get, 200, &chunked_then_gz), Framing::Close);
}

#[test]
fn fixed_length_from_content_length() {
    assert_eq!(
        classify(Method::Get, 200, &h(&[("Content-Length", "5")])),
        Framing::Fixed(5)
    );
    assert_eq!(
        classify(Method::Post, 201, &h(&[("CONTENT-LENGTH", "0")])),
        Framing::Fixed(0)
    );
}

#[test]
fn last_duplicate_header_wins() {
    let hs = h(&[("content-length", "5"), ("content-length", "9")]);
    assert_eq!(classify(Method::Get, 200, &hs), Framing::Fixed(9));
    let te = h(&[
        ("transfer-encoding", "chunked"),
        ("transfer-encoding", "identity"),
    ]);
    assert_eq!(classify(Method::Get, 200, &te), Framing::Close);
}

#[test]
fn unparseable_content_length_falls_back_to_close() {
    assert_eq!(
        classify(Method::Get, 200, &h(&[("content-length", "five")])),
        Framing::Close
    );
    assert_eq!(
        classify(Method::Get, 200, &h(&[("content-length", "")])),
        Framing::Close
    );
}

#[test]
fn neither_header_means_close_delimited() {
    assert_eq!(classify(Method::Get, 200, &h(&[])), Framing::Close);
    assert_eq!(
        classify(Method::Get, 200, &h(&[("content-type", "text/plain")])),
        Framing::Close
    );
}
