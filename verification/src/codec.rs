//! The wire codec: serializing a request into bytes, and parsing status
//! lines and header lines. The byte-exact form of every message is given
//! by spec functions; the executable codec is proved to produce or parse
//! exactly that form.

use vstd::prelude::*;
use crate::HttpError;
use crate::bytes::{
    CR, LF, SP, HTAB, COLON, is_ws, is_digit, first_pos, line_of, after_line, strip_cr,
    ws_prefix_len, ws_suffix_len, token_len, lower_seq, trim_spec, trim, sub_vec, find_first,
    dec_of, dec_value, u64_to_dec, lemma_ws_prefix, lemma_ws_suffix, lemma_ws_prefix_at,
    lemma_ws_suffix_at, lemma_token_len_at, lemma_first_pos_at,
};
use crate::message::{
    Method, method_token, Request, hview, lemma_hview_index, token_safe, name_safe, value_safe,
    request_wf,
};

verus! {

pub open spec fn crlf() -> Seq<u8> {
    seq![CR, LF]
}

/// The bytes of the header name `content-length`.
pub open spec fn cl_name() -> Seq<u8> {
    seq![
        99u8, 111u8, 110u8, 116u8, 101u8, 110u8, 116u8, 45u8, 108u8, 101u8, 110u8, 103u8,
        116u8, 104u8,
    ]
}

/// The bytes of the protocol token `HTTP/1.1`.
pub open spec fn http11() -> Seq<u8> {
    seq![72u8, 84u8, 84u8, 80u8, 47u8, 49u8, 46u8, 49u8]
}

/// Builds the header name `content-length`.
pub fn cl_name_vec() -> (r: Vec<u8>)
    ensures
        r@ == cl_name(),
{
    let mut v: Vec<u8> = Vec::new();
    v.push(99);
    v.push(111);
    v.push(110);
    v.push(116);
    v.push(101);
    v.push(110);
    v.push(116);
    v.push(45);
    v.push(108);
    v.push(101);
    v.push(110);
    v.push(103);
    v.push(116);
    v.push(104);
    proof {
        assert(v@ =~= cl_name());
    }
    v
}

/// `content-length` is already lowercase, so case folding leaves it alone.
pub proof fn lemma_cl_name_lower()
    ensures
        lower_seq(cl_name()) == cl_name(),
{
    assert forall|i: int| 0 <= i < lower_seq(cl_name()).len() implies lower_seq(cl_name())[i]
        == cl_name()[i] by {
        assert(cl_name()[0] == 99);
        assert(cl_name()[1] == 111);
        assert(cl_name()[2] == 110);
        assert(cl_name()[3] == 116);
        assert(cl_name()[4] == 101);
        assert(cl_name()[5] == 110);
        assert(cl_name()[6] == 116);
        assert(cl_name()[7] == 45);
        assert(cl_name()[8] == 108);
        assert(cl_name()[9] == 101);
        assert(cl_name()[10] == 110);
        assert(cl_name()[11] == 103);
        assert(cl_name()[12] == 116);
        assert(cl_name()[13] == 104);
    };
    assert(lower_seq(cl_name()) =~= cl_name());
}

// ---------------------------------------------------------------------------
// Serialization
// ---------------------------------------------------------------------------

/// `METHOD SP target SP HTTP/1.1 CRLF`.
pub open spec fn request_line_bytes(m: Method, target: Seq<u8>) -> Seq<u8> {
    method_token(m) + seq![SP] + target + seq![SP] + http11() + crlf()
}

/// `name: value CRLF`.
pub open spec fn header_line_bytes(n: Seq<u8>, v: Seq<u8>) -> Seq<u8> {
    n + seq![COLON, SP] + v + crlf()
}

/// The header lines of `hs` in order, without the terminating blank line.
pub open spec fn header_block_bytes(hs: Seq<(Seq<u8>, Seq<u8>)>) -> Seq<u8>
    decreases hs.len(),
{
    if hs.len() == 0 {
        Seq::empty()
    } else {
        header_line_bytes(hs[0].0, hs[0].1) + header_block_bytes(hs.skip(1))
    }
}

/// The caller's headers with every `content-length` (case-insensitive)
/// removed; the codec alone decides that header.
pub open spec fn keep_non_cl(hs: Seq<(Seq<u8>, Seq<u8>)>) -> Seq<(Seq<u8>, Seq<u8>)>
    decreases hs.len(),
{
    if hs.len() == 0 {
        Seq::empty()
    } else if lower_seq(hs[0].0) == cl_name() {
        keep_non_cl(hs.skip(1))
    } else {
        seq![hs[0]] + keep_non_cl(hs.skip(1))
    }
}

/// The headers as serialized: the caller's headers, `content-length`
/// removed, then — for a non-empty body — one `content-length` holding the
/// body's exact byte length.
pub open spec fn wire_headers(r: Request) -> Seq<(Seq<u8>, Seq<u8>)> {
    keep_non_cl(hview(r.headers@)) + if r.body@.len() > 0 {
        seq![(cl_name(), dec_of(r.body@.len() as int))]
    } else {
        Seq::empty()
    }
}

/// The full serialized request: request line, header lines in order, a
/// blank line, then the raw body bytes.
pub open spec fn request_bytes(r: Request) -> Seq<u8> {
    request_line_bytes(r.method, r.target@) + header_block_bytes(wire_headers(r)) + crlf()
        + r.body@
}

pub proof fn lemma_keep_non_cl_snoc(hs: Seq<(Seq<u8>, Seq<u8>)>, p: (Seq<u8>, Seq<u8>))
    ensures
        keep_non_cl(hs.push(p)) == keep_non_cl(hs) + if lower_seq(p.0) == cl_name() {
            Seq::<(Seq<u8>, Seq<u8>)>::empty()
        } else {
            seq![p]
        },
    decreases hs.len(),
{
    if hs.len() == 0 {
        reveal_with_fuel(keep_non_cl, 2);
        assert(hs.push(p)[0] == p);
        assert(hs.push(p).skip(1) =~= Seq::<(Seq<u8>, Seq<u8>)>::empty());
        assert(keep_non_cl(hs.push(p)) =~= keep_non_cl(hs) + if lower_seq(p.0) == cl_name() {
            Seq::<(Seq<u8>, Seq<u8>)>::empty()
        } else {
            seq![p]
        });
    } else {
        assert(hs.push(p)[0] == hs[0]);
        assert(hs.push(p).skip(1) =~= hs.skip(1).push(p));
        lemma_keep_non_cl_snoc(hs.skip(1), p);
        assert(keep_non_cl(hs.push(p)) =~= keep_non_cl(hs) + if lower_seq(p.0) == cl_name() {
            Seq::<(Seq<u8>, Seq<u8>)>::empty()
        } else {
            seq![p]
        });
    }
}

pub proof fn lemma_block_snoc(hs: Seq<(Seq<u8>, Seq<u8>)>, p: (Seq<u8>, Seq<u8>))
    ensures
        header_block_bytes(hs.push(p)) == header_block_bytes(hs)
            + header_line_bytes(p.0, p.1),
    decreases hs.len(),
{
    if hs.len() == 0 {
        reveal_with_fuel(header_block_bytes, 2);
        assert(hs.push(p)[0] == p);
        assert(hs.push(p).skip(1) =~= Seq::<(Seq<u8>, Seq<u8>)>::empty());
        assert(header_block_bytes(hs.push(p)) =~= header_block_bytes(hs)
            + header_line_bytes(p.0, p.1));
    } else {
        assert(hs.push(p)[0] == hs[0]);
        assert(hs.push(p).skip(1) =~= hs.skip(1).push(p));
        lemma_block_snoc(hs.skip(1), p);
        assert(header_block_bytes(hs.push(p)) =~= header_block_bytes(hs)
            + header_line_bytes(p.0, p.1));
    }
}

/// Serializes a request to its exact wire form.
pub fn serialize_request(req: &Request) -> (out: Vec<u8>)
    ensures
        out@ == request_bytes(*req),
{
    let mut out: Vec<u8> = Vec::new();
    let mut tok = req.method.token();
    out.append(&mut tok);
    out.push(SP);
    let mut tgt = crate::message::copy_bytes(&req.target);
    out.append(&mut tgt);
    out.push(SP);
    out.push(72);
    out.push(84);
    out.push(84);
    out.push(80);
    out.push(47);
    out.push(49);
    out.push(46);
    out.push(49);
    out.push(CR);
    out.push(LF);
    proof {
        assert(out@ =~= request_line_bytes(req.method, req.target@));
    }
    let ghost reqline = out@;
    // caller headers, content-length withheld
    let cl = cl_name_vec();
    let n = req.headers.len();
    let mut i: usize = 0;
    proof {
        lemma_cl_name_lower();
        assert(hview(req.headers@.take(0)) =~= Seq::<(Seq<u8>, Seq<u8>)>::empty());
    }
    while i < n
        invariant
            0 <= i <= n == req.headers@.len(),
            cl@ == cl_name(),
            out@ == reqline + header_block_bytes(keep_non_cl(hview(req.headers@.take(i as int)))),
        decreases n - i,
    {
        proof {
            lemma_cl_name_lower();
            assert(hview(req.headers@.take(i + 1)) =~= hview(req.headers@.take(i as int)).push(
                (req.headers@[i as int].0@, req.headers@[i as int].1@),
            ));
            lemma_keep_non_cl_snoc(
                hview(req.headers@.take(i as int)),
                (req.headers@[i as int].0@, req.headers@[i as int].1@),
            );
        }
        if !crate::bytes::eq_ignore_case(&req.headers[i].0, &cl) {
            let ghost before = out@;
            let mut nm = crate::message::copy_bytes(&req.headers[i].0);
            out.append(&mut nm);
            out.push(COLON);
            out.push(SP);
            let mut vl = crate::message::copy_bytes(&req.headers[i].1);
            out.append(&mut vl);
            out.push(CR);
            out.push(LF);
            proof {
                assert(out@ =~= before + header_line_bytes(
                    req.headers@[i as int].0@,
                    req.headers@[i as int].1@,
                ));
                lemma_block_snoc(
                    keep_non_cl(hview(req.headers@.take(i as int))),
                    (req.headers@[i as int].0@, req.headers@[i as int].1@),
                );
                assert(keep_non_cl(hview(req.headers@.take(i + 1)))
                    =~= keep_non_cl(hview(req.headers@.take(i as int))).push(
                        (req.headers@[i as int].0@, req.headers@[i as int].1@),
                    ));
            }
        }
        i += 1;
    }
    proof {
        assert(req.headers@.take(n as int) =~= req.headers@);
    }
    // the codec's own content-length, for a non-empty body
    if req.body.len() > 0 {
        let ghost before = out@;
        let mut nm = cl_name_vec();
        out.append(&mut nm);
        out.push(COLON);
        out.push(SP);
        let mut digits = u64_to_dec(req.body.len() as u64);
        out.append(&mut digits);
        out.push(CR);
        out.push(LF);
        proof {
            assert(out@ =~= before + header_line_bytes(cl_name(), dec_of(req.body@.len() as int)));
            lemma_block_snoc(
                keep_non_cl(hview(req.headers@)),
                (cl_name(), dec_of(req.body@.len() as int)),
            );
            assert(wire_headers(*req) =~= keep_non_cl(hview(req.headers@)).push(
                (cl_name(), dec_of(req.body@.len() as int)),
            ));
        }
    } else {
        proof {
            assert(wire_headers(*req) =~= keep_non_cl(hview(req.headers@)));
        }
    }
    out.push(CR);
    out.push(LF);
    let mut body = crate::message::copy_bytes(&req.body);
    out.append(&mut body);
    proof {
        assert(out@ =~= request_bytes(*req));
    }
    out
}

// ---------------------------------------------------------------------------
// Status line
// ---------------------------------------------------------------------------

pub open spec fn tok1_start(l: Seq<u8>) -> int {
    ws_prefix_len(l)
}

pub open spec fn tok1_end(l: Seq<u8>) -> int {
    tok1_start(l) + token_len(l.skip(tok1_start(l)))
}

pub open spec fn tok2_start(l: Seq<u8>) -> int {
    tok1_end(l) + ws_prefix_len(l.skip(tok1_end(l)))
}

pub open spec fn tok2_end(l: Seq<u8>) -> int {
    tok2_start(l) + token_len(l.skip(tok2_start(l)))
}

/// The protocol token must start with `HTTP/`.
pub open spec fn is_protocol_token(t: Seq<u8>) -> bool {
    t.len() >= 5 && t[0] == 72 && t[1] == 84 && t[2] == 84 && t[3] == 80 && t[4] == 47
}

pub open spec fn status_val(t: Seq<u8>) -> int {
    (t[0] - 48) * 100 + (t[1] - 48) * 10 + (t[2] - 48)
}

/// The status token must be three digits reading as a code in [100, 599].
pub open spec fn is_status_token(t: Seq<u8>) -> bool {
    t.len() == 3 && is_digit(t[0]) && is_digit(t[1]) && is_digit(t[2]) && 100 <= status_val(t)
        <= 599
}

/// Splitting the status line on whitespace: the first token is the
/// protocol, the second the status code; anything further is ignored.
pub open spec fn parse_status_spec(l: Seq<u8>) -> Option<u16> {
    let t0 = l.subrange(tok1_start(l), tok1_end(l));
    let t1 = l.subrange(tok2_start(l), tok2_end(l));
    if is_protocol_token(t0) && is_status_token(t1) {
        Some(status_val(t1) as u16)
    } else {
        None
    }
}

/// Parses one status line; a missing token, a protocol token not starting
/// `HTTP/`, or a status token that is not a valid three-digit code in
/// range is a recoverable `MalformedStatusLine`.
pub fn parse_status_line(line: &Vec<u8>) -> (r: Result<u16, HttpError>)
    ensures
        match r {
            Ok(s) => parse_status_spec(line@) == Some(s),
            Err(e) => parse_status_spec(line@) is None && e == HttpError::MalformedStatusLine,
        },
{
    let n = line.len();
    let mut i: usize = 0;
    while i < n && (line[i] == SP || line[i] == HTAB)
        invariant
            0 <= i <= n == line@.len(),
            forall|j: int| 0 <= j < i ==> is_ws(line@[j]),
        decreases n - i,
    {
        i += 1;
    }
    proof {
        lemma_ws_prefix_at(line@, i as int);
    }
    let t0s = i;
    while i < n && !(line[i] == SP || line[i] == HTAB)
        invariant
            t0s <= i <= n == line@.len(),
            forall|j: int| t0s <= j < i ==> !is_ws(line@[j]),
        decreases n - i,
    {
        i += 1;
    }
    proof {
        assert forall|j: int| 0 <= j < i - t0s implies !is_ws(line@.skip(t0s as int)[j]) by {
            assert(line@.skip(t0s as int)[j] == line@[t0s + j]);
        };
        if (i as int) - (t0s as int) < line@.skip(t0s as int).len() {
            assert(line@.skip(t0s as int)[i - t0s] == line@[i as int]);
        }
        lemma_token_len_at(line@.skip(t0s as int), i - t0s);
    }
    let t0e = i;
    let ok0 = t0e - t0s >= 5 && line[t0s] == 72 && line[t0s + 1] == 84 && line[t0s + 2] == 84
        && line[t0s + 3] == 80 && line[t0s + 4] == 47;
    proof {
        let t0 = line@.subrange(t0s as int, t0e as int);
        assert(ok0 == is_protocol_token(t0));
    }
    while i < n && (line[i] == SP || line[i] == HTAB)
        invariant
            t0e <= i <= n == line@.len(),
            forall|j: int| t0e <= j < i ==> is_ws(line@[j]),
        decreases n - i,
    {
        i += 1;
    }
    proof {
        assert forall|j: int| 0 <= j < i - t0e implies is_ws(line@.skip(t0e as int)[j]) by {
            assert(line@.skip(t0e as int)[j] == line@[t0e + j]);
        };
        if (i as int) - (t0e as int) < line@.skip(t0e as int).len() {
            assert(line@.skip(t0e as int)[i - t0e] == line@[i as int]);
        }
        lemma_ws_prefix_at(line@.skip(t0e as int), i - t0e);
    }
    let t1s = i;
    while i < n && !(line[i] == SP || line[i] == HTAB)
        invariant
            t1s <= i <= n == line@.len(),
            forall|j: int| t1s <= j < i ==> !is_ws(line@[j]),
        decreases n - i,
    {
        i += 1;
    }
    proof {
        assert forall|j: int| 0 <= j < i - t1s implies !is_ws(line@.skip(t1s as int)[j]) by {
            assert(line@.skip(t1s as int)[j] == line@[t1s + j]);
        };
        if (i as int) - (t1s as int) < line@.skip(t1s as int).len() {
            assert(line@.skip(t1s as int)[i - t1s] == line@[i as int]);
        }
        lemma_token_len_at(line@.skip(t1s as int), i - t1s);
    }
    let t1e = i;
    proof {
        assert(tok2_start(line@) == t1s);
        assert(tok2_end(line@) == t1e);
    }
    if !ok0 {
        return Err(HttpError::MalformedStatusLine);
    }
    if !(t1e - t1s == 3 && 48 <= line[t1s] && line[t1s] <= 57 && 48 <= line[t1s + 1]
        && line[t1s + 1] <= 57 && 48 <= line[t1s + 2] && line[t1s + 2] <= 57)
    {
        proof {
            let t1 = line@.subrange(t1s as int, t1e as int);
            assert(!is_status_token(t1));
        }
        return Err(HttpError::MalformedStatusLine);
    }
    let v: u16 = (line[t1s] - 48) as u16 * 100 + (line[t1s + 1] - 48) as u16 * 10 + (line[t1s
        + 2] - 48) as u16;
    proof {
        let t1 = line@.subrange(t1s as int, t1e as int);
        assert(t1[0] == line@[t1s as int] && t1[1] == line@[t1s + 1] && t1[2] == line@[t1s + 2]);
        assert(v == status_val(t1));
    }
    if v < 100 || v > 599 {
        return Err(HttpError::MalformedStatusLine);
    }
    Ok(v)
}

// ---------------------------------------------------------------------------
// Header lines
// ---------------------------------------------------------------------------

/// A header line splits at its first colon; name and value are trimmed of
/// surrounding horizontal whitespace. A line with no colon is malformed.
pub open spec fn parse_header_spec(l: Seq<u8>) -> Option<(Seq<u8>, Seq<u8>)> {
    if first_pos(l, COLON) < 0 {
        None
    } else {
        Some(
            (
                trim_spec(l.take(first_pos(l, COLON))),
                trim_spec(l.skip(first_pos(l, COLON) + 1)),
            ),
        )
    }
}

/// Parses one header line into its trimmed name and value.
pub fn parse_header_line(line: &Vec<u8>) -> (r: Result<(Vec<u8>, Vec<u8>), HttpError>)
    ensures
        match r {
            Ok(p) => parse_header_spec(line@) == Some((p.0@, p.1@)),
            Err(e) => parse_header_spec(line@) is None && e == HttpError::MalformedHeaderLine,
        },
{
    proof {
        assert(line@.skip(0) =~= line@);
    }
    match find_first(line, 0, COLON) {
        None => Err(HttpError::MalformedHeaderLine),
        Some(c) => {
            let n = line.len();
            assert(c < n);
            let raw_name = sub_vec(line, 0, c);
            let raw_val = sub_vec(line, c + 1, n);
            proof {
                assert(raw_name@ =~= line@.take(c as int));
                assert(raw_val@ =~= line@.skip(c + 1));
            }
            let name = trim(&raw_name);
            let val = trim(&raw_val);
            Ok((name, val))
        },
    }
}

// ---------------------------------------------------------------------------
// The header block, as a whole
// ---------------------------------------------------------------------------

/// Result of reading a header block from a byte stream.
pub enum HeadersParse {
    /// The headers in order, and the bytes after the terminating blank
    /// line.
    Parsed(Seq<(Seq<u8>, Seq<u8>)>, Seq<u8>),
    /// A non-empty line with no colon was met.
    Malformed,
    /// The stream ended before the terminating blank line.
    Starved,
}

/// Reads lines until an empty one; each non-empty line must parse as a
/// header.
pub open spec fn parse_headers_spec(d: Seq<u8>) -> HeadersParse
    decreases d.len(),
{
    if first_pos(d, LF) < 0 {
        HeadersParse::Starved
    } else {
        let l = line_of(d);
        let rest = after_line(d);
        if l.len() == 0 {
            HeadersParse::Parsed(Seq::empty(), rest)
        } else {
            match parse_header_spec(l) {
                Option::None => HeadersParse::Malformed,
                Option::Some(p) => match parse_headers_spec(rest) {
                    HeadersParse::Parsed(hs, r2) => HeadersParse::Parsed(seq![p] + hs, r2),
                    x => x,
                },
            }
        }
    }
}

// ---------------------------------------------------------------------------
// A compliant reader for serialized requests
// ---------------------------------------------------------------------------

/// The method whose literal token is `t`, if any.
pub open spec fn method_of_token(t: Seq<u8>) -> Option<Method> {
    if t == method_token(Method::Get) {
        Some(Method::Get)
    } else if t == method_token(Method::Head) {
        Some(Method::Head)
    } else if t == method_token(Method::Post) {
        Some(Method::Post)
    } else if t == method_token(Method::Put) {
        Some(Method::Put)
    } else if t == method_token(Method::Patch) {
        Some(Method::Patch)
    } else if t == method_token(Method::Delete) {
        Some(Method::Delete)
    } else if t == method_token(Method::Options) {
        Some(Method::Options)
    } else {
        None
    }
}

pub open spec fn tok3_start(l: Seq<u8>) -> int {
    tok2_end(l) + ws_prefix_len(l.skip(tok2_end(l)))
}

pub open spec fn tok3_end(l: Seq<u8>) -> int {
    tok3_start(l) + token_len(l.skip(tok3_start(l)))
}

/// Reading a request line: method token, non-empty target token, and the
/// exact protocol token `HTTP/1.1`.
pub open spec fn parse_request_line_spec(l: Seq<u8>) -> Option<(Method, Seq<u8>)> {
    let t0 = l.subrange(tok1_start(l), tok1_end(l));
    let t1 = l.subrange(tok2_start(l), tok2_end(l));
    let t2 = l.subrange(tok3_start(l), tok3_end(l));
    match method_of_token(t0) {
        None => None,
        Some(m) => if t1.len() > 0 && t2 == http11() {
            Some((m, t1))
        } else {
            None
        },
    }
}

/// Reading a whole request head: request line, then the header block up to
/// its blank line; the remaining bytes are the body the headers announce.
pub open spec fn parse_request_head_spec(d: Seq<u8>) -> Option<
    (Method, Seq<u8>, Seq<(Seq<u8>, Seq<u8>)>, Seq<u8>),
> {
    if first_pos(d, LF) < 0 {
        None
    } else {
        match parse_request_line_spec(line_of(d)) {
            None => None,
            Some((m, t)) => match parse_headers_spec(after_line(d)) {
                HeadersParse::Parsed(hs, rest) => Some((m, t, hs, rest)),
                _ => None,
            },
        }
    }
}

// ---------------------------------------------------------------------------
// Round-trip lemmas
// ---------------------------------------------------------------------------

/// A line emitted as `content CRLF` reads back as exactly `content`.
pub proof fn lemma_line_structure(content: Seq<u8>, rest: Seq<u8>)
    requires
        forall|i: int| 0 <= i < content.len() ==> content[i] != LF,
    ensures
        first_pos(content + crlf() + rest, LF) == content.len() + 1,
        line_of(content + crlf() + rest) == content,
        after_line(content + crlf() + rest) == rest,
{
    let d = content + crlf() + rest;
    let n = content.len() as int;
    assert(d[n] == CR);
    assert(d[n + 1] == LF);
    assert forall|j: int| 0 <= j < n + 1 implies d[j] != LF by {
        if j < n {
            assert(d[j] == content[j]);
        }
    };
    lemma_first_pos_at(d, LF, n + 1);
    assert(d.take(n + 1) =~= content + seq![CR]);
    assert(strip_cr(content + seq![CR]) =~= content);
    assert(after_line(d) =~= rest);
}

/// Method tokens are non-empty runs of uppercase letters.
pub proof fn lemma_method_token_upper(m: Method)
    ensures
        method_token(m).len() > 0,
        forall|i: int| 0 <= i < method_token(m).len() ==> 65 <= #[trigger] method_token(m)[i]
            <= 90,
{
    match m {
        Method::Get => {
            assert forall|i: int| 0 <= i < method_token(m).len() implies 65 <= #[trigger] method_token(m)[i]
                <= 90 by {
                assert(method_token(m)[0] == 71);
                assert(method_token(m)[1] == 69);
                assert(method_token(m)[2] == 84);
            };
        },
        Method::Head => {
            assert forall|i: int| 0 <= i < method_token(m).len() implies 65 <= #[trigger] method_token(m)[i]
                <= 90 by {
                assert(method_token(m)[0] == 72);
                assert(method_token(m)[1] == 69);
                assert(method_token(m)[2] == 65);
                assert(method_token(m)[3] == 68);
            };
        },
        Method::Post => {
            assert forall|i: int| 0 <= i < method_token(m).len() implies 65 <= #[trigger] method_token(m)[i]
                <= 90 by {
                assert(method_token(m)[0] == 80);
                assert(method_token(m)[1] == 79);
                assert(method_token(m)[2] == 83);
                assert(method_token(m)[3] == 84);
            };
        },
        Method::Put => {
            assert forall|i: int| 0 <= i < method_token(m).len() implies 65 <= #[trigger] method_token(m)[i]
                <= 90 by {
                assert(method_token(m)[0] == 80);
                assert(method_token(m)[1] == 85);
                assert(method_token(m)[2] == 84);
            };
        },
        Method::Patch => {
            assert forall|i: int| 0 <= i < method_token(m).len() implies 65 <= #[trigger] method_token(m)[i]
                <= 90 by {
                assert(method_token(m)[0] == 80);
                assert(method_token(m)[1] == 65);
                assert(method_token(m)[2] == 84);
                assert(method_token(m)[3] == 67);
                assert(method_token(m)[4] == 72);
            };
        },
        Method::Delete => {
            assert forall|i: int| 0 <= i < method_token(m).len() implies 65 <= #[trigger] method_token(m)[i]
                <= 90 by {
                assert(method_token(m)[0] == 68);
                assert(method_token(m)[1] == 69);
                assert(method_token(m)[2] == 76);
                assert(method_token(m)[3] == 69);
                assert(method_token(m)[4] == 84);
                assert(method_token(m)[5] == 69);
            };
        },
        Method::Options => {
            assert forall|i: int| 0 <= i < method_token(m).len() implies 65 <= #[trigger] method_token(m)[i]
                <= 90 by {
                assert(method_token(m)[0] == 79);
                assert(method_token(m)[1] == 80);
                assert(method_token(m)[2] == 84);
                assert(method_token(m)[3] == 73);
                assert(method_token(m)[4] == 79);
                assert(method_token(m)[5] == 78);
                assert(method_token(m)[6] == 83);
            };
        },
    }
}

/// `HTTP/1.1` holds neither whitespace nor line breaks.
pub proof fn lemma_http11_bytes()
    ensures
        http11().len() == 8,
        forall|i: int| 0 <= i < http11().len() ==> !is_ws(#[trigger] http11()[i]) && http11()[i]
            != CR && http11()[i] != LF,
        http11()[0] == 72,
{
    assert forall|i: int| 0 <= i < http11().len() implies !is_ws(#[trigger] http11()[i])
        && http11()[i] != CR && http11()[i] != LF by {
        assert(http11()[0] == 72);
        assert(http11()[1] == 84);
        assert(http11()[2] == 84);
        assert(http11()[3] == 80);
        assert(http11()[4] == 47);
        assert(http11()[5] == 49);
        assert(http11()[6] == 46);
        assert(http11()[7] == 49);
    };
}

/// The request line of a wire-safe request reads back as its method and
/// target.
pub proof fn lemma_parse_request_line(m: Method, target: Seq<u8>)
    requires
        token_safe(target),
    ensures
        parse_request_line_spec(method_token(m) + seq![SP] + target + seq![SP] + http11())
            == Some((m, target)),
{
    let l = method_token(m) + seq![SP] + target + seq![SP] + http11();
    let a = method_token(m).len() as int;
    let b = target.len() as int;
    lemma_method_token_upper(m);
    lemma_http11_bytes();
    assert(l.len() == a + b + 10);
    // token one: the method
    assert(l[0] == method_token(m)[0]);
    lemma_ws_prefix_at(l, 0);
    assert(l.skip(0) =~= l);
    assert forall|j: int| 0 <= j < a implies !is_ws(l[j]) by {
        assert(l[j] == method_token(m)[j]);
    };
    assert(l[a] == SP);
    lemma_token_len_at(l, a);
    assert(tok1_start(l) == 0 && tok1_end(l) == a);
    let t0 = l.subrange(0, a);
    assert(t0 =~= method_token(m));
    // the space, then token two: the target
    let s1 = l.skip(a);
    assert(s1[0] == l[a] && s1[1] == l[a + 1]);
    assert(l[a + 1] == target[0]);
    lemma_ws_prefix_at(s1, 1);
    assert(tok2_start(l) == a + 1);
    let s2 = l.skip(a + 1);
    assert forall|j: int| 0 <= j < b implies !is_ws(s2[j]) by {
        assert(s2[j] == l[a + 1 + j]);
        assert(l[a + 1 + j] == target[j]);
    };
    assert(s2[b] == l[a + 1 + b]);
    assert(l[a + 1 + b] == SP);
    lemma_token_len_at(s2, b);
    assert(tok2_end(l) == a + 1 + b);
    let t1 = l.subrange(a + 1, a + 1 + b);
    assert(t1 =~= target);
    // the space, then token three: the protocol
    let s3 = l.skip(a + 1 + b);
    assert(s3[0] == l[a + 1 + b]);
    assert(s3[1] == l[a + 2 + b]);
    assert(l[a + 2 + b] == http11()[0]);
    lemma_ws_prefix_at(s3, 1);
    assert(tok3_start(l) == a + 2 + b);
    let s4 = l.skip(a + 2 + b);
    assert(s4 =~= http11());
    lemma_token_len_at(s4, 8);
    assert(tok3_end(l) == a + 10 + b);
    let t2 = l.subrange(a + 2 + b, a + 10 + b);
    assert(t2 =~= http11());
    // the method token is recognized, and no earlier token shadows it
    match m {
        Method::Get => {},
        Method::Head => {
            assert(method_token(Method::Get).len() == 3);
        },
        Method::Post => {
            assert(method_token(Method::Get).len() == 3);
            assert(method_token(Method::Head)[0] == 72);
            assert(method_token(Method::Post)[0] == 80);
        },
        Method::Put => {
            assert(method_token(Method::Get)[0] == 71);
            assert(method_token(Method::Put)[0] == 80);
            assert(method_token(Method::Head).len() == 4);
            assert(method_token(Method::Post).len() == 4);
        },
        Method::Patch => {
            assert(method_token(Method::Get).len() == 3);
            assert(method_token(Method::Head).len() == 4);
            assert(method_token(Method::Post).len() == 4);
            assert(method_token(Method::Put).len() == 3);
        },
        Method::Delete => {
            assert(method_token(Method::Get).len() == 3);
            assert(method_token(Method::Head).len() == 4);
            assert(method_token(Method::Post).len() == 4);
            assert(method_token(Method::Put).len() == 3);
            assert(method_token(Method::Patch).len() == 5);
        },
        Method::Options => {
            assert(method_token(Method::Get).len() == 3);
            assert(method_token(Method::Head).len() == 4);
            assert(method_token(Method::Post).len() == 4);
            assert(method_token(Method::Put).len() == 3);
            assert(method_token(Method::Patch).len() == 5);
            assert(method_token(Method::Delete).len() == 6);
        },
    }
    assert(method_of_token(t0) == Some(m));
}

/// A byte string equal to its own trim neither starts nor ends with
/// whitespace.
pub proof fn lemma_trimmed_ends(v: Seq<u8>)
    requires
        trim_spec(v) == v,
    ensures
        v.len() > 0 ==> !is_ws(v[0]) && !is_ws(v[v.len() - 1]),
{
    lemma_ws_prefix(v);
    lemma_ws_suffix(v);
    if v.len() > 0 {
        if ws_prefix_len(v) == v.len() {
            assert(trim_spec(v).len() == 0);
        } else {
            assert(trim_spec(v).len() == v.len() - ws_prefix_len(v) - ws_suffix_len(v));
            assert(ws_prefix_len(v) == 0 && ws_suffix_len(v) == 0);
        }
    }
}

/// Trimming `SP v` gives back a value that carries no surrounding
/// whitespace of its own.
pub proof fn lemma_trim_sp_prefix(v: Seq<u8>)
    requires
        trim_spec(v) == v,
    ensures
        trim_spec(seq![SP] + v) == v,
{
    let s = seq![SP] + v;
    if v.len() == 0 {
        assert(s.len() == 1);
        assert(is_ws(s[0]));
        lemma_ws_prefix_at(s, 1);
        assert(trim_spec(s) =~= v);
    } else {
        lemma_trimmed_ends(v);
        assert(s[0] == SP && s[1] == v[0]);
        lemma_ws_prefix_at(s, 1);
        assert(s[s.len() - 1] == v[v.len() - 1]);
        lemma_ws_suffix_at(s, 0);
        assert(s.subrange(1, s.len() as int) =~= v);
    }
}

/// A header line emitted as `name: value` reads back as exactly that name
/// and value.
pub proof fn lemma_parse_header_of_line(n: Seq<u8>, v: Seq<u8>)
    requires
        name_safe(n),
        value_safe(v),
    ensures
        parse_header_spec(n + seq![COLON, SP] + v) == Some((n, v)),
{
    let l = n + seq![COLON, SP] + v;
    let a = n.len() as int;
    assert(l[a] == COLON);
    assert forall|j: int| 0 <= j < a implies l[j] != COLON by {
        assert(l[j] == n[j]);
    };
    lemma_first_pos_at(l, COLON, a);
    assert(l.take(a) =~= n);
    assert(l.skip(a + 1) =~= seq![SP] + v);
    lemma_trim_sp_prefix(v);
}

/// The serialized block of wire-safe headers, the blank line, and a tail
/// read back as exactly those headers with the tail left over.
pub proof fn lemma_parse_headers_of_block(hs: Seq<(Seq<u8>, Seq<u8>)>, tail: Seq<u8>)
    requires
        forall|i: int| 0 <= i < hs.len() ==> #[trigger] name_safe(hs[i].0) && value_safe(
            hs[i].1,
        ),
    ensures
        parse_headers_spec(header_block_bytes(hs) + crlf() + tail) == HeadersParse::Parsed(
            hs,
            tail,
        ),
    decreases hs.len(),
{
    let d = header_block_bytes(hs) + crlf() + tail;
    if hs.len() == 0 {
        assert(d =~= Seq::<u8>::empty() + crlf() + tail);
        lemma_line_structure(Seq::empty(), tail);
        assert(hs =~= Seq::<(Seq<u8>, Seq<u8>)>::empty());
    } else {
        let p = hs[0];
        let content = p.0 + seq![COLON, SP] + p.1;
        let rest_block = header_block_bytes(hs.skip(1)) + crlf() + tail;
        assert(name_safe(hs[0].0) && value_safe(hs[0].1));
        assert(d =~= content + crlf() + rest_block);
        assert forall|i: int| 0 <= i < content.len() implies content[i] != LF by {
            let a = p.0.len() as int;
            if i < a {
                assert(content[i] == p.0[i]);
            } else if i == a {
                assert(content[i] == COLON);
            } else if i == a + 1 {
                assert(content[i] == SP);
            } else {
                assert(content[i] == p.1[i - a - 2]);
            }
        };
        lemma_line_structure(content, rest_block);
        lemma_parse_header_of_line(p.0, p.1);
        assert forall|i: int| 0 <= i < hs.skip(1).len() implies #[trigger] name_safe(
            hs.skip(1)[i].0,
        ) && value_safe(hs.skip(1)[i].1) by {
            assert(hs.skip(1)[i] == hs[i + 1]);
            assert(name_safe(hs[i + 1].0) && value_safe(hs[i + 1].1));
        };
        lemma_parse_headers_of_block(hs.skip(1), tail);
        assert(line_of(d).len() != 0);
        assert(seq![p] + hs.skip(1) =~= hs);
        assert(parse_headers_spec(d) == HeadersParse::Parsed(hs, tail));
    }
}

/// `content-length` is a wire-safe header name.
pub proof fn lemma_cl_name_safe()
    ensures
        name_safe(cl_name()),
{
    assert forall|i: int| 0 <= i < cl_name().len() implies #[trigger] cl_name()[i] != 58
        && cl_name()[i] != CR && cl_name()[i] != LF by {
        assert(cl_name()[0] == 99);
        assert(cl_name()[1] == 111);
        assert(cl_name()[2] == 110);
        assert(cl_name()[3] == 116);
        assert(cl_name()[4] == 101);
        assert(cl_name()[5] == 110);
        assert(cl_name()[6] == 116);
        assert(cl_name()[7] == 45);
        assert(cl_name()[8] == 108);
        assert(cl_name()[9] == 101);
        assert(cl_name()[10] == 110);
        assert(cl_name()[11] == 103);
        assert(cl_name()[12] == 116);
        assert(cl_name()[13] == 104);
    };
    assert(cl_name()[0] == 99);
    assert(cl_name()[13] == 104);
    lemma_ws_prefix_at(cl_name(), 0);
    lemma_ws_suffix_at(cl_name(), 0);
    assert(trim_spec(cl_name()) =~= cl_name());
}

/// A rendered decimal numeral is a non-empty string of digits.
pub proof fn lemma_dec_of_digits(n: int)
    requires
        n >= 0,
    ensures
        dec_of(n).len() > 0,
        forall|i: int| 0 <= i < dec_of(n).len() ==> is_digit(#[trigger] dec_of(n)[i]),
    decreases n,
{
    if n < 10 {
        assert(dec_of(n) =~= seq![(48 + n) as u8]);
    } else {
        lemma_dec_of_digits(n / 10);
        let d = dec_of(n / 10);
        assert forall|i: int| 0 <= i < dec_of(n).len() implies is_digit(
            #[trigger] dec_of(n)[i],
        ) by {
            if i < d.len() {
                assert(dec_of(n)[i] == d[i]);
                assert(is_digit(d[i]));
            } else {
                assert(dec_of(n)[i] == (48 + n % 10) as u8);
            }
        };
    }
}

/// A rendered decimal numeral is a wire-safe header value.
pub proof fn lemma_dec_of_value_safe(n: int)
    requires
        n >= 0,
    ensures
        value_safe(dec_of(n)),
{
    lemma_dec_of_digits(n);
    let d = dec_of(n);
    assert(is_digit(d[0]) && !is_ws(d[0]));
    assert(is_digit(d[d.len() - 1]) && !is_ws(d[d.len() - 1]));
    lemma_ws_prefix_at(d, 0);
    lemma_ws_suffix_at(d, 0);
    assert(trim_spec(d) =~= d);
}

/// Withholding `content-length` keeps every remaining header wire-safe.
pub proof fn lemma_keep_non_cl_safe(hs: Seq<(Seq<u8>, Seq<u8>)>)
    requires
        forall|i: int| 0 <= i < hs.len() ==> #[trigger] name_safe(hs[i].0) && value_safe(
            hs[i].1,
        ),
    ensures
        forall|i: int|
            0 <= i < keep_non_cl(hs).len() ==> #[trigger] name_safe(keep_non_cl(hs)[i].0)
                && value_safe(keep_non_cl(hs)[i].1),
    decreases hs.len(),
{
    if hs.len() > 0 {
        assert forall|i: int| 0 <= i < hs.skip(1).len() implies #[trigger] name_safe(
            hs.skip(1)[i].0,
        ) && value_safe(hs.skip(1)[i].1) by {
            assert(hs.skip(1)[i] == hs[i + 1]);
            assert(name_safe(hs[i + 1].0) && value_safe(hs[i + 1].1));
        };
        lemma_keep_non_cl_safe(hs.skip(1));
        let k = keep_non_cl(hs);
        if lower_seq(hs[0].0) == cl_name() {
        } else {
            assert forall|i: int| 0 <= i < k.len() implies #[trigger] name_safe(k[i].0)
                && value_safe(k[i].1) by {
                if i == 0 {
                    assert(k[0] == hs[0]);
                    assert(name_safe(hs[0].0) && value_safe(hs[0].1));
                } else {
                    assert(keep_non_cl(hs) == seq![hs[0]] + keep_non_cl(hs.skip(1)));
                    assert(keep_non_cl(hs).len() == 1 + keep_non_cl(hs.skip(1)).len());
                    assert((seq![hs[0]] + keep_non_cl(hs.skip(1)))[i] == keep_non_cl(
                        hs.skip(1),
                    )[i - 1]);
                    assert(name_safe(keep_non_cl(hs.skip(1))[i - 1].0));
                    assert(value_safe(keep_non_cl(hs.skip(1))[i - 1].1));
                }
            };
        }
    }
}

/// Every header a wire-safe request serializes is itself wire-safe.
pub proof fn lemma_wire_headers_safe(r: Request)
    requires
        request_wf(r),
    ensures
        forall|i: int|
            0 <= i < wire_headers(r).len() ==> #[trigger] name_safe(wire_headers(r)[i].0)
                && value_safe(wire_headers(r)[i].1),
{
    let hv = hview(r.headers@);
    assert forall|i: int| 0 <= i < hv.len() implies #[trigger] name_safe(hv[i].0) && value_safe(
        hv[i].1,
    ) by {
        lemma_hview_index(r.headers@, i);
        assert(name_safe(r.headers@[i].0@));
        assert(value_safe(r.headers@[i].1@));
    };
    lemma_keep_non_cl_safe(hv);
    let w = wire_headers(r);
    let k = keep_non_cl(hv);
    let tail = if r.body@.len() > 0 {
        seq![(cl_name(), dec_of(r.body@.len() as int))]
    } else {
        Seq::<(Seq<u8>, Seq<u8>)>::empty()
    };
    assert forall|i: int| 0 <= i < w.len() implies #[trigger] name_safe(w[i].0) && value_safe(
        w[i].1,
    ) by {
        if i < k.len() {
            assert((k + tail)[i] == k[i]);
            assert(name_safe(k[i].0) && value_safe(k[i].1));
        } else {
            assert((k + tail)[i] == tail[i - k.len()]);
            lemma_cl_name_safe();
            lemma_dec_of_value_safe(r.body@.len() as int);
        }
    };
}

/// Round trip: a compliant reader applied to the serialized bytes of a
/// wire-safe request recovers its method, its target, the exact header
/// sequence that was put on the wire (order preserved), and its raw body.
pub proof fn lemma_request_round_trip(r: Request)
    requires
        request_wf(r),
    ensures
        parse_request_head_spec(request_bytes(r)) == Some(
            (r.method, r.target@, wire_headers(r), r.body@),
        ),
{
    let content = method_token(r.method) + seq![SP] + r.target@ + seq![SP] + http11();
    let block_tail = header_block_bytes(wire_headers(r)) + crlf() + r.body@;
    let d = request_bytes(r);
    assert(d =~= content + crlf() + block_tail);
    lemma_method_token_upper(r.method);
    lemma_http11_bytes();
    assert forall|i: int| 0 <= i < content.len() implies content[i] != LF by {
        let a = method_token(r.method).len() as int;
        let b = r.target@.len() as int;
        if i < a {
            assert(content[i] == method_token(r.method)[i]);
        } else if i == a {
            assert(content[i] == SP);
        } else if i < a + 1 + b {
            assert(content[i] == r.target@[i - a - 1]);
        } else if i == a + 1 + b {
            assert(content[i] == SP);
        } else {
            assert(content[i] == http11()[i - a - b - 2]);
        }
    };
    lemma_line_structure(content, block_tail);
    lemma_parse_request_line(r.method, r.target@);
    lemma_wire_headers_safe(r);
    lemma_parse_headers_of_block(wire_headers(r), r.body@);
}

// ---------------------------------------------------------------------------
// The content-length law
// ---------------------------------------------------------------------------

/// How many headers of `hs` are named `content-length`, case-insensitively.
pub open spec fn count_cl(hs: Seq<(Seq<u8>, Seq<u8>)>) -> int
    decreases hs.len(),
{
    if hs.len() == 0 {
        0
    } else {
        (if lower_seq(hs[0].0) == cl_name() {
            1int
        } else {
            0int
        }) + count_cl(hs.skip(1))
    }
}

pub proof fn lemma_count_cl_snoc(hs: Seq<(Seq<u8>, Seq<u8>)>, p: (Seq<u8>, Seq<u8>))
    ensures
        count_cl(hs.push(p)) == count_cl(hs) + if lower_seq(p.0) == cl_name() {
            1int
        } else {
            0int
        },
    decreases hs.len(),
{
    if hs.len() == 0 {
        reveal_with_fuel(count_cl, 2);
        assert(hs.push(p)[0] == p);
        assert(hs.push(p).skip(1) =~= Seq::<(Seq<u8>, Seq<u8>)>::empty());
    } else {
        assert(hs.push(p)[0] == hs[0]);
        assert(hs.push(p).skip(1) =~= hs.skip(1).push(p));
        lemma_count_cl_snoc(hs.skip(1), p);
    }
}

/// No header withheld by the codec still counts as `content-length`.
pub proof fn lemma_count_cl_of_keep(hs: Seq<(Seq<u8>, Seq<u8>)>)
    ensures
        count_cl(keep_non_cl(hs)) == 0,
    decreases hs.len(),
{
    if hs.len() == 0 {
    } else {
        lemma_count_cl_of_keep(hs.skip(1));
        if lower_seq(hs[0].0) == cl_name() {
        } else {
            let k = keep_non_cl(hs);
            assert(k[0] == hs[0]);
            assert(k.skip(1) =~= keep_non_cl(hs.skip(1)));
        }
    }
}

/// A rendered decimal numeral reads back as the number it was made from.
pub proof fn lemma_dec_of_value(n: int)
    requires
        n >= 0,
    ensures
        dec_value(dec_of(n)) == n,
    decreases n,
{
    if n < 10 {
        reveal_with_fuel(dec_value, 2);
        let s = seq![(48 + n) as u8];
        assert(dec_of(n) =~= s);
        assert(s.drop_last() =~= Seq::<u8>::empty());
        assert(dec_value(s) == dec_value(s.drop_last()) * 10 + (s[0] - 48));
    } else {
        lemma_dec_of_value(n / 10);
        let d = (48 + n % 10) as u8;
        assert(dec_of(n) == dec_of(n / 10) + seq![d]);
        assert((dec_of(n / 10) + seq![d]).drop_last() =~= dec_of(n / 10));
        assert((dec_of(n / 10) + seq![d]).last() == d);
        assert(dec_value(dec_of(n)) == dec_value(dec_of(n / 10)) * 10 + (d - 48));
    }
}

/// For a request with a non-empty body, the headers put on the wire hold a
/// `content-length` exactly once, it comes last, and its numeral reads as
/// the body's exact byte length.
pub proof fn lemma_content_length_once(r: Request)
    requires
        r.body@.len() > 0,
    ensures
        count_cl(wire_headers(r)) == 1,
        wire_headers(r).len() > 0,
        wire_headers(r).last() == (cl_name(), dec_of(r.body@.len() as int)),
        dec_value(wire_headers(r).last().1) == r.body@.len(),
{
    let k = keep_non_cl(hview(r.headers@));
    let p = (cl_name(), dec_of(r.body@.len() as int));
    lemma_count_cl_of_keep(hview(r.headers@));
    lemma_cl_name_lower();
    assert(wire_headers(r) =~= k.push(p));
    lemma_count_cl_snoc(k, p);
    lemma_dec_of_value(r.body@.len() as int);
}

/// At the byte level: a compliant reader of the serialized bytes of a
/// wire-safe request with a non-empty body finds a `content-length` header
/// exactly once among the headers it recovers, and its numeral reads as
/// the body's exact byte length.
pub proof fn lemma_serialized_content_length(r: Request)
    requires
        request_wf(r),
        r.body@.len() > 0,
    ensures
        ({
            let parsed = parse_request_head_spec(request_bytes(r));
            &&& parsed matches Some((m, t, hs, body)) && count_cl(hs) == 1 && hs.last() == (
            cl_name(),
            dec_of(r.body@.len() as int),
            ) && dec_value(hs.last().1) == r.body@.len()
        }),
{
    lemma_request_round_trip(r);
    lemma_content_length_once(r);
}

} // verus!
