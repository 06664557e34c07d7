//! The body framer: given the request method and the parsed response
//! headers, exactly one framing discipline is selected — no body, chunked,
//! fixed-length, or delimited by connection close, in that precedence
//! order — and the chunked byte grammar is defined here.

use vstd::prelude::*;
use crate::bytes::{
    LF, SEMI, COMMA, first_pos, last_pos, line_of, after_line, lower_seq, trim_spec, trim,
    parse_dec_spec, parse_hex_spec, parse_dec, sub_vec, find_last, eq_ignore_case,
};
use crate::message::{Method, HeaderList, hview, last_value, lookup_last, copy_bytes};
use crate::codec::{cl_name, cl_name_vec, lemma_cl_name_lower};

verus! {

/// The bytes of the header name `transfer-encoding`.
pub open spec fn te_name() -> Seq<u8> {
    seq![
        116u8, 114u8, 97u8, 110u8, 115u8, 102u8, 101u8, 114u8, 45u8, 101u8, 110u8, 99u8,
        111u8, 100u8, 105u8, 110u8, 103u8,
    ]
}

/// The bytes of the encoding token `chunked`.
pub open spec fn chunked_token() -> Seq<u8> {
    seq![99u8, 104u8, 117u8, 110u8, 107u8, 101u8, 100u8]
}

/// Builds the header name `transfer-encoding`.
pub fn te_name_vec() -> (r: Vec<u8>)
    ensures
        r@ == te_name(),
{
    let mut v: Vec<u8> = Vec::new();
    v.push(116);
    v.push(114);
    v.push(97);
    v.push(110);
    v.push(115);
    v.push(102);
    v.push(101);
    v.push(114);
    v.push(45);
    v.push(101);
    v.push(110);
    v.push(99);
    v.push(111);
    v.push(100);
    v.push(105);
    v.push(110);
    v.push(103);
    proof {
        assert(v@ =~= te_name());
    }
    v
}

/// Builds the encoding token `chunked`.
pub fn chunked_vec() -> (r: Vec<u8>)
    ensures
        r@ == chunked_token(),
{
    let mut v: Vec<u8> = Vec::new();
    v.push(99);
    v.push(104);
    v.push(117);
    v.push(110);
    v.push(107);
    v.push(101);
    v.push(100);
    proof {
        assert(v@ =~= chunked_token());
    }
    v
}

/// `transfer-encoding` is already lowercase.
pub proof fn lemma_te_name_lower()
    ensures
        lower_seq(te_name()) == te_name(),
{
    assert forall|i: int| 0 <= i < lower_seq(te_name()).len() implies lower_seq(te_name())[i]
        == te_name()[i] by {
        assert(te_name()[0] == 116);
        assert(te_name()[1] == 114);
        assert(te_name()[2] == 97);
        assert(te_name()[3] == 110);
        assert(te_name()[4] == 115);
        assert(te_name()[5] == 102);
        assert(te_name()[6] == 101);
        assert(te_name()[7] == 114);
        assert(te_name()[8] == 45);
        assert(te_name()[9] == 101);
        assert(te_name()[10] == 110);
        assert(te_name()[11] == 99);
        assert(te_name()[12] == 111);
        assert(te_name()[13] == 100);
        assert(te_name()[14] == 105);
        assert(te_name()[15] == 110);
        assert(te_name()[16] == 103);
    };
    assert(lower_seq(te_name()) =~= te_name());
}

/// `chunked` is already lowercase.
pub proof fn lemma_chunked_lower()
    ensures
        lower_seq(chunked_token()) == chunked_token(),
{
    assert forall|i: int| 0 <= i < lower_seq(chunked_token()).len() implies lower_seq(
        chunked_token(),
    )[i] == chunked_token()[i] by {
        assert(chunked_token()[0] == 99);
        assert(chunked_token()[1] == 104);
        assert(chunked_token()[2] == 117);
        assert(chunked_token()[3] == 110);
        assert(chunked_token()[4] == 107);
        assert(chunked_token()[5] == 101);
        assert(chunked_token()[6] == 100);
    };
    assert(lower_seq(chunked_token()) =~= chunked_token());
}

// ---------------------------------------------------------------------------
// The framing decision
// ---------------------------------------------------------------------------

/// Exactly one framing discipline, selected by `framing_of`.
#[derive(Clone, Copy, Debug, PartialEq, Eq, Structural)]
pub enum Framing {
    /// Read zero body bytes whatever the headers say.
    NoBody,
    /// Drive the chunk-reading protocol.
    Chunked,
    /// Read exactly this many body bytes.
    Fixed(u32),
    /// Read until the transport signals end of stream; the connection
    /// cannot be reused afterwards.
    Close,
}

/// Status codes that never carry a body.
pub open spec fn no_body_status(status: u16) -> bool {
    status == 204 || status == 304 || (100 <= status <= 199)
}

/// The token after the last comma of a `transfer-encoding` value; only
/// the last encoding determines the framing.
pub open spec fn last_comma_token(v: Seq<u8>) -> Seq<u8> {
    v.skip(last_pos(v, COMMA) + 1)
}

/// Whether the headers announce chunked framing: the last
/// `transfer-encoding` value's last comma-separated token, trimmed and
/// case-folded, is `chunked`.
pub open spec fn te_chunked(hs: Seq<(Seq<u8>, Seq<u8>)>) -> bool {
    match last_value(hs, te_name()) {
        Some(v) => lower_seq(trim_spec(last_comma_token(v))) == chunked_token(),
        None => false,
    }
}

/// The fixed body length announced by the last `content-length` header,
/// if it parses as a supported non-negative integer.
pub open spec fn cl_of(hs: Seq<(Seq<u8>, Seq<u8>)>) -> Option<u32> {
    match last_value(hs, cl_name()) {
        Some(v) => parse_dec_spec(v),
        None => None,
    }
}

/// The framing decision, in precedence order: no-body, chunked,
/// fixed-length, close-delimited. Exactly one discipline is selected.
pub open spec fn framing_of(m: Method, status: u16, hs: Seq<(Seq<u8>, Seq<u8>)>) -> Framing {
    if m == Method::Head || no_body_status(status) {
        Framing::NoBody
    } else if te_chunked(hs) {
        Framing::Chunked
    } else {
        match cl_of(hs) {
            Some(n) => Framing::Fixed(n),
            None => Framing::Close,
        }
    }
}

/// For status 204 or 304, any 1xx status, or method HEAD, the framer
/// selects the no-body discipline regardless of any `content-length` or
/// `transfer-encoding` the headers supply; the body read under it is
/// empty.
pub proof fn lemma_no_body_framing(m: Method, status: u16, hs: Seq<(Seq<u8>, Seq<u8>)>)
    requires
        m == Method::Head || status == 204 || status == 304 || 100 <= status <= 199,
    ensures
        framing_of(m, status, hs) == Framing::NoBody,
{
}

/// Selects the framing discipline from method and response headers.
pub fn classify(m: Method, status: u16, headers: &HeaderList) -> (r: Framing)
    ensures
        r == framing_of(m, status, hview(headers@)),
{
    if m == Method::Head || status == 204 || status == 304 || (100 <= status && status <= 199) {
        return Framing::NoBody;
    }
    let te = te_name_vec();
    proof {
        lemma_te_name_lower();
    }
    let is_chunked = match lookup_last(headers, &te) {
        Some(v) => {
            let tok = match find_last(&v, COMMA) {
                Some(i) => sub_vec(&v, i + 1, v.len()),
                None => copy_bytes(&v),
            };
            proof {
                assert(tok@ =~= last_comma_token(v@));
            }
            let t = trim(&tok);
            let ch = chunked_vec();
            proof {
                lemma_chunked_lower();
            }
            eq_ignore_case(&t, &ch)
        },
        None => false,
    };
    if is_chunked {
        return Framing::Chunked;
    }
    let cl = cl_name_vec();
    proof {
        lemma_cl_name_lower();
    }
    match lookup_last(headers, &cl) {
        Some(v) => match parse_dec(&v) {
            Some(n) => Framing::Fixed(n),
            None => Framing::Close,
        },
        None => Framing::Close,
    }
}

// ---------------------------------------------------------------------------
// The chunked byte grammar
// ---------------------------------------------------------------------------

/// The chunk-size numeral: the size line up to any `;`-delimited
/// extensions.
pub open spec fn chunk_size_token(l: Seq<u8>) -> Seq<u8> {
    if first_pos(l, SEMI) < 0 {
        l
    } else {
        l.take(first_pos(l, SEMI))
    }
}

/// Result of decoding a chunked body from a byte stream.
pub enum ChunkParse {
    /// The decoded body, and the bytes after the terminating blank line of
    /// the trailer block.
    ChunkDone(Seq<u8>, Seq<u8>),
    /// A malformed size numeral, a missing chunk delimiter, or stream end
    /// before the terminating zero chunk.
    ChunkBad,
}

/// Consumes trailer lines up to and including the terminating blank line.
pub open spec fn skip_trailers(d: Seq<u8>) -> Option<Seq<u8>>
    decreases d.len(),
{
    if first_pos(d, LF) < 0 {
        None
    } else if line_of(d).len() == 0 {
        Some(after_line(d))
    } else {
        skip_trailers(after_line(d))
    }
}

/// The chunked grammar: `size[;ext] CRLF data CRLF` repeated, then
/// `0[;ext] CRLF`, trailers, and a blank line. Each chunk's data is
/// followed by a mandatory line break; any deviation, including stream
/// end, is bad framing.
pub open spec fn dechunk(d: Seq<u8>) -> ChunkParse
    decreases d.len(),
{
    if first_pos(d, LF) < 0 {
        ChunkParse::ChunkBad
    } else {
        let l = line_of(d);
        let rest = after_line(d);
        match parse_hex_spec(chunk_size_token(l)) {
            None => ChunkParse::ChunkBad,
            Some(n) => {
                if n == 0 {
                    match skip_trailers(rest) {
                        Some(r2) => ChunkParse::ChunkDone(Seq::empty(), r2),
                        None => ChunkParse::ChunkBad,
                    }
                } else if rest.len() < n {
                    ChunkParse::ChunkBad
                } else {
                    let data = rest.take(n as int);
                    let r2 = rest.skip(n as int);
                    if first_pos(r2, LF) < 0 {
                        ChunkParse::ChunkBad
                    } else if line_of(r2).len() != 0 {
                        ChunkParse::ChunkBad
                    } else {
                        match dechunk(after_line(r2)) {
                            ChunkParse::ChunkDone(b, r3) => ChunkParse::ChunkDone(data + b, r3),
                            ChunkParse::ChunkBad => ChunkParse::ChunkBad,
                        }
                    }
                }
            },
        }
    }
}

} // verus!
