//! The connection: it owns one transport exclusively and orchestrates an
//! exchange — write the serialized request, parse status line and header
//! block, frame and read the body, and decide whether the transport may be
//! reused. Every parse or framing failure is returned as a typed error and
//! closes the connection; the engine itself never panics.

use vstd::prelude::*;
use crate::HttpError;
use crate::bytes::{LF, SEMI, first_pos, line_of, after_line, sub_vec, find_first, parse_hex};
use crate::message::{Method, Request, Response, HeaderList, hview, copy_bytes};
use crate::codec::{
    serialize_request, request_bytes, parse_status_line, parse_status_spec, parse_header_line,
    parse_headers_spec, HeadersParse,
};
use crate::framing::{
    Framing, framing_of, classify, dechunk, ChunkParse, skip_trailers, chunk_size_token,
};
use crate::transport::Transport;

verus! {

// ---------------------------------------------------------------------------
// What a response head and body mean, over the delivered byte sequence
// ---------------------------------------------------------------------------

pub open spec fn parsed_fields(hp: HeadersParse) -> Seq<(Seq<u8>, Seq<u8>)> {
    match hp {
        HeadersParse::Parsed(h, _) => h,
        _ => Seq::empty(),
    }
}

pub open spec fn parsed_rest(hp: HeadersParse) -> Seq<u8> {
    match hp {
        HeadersParse::Parsed(_, r) => r,
        _ => Seq::empty(),
    }
}

/// The delivered bytes begin with a parseable status line and header
/// block.
pub open spec fn head_ok(d: Seq<u8>) -> bool {
    &&& first_pos(d, LF) >= 0
    &&& parse_status_spec(line_of(d)) is Some
    &&& parse_headers_spec(after_line(d)) is Parsed
}

pub open spec fn head_status(d: Seq<u8>) -> u16 {
    parse_status_spec(line_of(d)).unwrap()
}

pub open spec fn head_fields(d: Seq<u8>) -> Seq<(Seq<u8>, Seq<u8>)> {
    parsed_fields(parse_headers_spec(after_line(d)))
}

/// The bytes left after the header block's terminating blank line.
pub open spec fn head_rest(d: Seq<u8>) -> Seq<u8> {
    parsed_rest(parse_headers_spec(after_line(d)))
}

/// The framing discipline the delivered head selects for method `m`.
pub open spec fn response_framing(m: Method, d: Seq<u8>) -> Framing {
    framing_of(m, head_status(d), head_fields(d))
}

/// How the body read under discipline `f` relates `rest` (the bytes after
/// the head) to the returned body, the bytes left over, and whether the
/// connection stays reusable.
pub open spec fn body_outcome(
    f: Framing,
    rest: Seq<u8>,
    body: Seq<u8>,
    left: Seq<u8>,
    reusable: bool,
) -> bool {
    match f {
        Framing::NoBody => body == Seq::<u8>::empty() && left == rest && reusable,
        Framing::Chunked => dechunk(rest) == ChunkParse::ChunkDone(body, left) && reusable,
        Framing::Fixed(n) => rest.len() >= n && body == rest.take(n as int) && left == rest.skip(
            n as int,
        ) && reusable,
        Framing::Close => body == rest && left.len() == 0 && !reusable,
    }
}

/// On which delivered bytes `send` reports which error: each parse or
/// framing error names exactly the defect that produced it, and
/// `Transport`/`Timeout` are surfaced unchanged.
pub open spec fn send_failure(m: Method, d0: Seq<u8>, e: HttpError) -> bool {
    match e {
        HttpError::Transport => true,
        HttpError::Timeout => true,
        HttpError::MalformedStatusLine => first_pos(d0, LF) >= 0 && parse_status_spec(
            line_of(d0),
        ) is None,
        HttpError::MalformedHeaderLine => first_pos(d0, LF) >= 0 && parse_status_spec(
            line_of(d0),
        ) is Some && parse_headers_spec(after_line(d0)) is Malformed,
        HttpError::UnexpectedEof => first_pos(d0, LF) < 0 || (first_pos(d0, LF) >= 0
            && parse_status_spec(line_of(d0)) is Some && parse_headers_spec(
            after_line(d0),
        ) is Starved) || (head_ok(d0) && (response_framing(m, d0) matches Framing::Fixed(n)
            && head_rest(d0).len() < n)),
        HttpError::MalformedChunkFraming => head_ok(d0) && response_framing(m, d0) is Chunked
            && dechunk(head_rest(d0)) is ChunkBad,
        HttpError::ConnectionClosed => false,
    }
}

// ---------------------------------------------------------------------------
// Reading the pieces from a transport
// ---------------------------------------------------------------------------

/// Reads and parses the status line.
fn read_status_line<T: Transport>(t: &mut T) -> (r: Result<u16, HttpError>)
    ensures
        match r {
            Ok(s) => first_pos(old(t).deliverable(), LF) >= 0 && parse_status_spec(
                line_of(old(t).deliverable()),
            ) == Some(s) && final(t).deliverable() == after_line(old(t).deliverable())
                && final(t).written() == old(t).written(),
            Err(e) => match e {
                HttpError::MalformedStatusLine => first_pos(old(t).deliverable(), LF) >= 0
                    && parse_status_spec(line_of(old(t).deliverable())) is None,
                HttpError::UnexpectedEof => first_pos(old(t).deliverable(), LF) < 0,
                _ => e == HttpError::Transport || e == HttpError::Timeout,
            },
        },
{
    match t.read_line() {
        Err(e) => Err(e),
        Ok(None) => Err(HttpError::UnexpectedEof),
        Ok(Some(l)) => parse_status_line(&l),
    }
}

/// Reads header lines until the blank line, in order.
fn read_header_block<T: Transport>(t: &mut T) -> (r: Result<HeaderList, HttpError>)
    ensures
        ({
            let d0 = old(t).deliverable();
            match r {
                Ok(hs) => parse_headers_spec(d0) == HeadersParse::Parsed(
                    hview(hs@),
                    final(t).deliverable(),
                ) && final(t).written() == old(t).written(),
                Err(e) => match e {
                    HttpError::MalformedHeaderLine => parse_headers_spec(d0) is Malformed,
                    HttpError::UnexpectedEof => parse_headers_spec(d0) is Starved,
                    _ => e == HttpError::Transport || e == HttpError::Timeout,
                },
            }
        }),
{
    let ghost d0 = t.deliverable();
    let ghost w0 = t.written();
    let mut hs: HeaderList = Vec::new();
    proof {
        assert(hview(hs@) =~= Seq::<(Seq<u8>, Seq<u8>)>::empty());
    }
    loop
        invariant
            d0 == old(t).deliverable(),
            w0 == old(t).written(),
            t.written() == w0,
            (match parse_headers_spec(t.deliverable()) {
                HeadersParse::Parsed(h2, r2) => parse_headers_spec(d0) == HeadersParse::Parsed(
                    hview(hs@) + h2,
                    r2,
                ),
                x => parse_headers_spec(d0) == x,
            }),
        decreases t.deliverable().len(),
    {
        let ghost di = t.deliverable();
        match t.read_line() {
            Err(e) => {
                return Err(e);
            },
            Ok(None) => {
                proof {
                    assert(parse_headers_spec(di) is Starved);
                }
                return Err(HttpError::UnexpectedEof);
            },
            Ok(Some(l)) => {
                if l.len() == 0 {
                    proof {
                        assert(parse_headers_spec(di) == HeadersParse::Parsed(
                            Seq::empty(),
                            after_line(di),
                        ));
                        assert(hview(hs@) + Seq::<(Seq<u8>, Seq<u8>)>::empty() =~= hview(hs@));
                    }
                    return Ok(hs);
                }
                match parse_header_line(&l) {
                    Err(e) => {
                        proof {
                            assert(line_of(di).len() != 0);
                            assert(parse_headers_spec(di) is Malformed);
                        }
                        return Err(e);
                    },
                    Ok(p) => {
                        proof {
                            match parse_headers_spec(after_line(di)) {
                                HeadersParse::Parsed(h2, r2) => {
                                    assert(parse_headers_spec(di) == HeadersParse::Parsed(
                                        seq![(p.0@, p.1@)] + h2,
                                        r2,
                                    ));
                                    assert(hview(hs@.push(p)) =~= hview(hs@).push(
                                        (p.0@, p.1@),
                                    ));
                                    assert(hview(hs@) + (seq![(p.0@, p.1@)] + h2) =~= hview(
                                        hs@.push(p),
                                    ) + h2);
                                },
                                hp => {
                                    assert(parse_headers_spec(di) == hp);
                                },
                            }
                        }
                        hs.push(p);
                    },
                }
            },
        }
    }
}

/// Drives the chunk-reading protocol: size lines, chunk data with its
/// mandatory delimiter, the zero chunk, and the trailer block.
fn read_chunked<T: Transport>(t: &mut T) -> (r: Result<Vec<u8>, HttpError>)
    ensures
        ({
            let d0 = old(t).deliverable();
            match r {
                Ok(v) => dechunk(d0) == ChunkParse::ChunkDone(v@, final(t).deliverable())
                    && final(t).written() == old(t).written(),
                Err(e) => match e {
                    HttpError::MalformedChunkFraming => dechunk(d0) is ChunkBad,
                    _ => e == HttpError::Transport || e == HttpError::Timeout,
                },
            }
        }),
{
    let ghost d0 = t.deliverable();
    let ghost w0 = t.written();
    let mut body: Vec<u8> = Vec::new();
    proof {
        assert(body@ =~= Seq::<u8>::empty());
    }
    loop
        invariant
            d0 == old(t).deliverable(),
            w0 == old(t).written(),
            t.written() == w0,
            (match dechunk(t.deliverable()) {
                ChunkParse::ChunkDone(b, r2) => dechunk(d0) == ChunkParse::ChunkDone(
                    body@ + b,
                    r2,
                ),
                ChunkParse::ChunkBad => dechunk(d0) is ChunkBad,
            }),
        decreases t.deliverable().len(),
    {
        let ghost di = t.deliverable();
        let line = match t.read_line() {
            Err(e) => {
                return Err(e);
            },
            Ok(None) => {
                proof {
                    assert(dechunk(di) is ChunkBad);
                }
                return Err(HttpError::MalformedChunkFraming);
            },
            Ok(Some(l)) => l,
        };
        proof {
            assert(line@.skip(0) =~= line@);
        }
        let tok = match find_first(&line, 0, SEMI) {
            Some(i) => sub_vec(&line, 0, i),
            None => copy_bytes(&line),
        };
        proof {
            assert(tok@ =~= chunk_size_token(line@));
        }
        let n = match parse_hex(&tok) {
            None => {
                proof {
                    assert(chunk_size_token(line_of(di)) == tok@);
                    assert(dechunk(di) is ChunkBad);
                }
                return Err(HttpError::MalformedChunkFraming);
            },
            Some(n) => n,
        };
        if n == 0 {
            proof {
                assert(chunk_size_token(line_of(di)) == tok@);
                match skip_trailers(t.deliverable()) {
                    Some(r2) => {
                        assert(dechunk(di) == ChunkParse::ChunkDone(Seq::empty(), r2));
                        assert(body@ + Seq::<u8>::empty() =~= body@);
                    },
                    None => {
                        assert(dechunk(di) is ChunkBad);
                    },
                }
            }
            // terminating chunk: consume trailers up to the blank line
            loop
                invariant
                    d0 == old(t).deliverable(),
                    w0 == old(t).written(),
                    t.written() == w0,
                    (match skip_trailers(t.deliverable()) {
                        Some(r2) => dechunk(d0) == ChunkParse::ChunkDone(body@, r2),
                        None => dechunk(d0) is ChunkBad,
                    }),
                decreases t.deliverable().len(),
            {
                let ghost ci = t.deliverable();
                match t.read_line() {
                    Err(e) => {
                        return Err(e);
                    },
                    Ok(None) => {
                        proof {
                            assert(skip_trailers(ci) is None);
                        }
                        return Err(HttpError::MalformedChunkFraming);
                    },
                    Ok(Some(l2)) => {
                        if l2.len() == 0 {
                            proof {
                                assert(line_of(ci).len() == 0);
                                assert(skip_trailers(ci) == Some(after_line(ci)));
                            }
                            return Ok(body);
                        }
                        proof {
                            assert(line_of(ci).len() != 0);
                            assert(skip_trailers(ci) == skip_trailers(after_line(ci)));
                        }
                    },
                }
            }
        } else {
            proof {
                assert(chunk_size_token(line_of(di)) == tok@);
            }
            let data = match t.read_exact(n as usize) {
                Err(e) => {
                    match e {
                        HttpError::UnexpectedEof => {
                            proof {
                                assert(after_line(di).len() < n);
                                assert(dechunk(di) is ChunkBad);
                            }
                            return Err(HttpError::MalformedChunkFraming);
                        },
                        _ => {
                            return Err(e);
                        },
                    }
                },
                Ok(d) => d,
            };
            let ghost r2 = t.deliverable();
            match t.read_line() {
                Err(e) => {
                    return Err(e);
                },
                Ok(None) => {
                    proof {
                        assert(first_pos(r2, LF) < 0);
                        assert(dechunk(di) is ChunkBad);
                    }
                    return Err(HttpError::MalformedChunkFraming);
                },
                Ok(Some(l3)) => {
                    if l3.len() != 0 {
                        proof {
                            assert(line_of(r2).len() != 0);
                            assert(dechunk(di) is ChunkBad);
                        }
                        return Err(HttpError::MalformedChunkFraming);
                    }
                },
            }
            proof {
                match dechunk(t.deliverable()) {
                    ChunkParse::ChunkDone(b2, r3) => {
                        assert(dechunk(di) == ChunkParse::ChunkDone(data@ + b2, r3));
                        assert(body@ + (data@ + b2) =~= (body@ + data@) + b2);
                    },
                    ChunkParse::ChunkBad => {
                        assert(dechunk(di) is ChunkBad);
                    },
                }
            }
            let mut d2 = data;
            body.append(&mut d2);
        }
    }
}

// ---------------------------------------------------------------------------
// The connection
// ---------------------------------------------------------------------------

/// Observable connection states. A connection is `Open` when fresh, `Idle`
/// after a completed exchange that kept the transport reusable, and
/// `Closed` after an error, a close-delimited body, or an explicit close.
/// During `send` an exchange is in flight; `send` resolves fully before
/// returning, so no in-between state is ever observable.
#[derive(Clone, Copy, Debug, PartialEq, Eq, Structural)]
pub enum ConnState {
    Open,
    Idle,
    Closed,
}

/// One connection, exclusively owning its transport.
pub struct Connection<T: Transport> {
    transport: T,
    state: ConnState,
}

impl<T: Transport> Connection<T> {
    pub closed spec fn st(&self) -> ConnState {
        self.state
    }

    pub closed spec fn deliverable(&self) -> Seq<u8> {
        self.transport.deliverable()
    }

    pub closed spec fn written(&self) -> Seq<u8> {
        self.transport.written()
    }

    /// A connection accepts a further `send` only while `Open` or `Idle`.
    pub open spec fn reusable(&self) -> bool {
        self.st() == ConnState::Open || self.st() == ConnState::Idle
    }

    /// Takes exclusive ownership of an established transport.
    pub fn new(t: T) -> (c: Connection<T>)
        ensures
            c.st() == ConnState::Open,
            c.deliverable() == t.deliverable(),
            c.written() == t.written(),
    {
        Connection { transport: t, state: ConnState::Open }
    }

    pub fn state(&self) -> (s: ConnState)
        ensures
            s == self.st(),
    {
        self.state
    }

    /// A view of the owned transport, for inspecting what was written.
    pub fn transport(&self) -> (t: &T)
        ensures
            t.deliverable() == self.deliverable(),
            t.written() == self.written(),
    {
        &self.transport
    }

    /// Explicit shutdown: closes the transport and the connection.
    pub fn close(&mut self)
        ensures
            final(self).st() == ConnState::Closed,
    {
        self.transport.shutdown();
        self.state = ConnState::Closed;
    }

    /// The sole exchange operation: writes the serialized request, reads
    /// and parses the response head, frames and reads the body, and
    /// updates the connection state. On a closed connection it fails
    /// without touching the transport; any other error also closes the
    /// connection.
    pub fn send(&mut self, req: &Request) -> (r: Result<Response, HttpError>)
        ensures
            !old(self).reusable() ==> r == Err::<Response, HttpError>(HttpError::ConnectionClosed)
                && *final(self) == *old(self),
            old(self).reusable() ==> ({
                let d0 = old(self).deliverable();
                match r {
                    Ok(resp) => {
                        &&& final(self).written() == old(self).written() + request_bytes(*req)
                        &&& head_ok(d0)
                        &&& resp.status == head_status(d0)
                        &&& hview(resp.headers@) == head_fields(d0)
                        &&& body_outcome(
                            response_framing(req.method, d0),
                            head_rest(d0),
                            resp.body@,
                            final(self).deliverable(),
                            final(self).st() == ConnState::Idle,
                        )
                        &&& final(self).st() == ConnState::Idle || final(self).st()
                            == ConnState::Closed
                    },
                    Err(e) => final(self).st() == ConnState::Closed && send_failure(
                        req.method,
                        d0,
                        e,
                    ),
                }
            }),
    {
        match self.state {
            ConnState::Closed => {
                return Err(HttpError::ConnectionClosed);
            },
            _ => {},
        }
        let bytes = serialize_request(req);
        match self.transport.write_all(&bytes) {
            Ok(()) => {},
            Err(e) => {
                self.state = ConnState::Closed;
                return Err(e);
            },
        }
        let status = match read_status_line(&mut self.transport) {
            Ok(s) => s,
            Err(e) => {
                self.state = ConnState::Closed;
                return Err(e);
            },
        };
        let headers = match read_header_block(&mut self.transport) {
            Ok(h) => h,
            Err(e) => {
                self.state = ConnState::Closed;
                return Err(e);
            },
        };
        let fr = classify(req.method, status, &headers);
        let mut reusable = true;
        let body = match fr {
            Framing::NoBody => Vec::new(),
            Framing::Chunked => match read_chunked(&mut self.transport) {
                Ok(b) => b,
                Err(e) => {
                    self.state = ConnState::Closed;
                    return Err(e);
                },
            },
            Framing::Fixed(nn) => match self.transport.read_exact(nn as usize) {
                Ok(b) => b,
                Err(e) => {
                    self.state = ConnState::Closed;
                    return Err(e);
                },
            },
            Framing::Close => {
                reusable = false;
                match self.transport.read_to_end() {
                    Ok(b) => b,
                    Err(e) => {
                        self.state = ConnState::Closed;
                        return Err(e);
                    },
                }
            },
        };
        self.state = if reusable {
            ConnState::Idle
        } else {
            ConnState::Closed
        };
        Ok(Response { status, headers, body })
    }
}

} // verus!
