//! The transport collaborator: a byte-oriented duplex stream abstraction,
//! assumed already established (and, for https, already TLS-terminated).
//! The engine is verified against the trait's contracts alone; an
//! in-memory transport is provided and verified against them too, so every
//! contract is inhabited by checked code.

use vstd::prelude::*;
use crate::HttpError;
use crate::bytes::{CR, LF, first_pos, line_of, after_line, sub_vec, find_first};
use crate::message::copy_bytes;

verus! {

/// A reliable, ordered duplex byte stream. `deliverable` models the bytes
/// the stream will still deliver before end of stream; `written` the bytes
/// sent to the peer so far. Reads consume from the front of `deliverable`;
/// any operation may instead fail with `Transport` or `Timeout`, after
/// which the caller must treat the stream as dead.
pub trait Transport: Sized {
    /// The bytes the stream will still deliver before end of stream. The
    /// default stands only for impls outside the verifier's view; a
    /// verified impl gives its own.
    open spec fn deliverable(&self) -> Seq<u8> {
        Seq::empty()
    }

    /// The bytes written to the peer so far.
    open spec fn written(&self) -> Seq<u8> {
        Seq::empty()
    }

    /// Writes all of `data` to the peer.
    fn write_all(&mut self, data: &Vec<u8>) -> (r: Result<(), HttpError>)
        ensures
            match r {
                Ok(()) => final(self).written() == old(self).written() + data@
                    && final(self).deliverable() == old(self).deliverable(),
                Err(e) => e == HttpError::Transport || e == HttpError::Timeout,
            },
    ;

    /// Reads one line, consuming through the first LF; the returned
    /// payload has the LF and an optional preceding CR stripped.
    /// `Ok(None)` means the stream ended with no line left; whatever
    /// partial data preceded the end is discarded.
    fn read_line(&mut self) -> (r: Result<Option<Vec<u8>>, HttpError>)
        ensures
            match r {
                Ok(Some(l)) => first_pos(old(self).deliverable(), LF) >= 0
                    && l@ == line_of(old(self).deliverable())
                    && final(self).deliverable() == after_line(old(self).deliverable())
                    && final(self).written() == old(self).written(),
                Ok(None) => first_pos(old(self).deliverable(), LF) < 0
                    && final(self).deliverable().len() == 0
                    && final(self).written() == old(self).written(),
                Err(e) => e == HttpError::Transport || e == HttpError::Timeout,
            },
    ;

    /// Reads exactly `n` bytes; fewer bytes before end of stream is an
    /// `UnexpectedEof`.
    fn read_exact(&mut self, n: usize) -> (r: Result<Vec<u8>, HttpError>)
        ensures
            match r {
                Ok(v) => old(self).deliverable().len() >= n
                    && v@ == old(self).deliverable().take(n as int)
                    && final(self).deliverable() == old(self).deliverable().skip(n as int)
                    && final(self).written() == old(self).written(),
                Err(e) => {
                    &&& (e == HttpError::UnexpectedEof || e == HttpError::Transport
                        || e == HttpError::Timeout)
                    &&& e == HttpError::UnexpectedEof ==> old(self).deliverable().len() < n
                },
            },
    ;

    /// Reads everything up to end of stream.
    fn read_to_end(&mut self) -> (r: Result<Vec<u8>, HttpError>)
        ensures
            match r {
                Ok(v) => v@ == old(self).deliverable()
                    && final(self).deliverable().len() == 0
                    && final(self).written() == old(self).written(),
                Err(e) => e == HttpError::Transport || e == HttpError::Timeout,
            },
    ;

    /// Closes the stream; nothing further will be delivered.
    fn shutdown(&mut self)
        ensures
            final(self).deliverable().len() == 0,
    ;
}

/// An in-memory transport: it delivers a fixed byte sequence and records
/// what is written. It exercises the engine without any I/O and is the
/// checked witness that the trait's contracts can be met.
pub struct MemTransport {
    input: Vec<u8>,
    out: Vec<u8>,
}

impl MemTransport {
    /// A transport that will deliver exactly `input` and then signal end
    /// of stream.
    pub fn new(input: Vec<u8>) -> (t: MemTransport)
        ensures
            t.deliverable() == input@,
            t.written() == Seq::<u8>::empty(),
    {
        MemTransport { input, out: Vec::new() }
    }

    /// The bytes written so far.
    pub fn written_bytes(&self) -> (r: &Vec<u8>)
        ensures
            r@ == self.written(),
    {
        &self.out
    }

    /// The bytes not yet delivered.
    pub fn leftover(&self) -> (r: &Vec<u8>)
        ensures
            r@ == self.deliverable(),
    {
        &self.input
    }
}

impl Transport for MemTransport {
    closed spec fn deliverable(&self) -> Seq<u8> {
        self.input@
    }

    closed spec fn written(&self) -> Seq<u8> {
        self.out@
    }

    fn write_all(&mut self, data: &Vec<u8>) -> (r: Result<(), HttpError>) {
        let mut c = copy_bytes(data);
        self.out.append(&mut c);
        Ok(())
    }

    fn read_line(&mut self) -> (r: Result<Option<Vec<u8>>, HttpError>) {
        proof {
            assert(self.input@.skip(0) =~= self.input@);
        }
        match find_first(&self.input, 0, LF) {
            None => {
                self.input = Vec::new();
                Ok(None)
            },
            Some(i) => {
                let mut line = sub_vec(&self.input, 0, i);
                proof {
                    assert(line@ =~= self.input@.take(i as int));
                }
                let ll = line.len();
                if ll > 0 && line[ll - 1] == CR {
                    line.pop();
                }
                let n = self.input.len();
                assert(i < n);
                let rest = sub_vec(&self.input, i + 1, n);
                proof {
                    assert(rest@ =~= self.input@.skip(i + 1));
                }
                self.input = rest;
                Ok(Some(line))
            },
        }
    }

    fn read_exact(&mut self, n: usize) -> (r: Result<Vec<u8>, HttpError>) {
        if self.input.len() < n {
            self.input = Vec::new();
            return Err(HttpError::UnexpectedEof);
        }
        let data = sub_vec(&self.input, 0, n);
        let rest = sub_vec(&self.input, n, self.input.len());
        proof {
            assert(data@ =~= self.input@.take(n as int));
            assert(rest@ =~= self.input@.skip(n as int));
        }
        self.input = rest;
        Ok(data)
    }

    fn read_to_end(&mut self) -> (r: Result<Vec<u8>, HttpError>) {
        let data = copy_bytes(&self.input);
        self.input = Vec::new();
        Ok(data)
    }

    fn shutdown(&mut self) {
        self.input = Vec::new();
    }
}

} // verus!
