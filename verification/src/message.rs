//! The message model: methods, requests, responses, and ordered header
//! lists with case-insensitive lookup.

use vstd::prelude::*;
use crate::bytes::{is_ws, lower_seq, eq_ignore_case, trim_spec, CR, LF, sub_vec};

verus! {

/// The closed set of request methods. `Head` is distinguished because it
/// suppresses body reading regardless of the response headers.
#[derive(Clone, Copy, Debug, PartialEq, Eq, Structural)]
pub enum Method {
    Get,
    Head,
    Post,
    Put,
    Patch,
    Delete,
    Options,
}

/// The literal uppercase token of a method.
pub open spec fn method_token(m: Method) -> Seq<u8> {
    match m {
        Method::Get => seq![71u8, 69u8, 84u8],
        Method::Head => seq![72u8, 69u8, 65u8, 68u8],
        Method::Post => seq![80u8, 79u8, 83u8, 84u8],
        Method::Put => seq![80u8, 85u8, 84u8],
        Method::Patch => seq![80u8, 65u8, 84u8, 67u8, 72u8],
        Method::Delete => seq![68u8, 69u8, 76u8, 69u8, 84u8, 69u8],
        Method::Options => seq![79u8, 80u8, 84u8, 73u8, 79u8, 78u8, 83u8],
    }
}

impl Method {
    /// Serializes the method to its literal uppercase token.
    pub fn token(&self) -> (r: Vec<u8>)
        ensures
            r@ == method_token(*self),
    {
        let mut v: Vec<u8> = Vec::new();
        match self {
            Method::Get => {
                v.push(71);
                v.push(69);
                v.push(84);
            },
            Method::Head => {
                v.push(72);
                v.push(69);
                v.push(65);
                v.push(68);
            },
            Method::Post => {
                v.push(80);
                v.push(79);
                v.push(83);
                v.push(84);
            },
            Method::Put => {
                v.push(80);
                v.push(85);
                v.push(84);
            },
            Method::Patch => {
                v.push(80);
                v.push(65);
                v.push(84);
                v.push(67);
                v.push(72);
            },
            Method::Delete => {
                v.push(68);
                v.push(69);
                v.push(76);
                v.push(69);
                v.push(84);
                v.push(69);
            },
            Method::Options => {
                v.push(79);
                v.push(80);
                v.push(84);
                v.push(73);
                v.push(79);
                v.push(78);
                v.push(83);
            },
        }
        proof {
            assert(v@ =~= method_token(*self));
        }
        v
    }
}

/// An ordered header list: duplicates allowed, insertion order preserved.
pub type HeaderList = Vec<(Vec<u8>, Vec<u8>)>;

/// The mathematical view of a header list: a sequence of (name, value)
/// byte-string pairs.
pub open spec fn hview(h: Seq<(Vec<u8>, Vec<u8>)>) -> Seq<(Seq<u8>, Seq<u8>)> {
    h.map_values(|p: (Vec<u8>, Vec<u8>)| (p.0@, p.1@))
}

pub proof fn lemma_hview_index(h: Seq<(Vec<u8>, Vec<u8>)>, i: int)
    requires
        0 <= i < h.len(),
    ensures
        hview(h).len() == h.len(),
        hview(h)[i] == (h[i].0@, h[i].1@),
{
}

/// The value of the last header whose name case-folds to `name` (itself
/// given already lowercase), or `None`. Last occurrence wins, as the wire
/// format permits duplicates.
pub open spec fn last_value(hs: Seq<(Seq<u8>, Seq<u8>)>, name: Seq<u8>) -> Option<Seq<u8>>
    decreases hs.len(),
{
    if hs.len() == 0 {
        None
    } else if lower_seq(hs.last().0) == name {
        Some(hs.last().1)
    } else {
        last_value(hs.drop_last(), name)
    }
}

/// Copies a byte string.
pub fn copy_bytes(v: &Vec<u8>) -> (r: Vec<u8>)
    ensures
        r@ == v@,
{
    let r = sub_vec(v, 0, v.len());
    proof {
        assert(v@.subrange(0, v@.len() as int) =~= v@);
    }
    r
}

/// Case-insensitive lookup of the last header named `name` (given
/// lowercase).
pub fn lookup_last(h: &HeaderList, name: &Vec<u8>) -> (r: Option<Vec<u8>>)
    requires
        lower_seq(name@) == name@,
    ensures
        match r {
            Some(v) => last_value(hview(h@), name@) == Some(v@),
            None => last_value(hview(h@), name@) is None,
        },
{
    let mut i: usize = h.len();
    proof {
        assert(h@.take(h@.len() as int) =~= h@);
    }
    while i > 0
        invariant
            i <= h@.len(),
            lower_seq(name@) == name@,
            last_value(hview(h@), name@) == last_value(hview(h@.take(i as int)), name@),
        decreases i,
    {
        i -= 1;
        proof {
            assert(hview(h@.take(i + 1)).drop_last() =~= hview(h@.take(i as int)));
            assert(hview(h@.take(i + 1)).last() == (h@[i as int].0@, h@[i as int].1@));
        }
        if eq_ignore_case(&h[i].0, name) {
            return Some(copy_bytes(&h[i].1));
        }
    }
    proof {
        assert(h@.take(0) =~= Seq::<(Vec<u8>, Vec<u8>)>::empty());
        assert(hview(h@.take(0)) =~= Seq::<(Seq<u8>, Seq<u8>)>::empty());
    }
    None
}

/// The parsed parts of a URI that the engine reads: host, port, path, and
/// optional query, all as plain values.
#[derive(Debug)]
pub struct UrlParts {
    pub host: Vec<u8>,
    pub port: u16,
    pub path: Vec<u8>,
    pub query: Option<Vec<u8>>,
}

pub open spec fn opt_view(q: Option<Vec<u8>>) -> Option<Seq<u8>> {
    match q {
        Some(v) => Some(v@),
        None => None,
    }
}

/// The request target: the path alone when there is no query, otherwise
/// `path + "?" + query` (never a trailing `?` with an empty query marker).
pub open spec fn target_of(path: Seq<u8>, query: Option<Seq<u8>>) -> Seq<u8> {
    match query {
        Some(q) => path + seq![63u8] + q,
        None => path,
    }
}

/// The name of the mandatory `host` header.
pub open spec fn host_name() -> Seq<u8> {
    seq![104u8, 111u8, 115u8, 116u8]
}

/// A request: method, target (path plus optional query; no scheme or
/// authority), ordered headers, and body.
#[derive(Debug)]
pub struct Request {
    pub method: Method,
    pub target: Vec<u8>,
    pub headers: HeaderList,
    pub body: Vec<u8>,
}

/// A response: status code, ordered headers, and body.
#[derive(Debug, PartialEq, Eq)]
pub struct Response {
    pub status: u16,
    pub headers: HeaderList,
    pub body: Vec<u8>,
}

impl Request {
    /// A GET request for the given URI parts, with the mandatory `host`
    /// header populated from the authority. Callers may add or override
    /// headers before sending.
    pub fn get(u: &UrlParts) -> (r: Request)
        ensures
            r.method == Method::Get,
            r.target@ == target_of(u.path@, opt_view(u.query)),
            hview(r.headers@) =~= seq![(host_name(), u.host@)],
            r.body@ == Seq::<u8>::empty(),
    {
        let mut target = copy_bytes(&u.path);
        match &u.query {
            Some(q) => {
                target.push(63);
                let mut qc = copy_bytes(q);
                target.append(&mut qc);
                proof {
                    assert(target@ =~= target_of(u.path@, opt_view(u.query)));
                }
            },
            None => {},
        }
        let mut hname: Vec<u8> = Vec::new();
        hname.push(104);
        hname.push(111);
        hname.push(115);
        hname.push(116);
        proof {
            assert(hname@ =~= host_name());
        }
        let hval = copy_bytes(&u.host);
        let mut headers: HeaderList = Vec::new();
        headers.push((hname, hval));
        Request { method: Method::Get, target, headers, body: Vec::new() }
    }
}

// ---------------------------------------------------------------------------
// Wire safety: what serialization may assume so that a compliant reader
// recovers exactly what was written.
// ---------------------------------------------------------------------------

/// A target is wire-safe when it is non-empty and free of whitespace and
/// line breaks, so that it survives as one token of the request line.
pub open spec fn token_safe(s: Seq<u8>) -> bool {
    s.len() > 0 && forall|i: int|
        0 <= i < s.len() ==> !is_ws(s[i]) && s[i] != CR && s[i] != LF
}

/// A header name is wire-safe when it has no colon and no line break, and
/// carries no surrounding whitespace that a reader would trim away.
pub open spec fn name_safe(s: Seq<u8>) -> bool {
    &&& forall|i: int| 0 <= i < s.len() ==> s[i] != 58 && s[i] != CR && s[i] != LF
    &&& trim_spec(s) == s
}

/// A header value is wire-safe when it has no line break and no
/// surrounding whitespace.
pub open spec fn value_safe(s: Seq<u8>) -> bool {
    &&& forall|i: int| 0 <= i < s.len() ==> s[i] != CR && s[i] != LF
    &&& trim_spec(s) == s
}

/// A request whose serialized form a compliant reader parses back exactly.
pub open spec fn request_wf(r: Request) -> bool {
    &&& token_safe(r.target@)
    &&& forall|i: int|
        0 <= i < r.headers@.len() ==> #[trigger] name_safe(r.headers@[i].0@)
            && value_safe(r.headers@[i].1@)
}

} // verus!
