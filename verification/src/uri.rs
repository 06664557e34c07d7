//! From an absolute URL string to the parts the engine reads. The parsing
//! itself is done by the `url` crate; the engine only consumes the plain
//! values it extracts.

use vstd::prelude::*;
use crate::message::{Method, Request, UrlParts, hview, host_name, target_of, opt_view};

verus! {

/// What parsing an absolute URL yields — host bytes, port, path bytes, and
/// optional query bytes — or nothing, when the string does not parse or
/// names no host or default port. The result depends on the string alone;
/// stating URL parsing in full is beyond a contract of a few lines, so the
/// result is only named here.
pub uninterp spec fn parsed_url(s: Seq<char>) -> Option<
    (Seq<u8>, u16, Seq<u8>, Option<Seq<u8>>),
>;

/// Relies on `url::Url::parse` and its accessors `host_str`,
/// `port_or_known_default`, `path` and `query`: each is a pure function of
/// the parsed URL, so the extracted parts depend on the input string
/// alone.
#[verifier::external_body]
fn parse_url_parts(s: &str) -> (r: Option<UrlParts>)
    ensures
        match r {
            Some(u) => parsed_url(s@) == Some((u.host@, u.port, u.path@, opt_view(u.query))),
            None => parsed_url(s@) is None,
        },
{
    let url = url::Url::parse(s).ok()?;
    let host = url.host_str()?.as_bytes().to_vec();
    let port = url.port_or_known_default()?;
    let path = url.path().as_bytes().to_vec();
    let query = url.query().map(|q| q.as_bytes().to_vec());
    Some(UrlParts { host, port, path, query })
}

/// Parses an absolute URL and builds the GET request for it, returning the
/// URL's parts (for establishing the transport) alongside the request.
pub fn request_for_url(s: &str) -> (r: Option<(UrlParts, Request)>)
    ensures
        match parsed_url(s@) {
            Some((host, port, path, query)) => r matches Some((u, req)) && u.host@ == host
                && u.port == port && u.path@ == path && opt_view(u.query) == query
                && req.method == Method::Get && req.target@ == target_of(path, query) && hview(
                req.headers@,
            ) == seq![(host_name(), host)] && req.body@.len() == 0,
            None => r is None,
        },
{
    match parse_url_parts(s) {
        Some(u) => {
            let req = Request::get(&u);
            Some((u, req))
        },
        None => None,
    }
}

} // verus!
