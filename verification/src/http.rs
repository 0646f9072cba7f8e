//! Plain request and response values, and the error taxonomy the gateway
//! maps onto HTTP statuses.
//!
//! The transport hands the library one `Request` per inbound call and takes
//! one `Response` back; nothing here is retained across requests.

use vstd::prelude::*;

verus! {

/// The request methods the gateway distinguishes.  Anything beyond the two
/// it routes on is carried as `Other` and never matches a procedure call.
#[derive(PartialEq, Eq, Structural, Clone, Copy, Debug)]
pub enum Method {
    Get,
    Post,
    Other,
}

/// An inbound request, transient and scoped to one dispatch.
pub struct Request {
    pub method: Method,
    pub path: String,
    pub content_type: String,
    pub body: String,
}

/// An outbound response, produced fresh per request.
pub struct Response {
    pub status: u16,
    pub content_type: String,
    pub body: String,
}

/// The error classes a request can end in.  A domain error reported by a
/// procedure is not among them: it travels inside a success envelope.
#[derive(PartialEq, Eq, Structural, Clone, Copy, Debug)]
pub enum ErrorClass {
    RouteNotFound,
    MethodNotAllowed,
    DecodeError,
    RenderFailure,
}

/// The HTTP status each error class surfaces as.
pub open spec fn spec_status_of(e: ErrorClass) -> int {
    match e {
        ErrorClass::RouteNotFound => 404,
        ErrorClass::MethodNotAllowed => 405,
        ErrorClass::DecodeError => 400,
        ErrorClass::RenderFailure => 500,
    }
}

/// The HTTP status for an error class.
pub fn status_of(e: ErrorClass) -> (s: u16)
    ensures
        s as int == spec_status_of(e),
{
    match e {
        ErrorClass::RouteNotFound => 404,
        ErrorClass::MethodNotAllowed => 405,
        ErrorClass::DecodeError => 400,
        ErrorClass::RenderFailure => 500,
    }
}

/// Content type of rendered page documents.
pub open spec fn html_type() -> Seq<char> {
    "text/html"@
}

/// Content type of the form codec, for procedure requests and responses.
pub open spec fn form_type() -> Seq<char> {
    "application/x-www-form-urlencoded"@
}

/// Content type of plain diagnostic bodies.
pub open spec fn plain_type() -> Seq<char> {
    "text/plain"@
}

pub fn html_type_text() -> (r: String)
    ensures
        r@ == html_type(),
{
    String::from_str("text/html")
}

pub fn form_type_text() -> (r: String)
    ensures
        r@ == form_type(),
{
    String::from_str("application/x-www-form-urlencoded")
}

pub fn plain_type_text() -> (r: String)
    ensures
        r@ == plain_type(),
{
    String::from_str("text/plain")
}

/// Character-exact string comparison.
pub fn str_eq(a: &str, b: &str) -> (r: bool)
    ensures
        r == (a@ == b@),
{
    let na = a.unicode_len();
    let nb = b.unicode_len();
    if na != nb {
        return false;
    }
    let mut i: usize = 0;
    while i < na
        invariant
            0 <= i <= na,
            na == a@.len(),
            na == b@.len(),
            forall|p: int| 0 <= p < i ==> a@[p] == b@[p],
        decreases na - i,
    {
        if a.get_char(i) != b.get_char(i) {
            return false;
        }
        i = i + 1;
    }
    proof {
        assert(a@ =~= b@);
    }
    true
}

} // verus!
