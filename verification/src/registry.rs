//! The procedure registry and its dispatch contract.
//!
//! A registry maps a stable procedure name to a descriptor: the argument
//! schema and the handler kind.  It is built once at process start — a
//! cold-starting runtime rebuilds it deterministically on every start — and
//! is read-only for the rest of the process lifetime.  Dispatch looks a name
//! up, decodes the body against the descriptor's schema, runs the handler
//! exactly once, and encodes the outcome; a domain error reported by the
//! handler travels in a success envelope, never as an HTTP-level error.

use vstd::prelude::*;

use crate::codec::spec_decode_form;
use crate::codec::spec_encode_form;
use crate::codec::spec_encode_envelope;
use crate::codec::spec_decode_envelope;
use crate::codec::outcome_view;
use crate::codec::ints_of;
use crate::codec::wf_key;
use crate::codec::decode_form;
use crate::codec::encode_envelope;
use crate::codec::lemma_form_round_trip;
use crate::codec::lemma_decode_form_sound;
use crate::codec::lemma_envelope_round_trip;
use crate::http::ErrorClass;
use crate::http::Response;
use crate::http::status_of;
use crate::http::form_type;
use crate::http::plain_type;
use crate::http::form_type_text;
use crate::http::plain_type_text;
use crate::http::str_eq;

verus! {

/// The handler behaviours the process registers.  Each variant stands for
/// one server-side procedure body.
#[derive(PartialEq, Eq, Structural, Clone, Copy, Debug)]
pub enum ProcKind {
    AddNumbers,
}

/// How many arguments a handler kind takes.
pub open spec fn arity_of(k: ProcKind) -> int {
    match k {
        ProcKind::AddNumbers => 2,
    }
}

/// The message a handler reports when its arithmetic leaves the
/// representable range.
pub open spec fn overflow_text() -> Seq<char> {
    "overflow"@
}

/// What a handler computes, as a function of its decoded arguments.  A
/// domain-level failure is an `Err` value: part of the procedure's own
/// result type, not a transport error.
pub open spec fn spec_apply(k: ProcKind, args: Seq<int>) -> Result<int, Seq<char>>
    recommends
        args.len() == arity_of(k),
{
    match k {
        ProcKind::AddNumbers => if i64::MIN <= args[0] + args[1] <= i64::MAX {
            Ok(args[0] + args[1])
        } else {
            Err(overflow_text())
        },
    }
}

/// Add two numbers on the server; the sum that leaves the representable
/// range is reported as a domain error rather than a crash.
pub fn add_numbers(a: i64, b: i64) -> (r: Result<i64, String>)
    ensures
        outcome_view(r) == spec_apply(ProcKind::AddNumbers, seq![a as int, b as int]),
{
    if b > 0 && a > i64::MAX - b {
        Err(String::from_str("overflow"))
    } else if b < 0 && a < i64::MIN - b {
        Err(String::from_str("overflow"))
    } else {
        Ok(a + b)
    }
}

/// Run a handler on its decoded arguments, exactly once.
pub fn apply(k: ProcKind, args: &Vec<i64>) -> (r: Result<i64, String>)
    requires
        args.len() == arity_of(k),
    ensures
        outcome_view(r) == spec_apply(k, ints_of(args@)),
{
    match k {
        ProcKind::AddNumbers => {
            let r = add_numbers(args[0], args[1]);
            proof {
                assert(seq![args@[0] as int, args@[1] as int] =~= ints_of(args@));
            }
            r
        },
    }
}

/// A registered procedure: its stable, globally unique name, its argument
/// schema in wire order, and its handler kind.
pub struct Descriptor {
    pub name: String,
    pub arg_names: Vec<String>,
    pub kind: ProcKind,
}

impl Descriptor {
    /// Schema arity matches the handler, every field name is a usable form
    /// key, and the procedure name is nonempty.
    pub open spec fn wf(self) -> bool {
        &&& self.name@.len() >= 1
        &&& self.arg_names.len() == arity_of(self.kind)
        &&& forall|i: int|
            0 <= i < self.arg_names.len() ==> wf_key(#[trigger] self.arg_names.deep_view()[i])
    }
}

/// The process-wide procedure registry: built once at start, immutable
/// afterwards, no two descriptors sharing a name.
pub struct Registry {
    pub procs: Vec<Descriptor>,
}

impl Registry {
    pub open spec fn wf(self) -> bool {
        &&& forall|i: int| 0 <= i < self.procs.len() ==> (#[trigger] self.procs@[i]).wf()
        &&& forall|i: int, j: int|
            0 <= i < j < self.procs.len() ==> (#[trigger] self.procs@[i]).name@ != (
            #[trigger] self.procs@[j]).name@
    }

    /// Is a procedure of this name registered?
    pub open spec fn spec_contains(self, name: Seq<char>) -> bool {
        exists|i: int| 0 <= i < self.procs.len() && (#[trigger] self.procs@[i]).name@ == name
    }

    /// The descriptor registered under a name (unique when the registry is
    /// well formed).
    pub open spec fn spec_get(self, name: Seq<char>) -> Descriptor {
        self.procs@[choose|i: int|
            0 <= i < self.procs.len() && (#[trigger] self.procs@[i]).name@ == name]
    }

    /// Look a procedure name up.  Returns the unique matching descriptor,
    /// or `None` exactly when no descriptor carries the name.
    pub fn lookup<'a>(&'a self, name: &str) -> (r: Option<&'a Descriptor>)
        requires
            self.wf(),
        ensures
            match r {
                Some(d) => self.spec_contains(name@) && *d == self.spec_get(name@),
                None => !self.spec_contains(name@),
            },
    {
        let mut i: usize = 0;
        while i < self.procs.len()
            invariant
                0 <= i <= self.procs.len(),
                self.wf(),
                forall|p: int| 0 <= p < i ==> (#[trigger] self.procs@[p]).name@ != name@,
            decreases self.procs.len() - i,
        {
            if str_eq(self.procs[i].name.as_str(), name) {
                let d = &self.procs[i];
                proof {
                    let w = choose|p: int|
                        0 <= p < self.procs.len() && (#[trigger] self.procs@[p]).name@ == name@;
                    if w != i as int {
                        assert(self.procs@[w].name@ == self.procs@[i as int].name@);
                    }
                }
                return Some(d);
            }
            i = i + 1;
        }
        None
    }
}

/// How many arguments a handler kind takes.
pub fn arity(k: ProcKind) -> (n: usize)
    ensures
        n as int == arity_of(k),
{
    match k {
        ProcKind::AddNumbers => 2,
    }
}

/// Is this text usable as a form field name?
pub fn check_key(k: &str) -> (r: bool)
    ensures
        r == wf_key(k@),
{
    let n = k.unicode_len();
    if n == 0 {
        return false;
    }
    let mut i: usize = 0;
    while i < n
        invariant
            0 <= i <= n,
            n == k@.len(),
            forall|p: int| 0 <= p < i ==> #[trigger] k@[p] != '&' && k@[p] != '=',
        decreases n - i,
    {
        let c = k.get_char(i);
        if c == '&' || c == '=' {
            return false;
        }
        i = i + 1;
    }
    true
}

impl Registry {
    /// Register a descriptor, before the first request is routed.
    ///
    /// The descriptor is validated and its name checked for uniqueness at
    /// registration time, so a duplicate-name bug surfaces before any
    /// request is served: an invalid or duplicate descriptor is refused and
    /// the registry is left unchanged.
    pub fn register(&mut self, d: Descriptor) -> (accepted: bool)
        requires
            old(self).wf(),
        ensures
            final(self).wf(),
            accepted == (d.wf() && !old(self).spec_contains(d.name@)),
            accepted ==> final(self).procs@ == old(self).procs@.push(d),
            !accepted ==> *final(self) == *old(self),
    {
        if d.name.as_str().unicode_len() == 0 {
            return false;
        }
        if d.arg_names.len() != arity(d.kind) {
            return false;
        }
        let mut i: usize = 0;
        while i < d.arg_names.len()
            invariant
                0 <= i <= d.arg_names.len(),
                *self == *old(self),
                old(self).wf(),
                forall|p: int| 0 <= p < i ==> wf_key(#[trigger] d.arg_names.deep_view()[p]),
            decreases d.arg_names.len() - i,
        {
            if !check_key(d.arg_names[i].as_str()) {
                proof {
                    assert(d.arg_names.deep_view()[i as int] == d.arg_names@[i as int]@);
                    assert(!d.wf());
                }
                return false;
            }
            i = i + 1;
        }
        if self.lookup(d.name.as_str()).is_some() {
            return false;
        }
        proof {
            assert(d.wf());
        }
        self.procs.push(d);
        proof {
            assert forall|a: int, b: int|
                0 <= a < b < self.procs.len() implies (#[trigger] self.procs@[a]).name@ != (
            #[trigger] self.procs@[b]).name@ by {
                if b == self.procs.len() - 1 {
                    assert(self.procs@[a] == old(self).procs@[a]);
                    assert(old(self).spec_contains(d.name@) == false);
                }
            }
        }
        true
    }
}

/// Diagnostic body of a dispatch against an unregistered name.
pub open spec fn proc_not_found_text() -> Seq<char> {
    "procedure not found"@
}

/// Diagnostic body of a dispatch whose arguments could not be decoded.
pub open spec fn decode_error_text() -> Seq<char> {
    "could not decode arguments"@
}

/// The response `dispatch` owes for a given registry, procedure name,
/// request content type and request body: status, content type, body.
pub open spec fn spec_dispatch(
    reg: Registry,
    name: Seq<char>,
    ctype: Seq<char>,
    body: Seq<char>,
) -> (int, Seq<char>, Seq<char>) {
    if !reg.spec_contains(name) {
        (404, plain_type(), proc_not_found_text())
    } else if ctype != form_type() {
        (400, plain_type(), decode_error_text())
    } else {
        let d = reg.spec_get(name);
        match spec_decode_form(body, d.arg_names.deep_view()) {
            Some(vals) => (200, form_type(), spec_encode_envelope(spec_apply(d.kind, vals))),
            None => (400, plain_type(), decode_error_text()),
        }
    }
}

/// Dispatch one procedure invocation: look the name up, decode the body
/// against the descriptor's schema, run the handler once, encode the
/// outcome.  An unregistered name is Not Found, never a crash; a body that
/// does not decode is Bad Request and the handler is never reached.
pub fn dispatch(reg: &Registry, name: &str, content_type: &str, body: &str) -> (r: Response)
    requires
        reg.wf(),
    ensures
        ({
            let (st, ct, bd) = spec_dispatch(*reg, name@, content_type@, body@);
            r.status as int == st && r.content_type@ == ct && r.body@ == bd
        }),
{
    match reg.lookup(name) {
        None => Response {
            status: status_of(ErrorClass::RouteNotFound),
            content_type: plain_type_text(),
            body: String::from_str("procedure not found"),
        },
        Some(d) => {
            let expected = form_type_text();
            if !str_eq(content_type, expected.as_str()) {
                return Response {
                    status: status_of(ErrorClass::DecodeError),
                    content_type: plain_type_text(),
                    body: String::from_str("could not decode arguments"),
                };
            }
            match decode_form(body, &d.arg_names) {
                None => Response {
                    status: status_of(ErrorClass::DecodeError),
                    content_type: plain_type_text(),
                    body: String::from_str("could not decode arguments"),
                },
                Some(args) => {
                    proof {
                        lemma_decode_form_sound(
                            body@,
                            d.arg_names.deep_view(),
                            ints_of(args@),
                        );
                    }
                    let res = apply(d.kind, &args);
                    let enc = encode_envelope(&res);
                    Response { status: 200, content_type: form_type_text(), body: enc }
                },
            }
        },
    }
}

// ---------------------------------------------------------------------------
// Laws of dispatch
// ---------------------------------------------------------------------------

/// Dispatching the encoding of any valid argument payload of a registered
/// procedure succeeds, and the response envelope decodes to exactly the
/// handler's outcome: dispatch round-trips the codec faithfully.
pub proof fn lemma_dispatch_round_trip(reg: Registry, name: Seq<char>, vals: Seq<int>)
    requires
        reg.wf(),
        reg.spec_contains(name),
        vals.len() == arity_of(reg.spec_get(name).kind),
        forall|i: int| 0 <= i < vals.len() ==> i64::MIN <= #[trigger] vals[i] <= i64::MAX,
    ensures
        ({
            let d = reg.spec_get(name);
            let body = spec_encode_form(d.arg_names.deep_view(), vals);
            let (st, ct, bd) = spec_dispatch(reg, name, form_type(), body);
            st == 200 && spec_decode_envelope(bd) == Some(spec_apply(d.kind, vals))
        }),
{
    let d = reg.spec_get(name);
    let keys = d.arg_names.deep_view();
    assert(d.wf());
    lemma_form_round_trip(keys, vals);
    lemma_envelope_round_trip(spec_apply(d.kind, vals));
}

/// A dispatch against an unregistered name is Not Found, whatever the body.
pub proof fn lemma_dispatch_unregistered(
    reg: Registry,
    name: Seq<char>,
    ctype: Seq<char>,
    body: Seq<char>,
)
    requires
        !reg.spec_contains(name),
    ensures
        spec_dispatch(reg, name, ctype, body).0 == 404,
{
}

/// Against a registered procedure, dispatch rejects with Bad Request
/// exactly the bodies that are no encoding of any in-range argument payload
/// — and on those it never reaches a handler outcome.
pub proof fn lemma_dispatch_malformed(reg: Registry, name: Seq<char>, body: Seq<char>)
    requires
        reg.wf(),
        reg.spec_contains(name),
    ensures
        ({
            let d = reg.spec_get(name);
            let keys = d.arg_names.deep_view();
            &&& (spec_dispatch(reg, name, form_type(), body).0 == 400 <==> spec_decode_form(
                body,
                keys,
            ) is None)
            &&& (spec_decode_form(body, keys) is None <==> !exists|vals: Seq<int>|
                vals.len() == keys.len() && (forall|i: int|
                    0 <= i < vals.len() ==> i64::MIN <= #[trigger] vals[i] <= i64::MAX) && body
                    == spec_encode_form(keys, vals))
        }),
{
    let d = reg.spec_get(name);
    let keys = d.arg_names.deep_view();
    assert(d.wf());
    match spec_decode_form(body, keys) {
        Some(vals) => {
            lemma_decode_form_sound(body, keys, vals);
            assert(vals.len() == keys.len() && (forall|i: int|
                0 <= i < vals.len() ==> i64::MIN <= #[trigger] vals[i] <= i64::MAX) && body
                == spec_encode_form(keys, vals));
        },
        None => {
            assert forall|vals: Seq<int>|
                vals.len() == keys.len() && (forall|i: int|
                    0 <= i < vals.len() ==> i64::MIN <= #[trigger] vals[i] <= i64::MAX) implies body
                != spec_encode_form(keys, vals) by {
                lemma_form_round_trip(keys, vals);
            }
        },
    }
}

} // verus!
