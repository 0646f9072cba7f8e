//! The renderer adapter: page routes, path matching, and deterministic
//! document production.
//!
//! A page route is a pattern of literal and single-segment-parameter
//! segments.  Rendering instantiates a fresh, request-scoped context seeded
//! with the captured parameters and produces a complete HTML document:
//! head metadata, the page markup, and a serialized state block the client
//! uses to reconstruct equivalent state during hydration.  The document is
//! a pure function of the route and the parameters, so server markup and
//! client reconstruction cannot drift apart, and no two concurrent renders
//! can observe each other's context.

use vstd::prelude::*;

use crate::codec::first_occ;
use crate::codec::lemma_first_occ;

verus! {

// ---------------------------------------------------------------------------
// Path segmentation
// ---------------------------------------------------------------------------

/// Split a slash-free remainder into segments at every `/`.
pub open spec fn spec_split(s: Seq<char>) -> Seq<Seq<char>>
    decreases s.len(),
{
    if s.len() == 0 {
        Seq::empty()
    } else {
        let cut = first_occ(s, '/');
        if 0 <= cut < s.len() {
            seq![s.subrange(0, cut)] + spec_split(s.subrange(cut + 1, s.len() as int))
        } else {
            seq![s]
        }
    }
}

/// The segments of a request path: the leading slash is dropped, the rest
/// splits at every `/`.
pub open spec fn spec_segments(path: Seq<char>) -> Seq<Seq<char>> {
    if path.len() >= 1 && path[0] == '/' {
        spec_split(path.subrange(1, path.len() as int))
    } else {
        spec_split(path)
    }
}

fn split_str(s: &str) -> (r: Vec<String>)
    ensures
        r.deep_view() == spec_split(s@),
    decreases s@.len(),
{
    let n = s.unicode_len();
    if n == 0 {
        let r: Vec<String> = Vec::new();
        proof {
            assert(r.deep_view() =~= spec_split(s@));
        }
        r
    } else {
        let mut cut: usize = 0;
        while cut < n && s.get_char(cut) != '/'
            invariant
                0 <= cut <= n,
                n == s@.len(),
                forall|i: int| 0 <= i < cut ==> s@[i] != '/',
            decreases n - cut,
        {
            cut = cut + 1;
        }
        proof {
            lemma_first_occ(s@, '/');
            let f = first_occ(s@, '/');
            if f < cut {
                assert(s@[f] == '/');
            }
            if f > cut && cut < n {
                assert(s@[cut as int] == '/');
            }
            assert(f == cut as int);
        }
        if cut == n {
            let mut r: Vec<String> = Vec::new();
            r.push(s.to_owned());
            proof {
                assert(r.deep_view() =~= seq![s@]);
            }
            r
        } else {
            let head = s.substring_char(0, cut).to_owned();
            let tail = s.substring_char(cut + 1, n);
            let mut r = split_str(tail);
            r.insert(0, head);
            proof {
                assert(tail@ == s@.subrange(cut as int + 1, s@.len() as int));
                assert(r.deep_view() =~= seq![s@.subrange(0, cut as int)] + spec_split(tail@));
            }
            r
        }
    }
}

/// Split a request path into its segments.
pub fn split_path(path: &str) -> (r: Vec<String>)
    ensures
        r.deep_view() == spec_segments(path@),
{
    let n = path.unicode_len();
    if n >= 1 && path.get_char(0) == '/' {
        let rest = path.substring_char(1, n);
        proof {
            assert(rest@ == path@.subrange(1, path@.len() as int));
        }
        split_str(rest)
    } else {
        split_str(path)
    }
}

// ---------------------------------------------------------------------------
// Patterns
// ---------------------------------------------------------------------------

/// One pattern segment: an exact literal, or a named single-segment
/// parameter that captures whatever stands in its place.
pub enum Segment {
    Lit(String),
    Param(String),
}

/// Does one pattern segment accept one path segment?
pub open spec fn seg_ok(p: Segment, s: Seq<char>) -> bool {
    match p {
        Segment::Lit(l) => l@ == s,
        Segment::Param(_) => true,
    }
}

/// Does a pattern match a segment list?  Lengths agree and every literal
/// matches exactly; parameters accept any single segment.
pub open spec fn spec_match(pat: Seq<Segment>, segs: Seq<Seq<char>>) -> bool {
    pat.len() == segs.len() && forall|i: int|
        0 <= i < pat.len() ==> seg_ok(#[trigger] pat[i], segs[i])
}

/// The parameters a matching pattern captures, in pattern order.
pub open spec fn spec_params(pat: Seq<Segment>, segs: Seq<Seq<char>>) -> Seq<
    (Seq<char>, Seq<char>),
>
    recommends
        pat.len() == segs.len(),
    decreases pat.len(),
{
    if pat.len() == 0 {
        Seq::empty()
    } else {
        let rest = spec_params(
            pat.subrange(1, pat.len() as int),
            segs.subrange(1, segs.len() as int),
        );
        match pat[0] {
            Segment::Param(name) => seq![(name@, segs[0])] + rest,
            Segment::Lit(_) => rest,
        }
    }
}

/// The character view of captured parameter pairs.
pub open spec fn pairs_view(ps: Seq<(String, String)>) -> Seq<(Seq<char>, Seq<char>)> {
    ps.map_values(|p: (String, String)| (p.0@, p.1@))
}

fn match_route_rec(pat: &Vec<Segment>, segs: &Vec<String>, j: usize) -> (r: Option<
    Vec<(String, String)>,
>)
    requires
        j <= pat.len(),
        pat.len() == segs.len(),
    ensures
        ({
            let p = pat@.subrange(j as int, pat.len() as int);
            let s = segs.deep_view().subrange(j as int, segs.len() as int);
            match r {
                Some(ps) => spec_match(p, s) && pairs_view(ps@) == spec_params(p, s),
                None => !spec_match(p, s),
            }
        }),
    decreases pat.len() - j,
{
    let ghost p = pat@.subrange(j as int, pat.len() as int);
    let ghost s = segs.deep_view().subrange(j as int, segs.len() as int);
    if j == pat.len() {
        let r: Vec<(String, String)> = Vec::new();
        proof {
            assert(pairs_view(r@) =~= spec_params(p, s));
        }
        Some(r)
    } else {
        proof {
            assert(p.subrange(1, p.len() as int) =~= pat@.subrange(
                j as int + 1,
                pat.len() as int,
            ));
            assert(s.subrange(1, s.len() as int) =~= segs.deep_view().subrange(
                j as int + 1,
                segs.len() as int,
            ));
            assert(s[0] == segs.deep_view()[j as int]);
        }
        match &pat[j] {
            Segment::Lit(l) => {
                if crate::http::str_eq(l.as_str(), segs[j].as_str()) {
                    match match_route_rec(pat, segs, j + 1) {
                        Some(ps) => {
                            proof {
                                assert(seg_ok(p[0], s[0]));
                                assert(forall|i: int|
                                    1 <= i < p.len() ==> p[i] == p.subrange(1, p.len() as int)[i
                                        - 1] && s[i] == s.subrange(1, s.len() as int)[i - 1]);
                            }
                            Some(ps)
                        },
                        None => None,
                    }
                } else {
                    proof {
                        assert(!seg_ok(p[0], s[0]));
                    }
                    None
                }
            },
            Segment::Param(name) => {
                match match_route_rec(pat, segs, j + 1) {
                    Some(mut ps) => {
                        let captured = (name.clone(), segs[j].clone());
                        ps.insert(0, captured);
                        proof {
                            assert(seg_ok(p[0], s[0]));
                            assert(forall|i: int|
                                1 <= i < p.len() ==> p[i] == p.subrange(1, p.len() as int)[i - 1]
                                    && s[i] == s.subrange(1, s.len() as int)[i - 1]);
                            assert(pairs_view(ps@) =~= seq![(name@, s[0])] + spec_params(
                                p.subrange(1, p.len() as int),
                                s.subrange(1, s.len() as int),
                            ));
                        }
                        Some(ps)
                    },
                    None => None,
                }
            },
        }
    }
}

/// Match a pattern against the segments of a request path.  On a match the
/// captured parameters come back in pattern order; `None` means the pattern
/// does not accept the path.
pub fn match_route(pat: &Vec<Segment>, segs: &Vec<String>) -> (r: Option<Vec<(String, String)>>)
    ensures
        match r {
            Some(ps) => spec_match(pat@, segs.deep_view()) && pairs_view(ps@) == spec_params(
                pat@,
                segs.deep_view(),
            ),
            None => !spec_match(pat@, segs.deep_view()),
        },
{
    if pat.len() != segs.len() {
        return None;
    }
    let r = match_route_rec(pat, segs, 0);
    proof {
        assert(pat@.subrange(0, pat.len() as int) =~= pat@);
        assert(segs.deep_view().subrange(0, segs.len() as int) =~= segs.deep_view());
    }
    r
}

// ---------------------------------------------------------------------------
// Documents
// ---------------------------------------------------------------------------

/// A registered page: its pattern, document title, and body markup.
pub struct PageRoute {
    pub pattern: Vec<Segment>,
    pub title: String,
    pub body_html: String,
}

/// The request-scoped reactive state a render starts from: the captured
/// route parameters and the initial value of the page's counter signal.  A
/// fresh context is built for every render and destroyed with it — contexts
/// are never shared across requests.
pub struct RenderContext {
    pub params: Vec<(String, String)>,
    pub count: u64,
}

impl RenderContext {
    /// A fresh context, isolated to one request, seeded with the captured
    /// parameters and a zeroed counter signal.
    pub fn new(params: Vec<(String, String)>) -> (c: RenderContext)
        ensures
            c.params@ == params@,
            c.count == 0,
    {
        RenderContext { params, count: 0 }
    }
}

/// Serialized initial state: `name=value` pairs joined by `&`, enough for
/// the client to reconstruct equivalent state without re-fetching.
pub open spec fn spec_encode_state(ps: Seq<(Seq<char>, Seq<char>)>) -> Seq<char>
    decreases ps.len(),
{
    if ps.len() == 0 {
        Seq::empty()
    } else if ps.len() == 1 {
        ps[0].0 + seq!['='] + ps[0].1
    } else {
        ps[0].0 + seq!['='] + ps[0].1 + seq!['&'] + spec_encode_state(
            ps.subrange(1, ps.len() as int),
        )
    }
}

/// Opening of every rendered document, up to the title text.
pub open spec fn doc_head_open() -> Seq<char> {
    "<!DOCTYPE html><html lang=\"en\"><head><meta charset=\"utf-8\"/><meta name=\"viewport\" content=\"width=device-width, initial-scale=1\"/><link rel=\"stylesheet\" href=\"/pkg/styles.css\"/><script type=\"module\" src=\"/pkg/client.js\" defer></script><title>"@
}

/// From the end of the title to the start of the page markup.
pub open spec fn doc_body_open() -> Seq<char> {
    "</title></head><body class=\"bg-slate-100 text-slate-900\">"@
}

/// From the end of the page markup to the serialized hydration state.
pub open spec fn doc_state_open() -> Seq<char> {
    "<script type=\"application/x-state\" id=\"hydration-state\">"@
}

/// Closing of every rendered document.
pub open spec fn doc_close() -> Seq<char> {
    "</script></body></html>"@
}

/// The complete document owed for a title, page markup, and serialized
/// state: head metadata, hydration script reference, markup, state block.
pub open spec fn spec_document(title: Seq<char>, body: Seq<char>, state: Seq<char>) -> Seq<char> {
    doc_head_open() + title + doc_body_open() + body + doc_state_open() + state + doc_close()
}

fn encode_state_rec(ps: &Vec<(String, String)>, j: usize) -> (r: String)
    requires
        j <= ps.len(),
    ensures
        r@ == spec_encode_state(pairs_view(ps@).subrange(j as int, ps.len() as int)),
    decreases ps.len() - j,
{
    let ghost v = pairs_view(ps@).subrange(j as int, ps.len() as int);
    if j == ps.len() {
        let r = String::new();
        proof {
            assert(v.len() == 0);
        }
        r
    } else {
        let mut r = String::new();
        r.append(ps[j].0.as_str());
        r.append("=");
        r.append(ps[j].1.as_str());
        proof {
            reveal_strlit("=");
            assert("="@ =~= seq!['=']);
            assert(v[0] == (ps@[j as int].0@, ps@[j as int].1@));
            assert(r@ =~= v[0].0 + seq!['='] + v[0].1);
        }
        if j + 1 == ps.len() {
            proof {
                assert(v.len() == 1);
            }
            r
        } else {
            r.append("&");
            let tail = encode_state_rec(ps, j + 1);
            r.append(tail.as_str());
            proof {
                reveal_strlit("&");
                assert("&"@ =~= seq!['&']);
                assert(pairs_view(ps@).subrange(j as int + 1, ps.len() as int) =~= v.subrange(
                    1,
                    v.len() as int,
                ));
                assert(r@ =~= v[0].0 + seq!['='] + v[0].1 + seq!['&'] + spec_encode_state(
                    v.subrange(1, v.len() as int),
                ));
            }
            r
        }
    }
}

/// Serialize a context's captured parameters for the hydration state block.
pub fn encode_state(ps: &Vec<(String, String)>) -> (r: String)
    ensures
        r@ == spec_encode_state(pairs_view(ps@)),
{
    let r = encode_state_rec(ps, 0);
    proof {
        assert(pairs_view(ps@).subrange(0, ps.len() as int) =~= pairs_view(ps@));
    }
    r
}

/// Render one page into a complete HTML document.
///
/// A fresh request-scoped context is instantiated from the captured
/// parameters and destroyed when the document is produced.  The result is a
/// pure function of the route and the parameters: no state of any other
/// request, and nothing outside the arguments, can reach it.
pub fn render_page(page: &PageRoute, params: Vec<(String, String)>) -> (doc: String)
    ensures
        doc@ == spec_document(
            page.title@,
            page.body_html@,
            spec_encode_state(pairs_view(params@)),
        ),
{
    let ctx = RenderContext::new(params);
    let state = encode_state(&ctx.params);
    let mut doc = String::from_str(
        "<!DOCTYPE html><html lang=\"en\"><head><meta charset=\"utf-8\"/><meta name=\"viewport\" content=\"width=device-width, initial-scale=1\"/><link rel=\"stylesheet\" href=\"/pkg/styles.css\"/><script type=\"module\" src=\"/pkg/client.js\" defer></script><title>",
    );
    doc.append(page.title.as_str());
    doc.append("</title></head><body class=\"bg-slate-100 text-slate-900\">");
    doc.append(page.body_html.as_str());
    doc.append("<script type=\"application/x-state\" id=\"hydration-state\">");
    doc.append(state.as_str());
    doc.append("</script></body></html>");
    doc
}

/// Does `needle` occur contiguously inside `hay`?
pub open spec fn spec_contains_text(hay: Seq<char>, needle: Seq<char>) -> bool {
    exists|i: int|
        0 <= i && i + needle.len() <= hay.len() && #[trigger] hay.subrange(i, i + needle.len())
            == needle
}

/// Every rendered document carries its page title verbatim.
pub proof fn lemma_document_contains_title(title: Seq<char>, body: Seq<char>, state: Seq<char>)
    ensures
        spec_contains_text(spec_document(title, body, state), title),
{
    let doc = spec_document(title, body, state);
    let i = doc_head_open().len() as int;
    assert(doc.subrange(i, i + title.len()) =~= title);
}

} // verus!
