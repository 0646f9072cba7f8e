//! The request router: classifies each inbound request and hands it to
//! exactly one of procedure dispatch, the static asset resolver, or the
//! renderer adapter.
//!
//! Classification order is load-bearing and deterministic: the reserved
//! procedure prefix is checked first, so a path that also matches a page
//! pattern is still a procedure call; assets are checked next so they
//! short-circuit without touching the rendering pipeline, and an asset miss
//! falls through to page matching; an unmatched path ends in the fallback
//! Not Found page.

use vstd::prelude::*;

use crate::assets::Asset;
use crate::assets::AssetTable;
use crate::http::ErrorClass;
use crate::http::Method;
use crate::http::Request;
use crate::http::Response;
use crate::http::html_type;
use crate::http::html_type_text;
use crate::http::plain_type;
use crate::http::plain_type_text;
use crate::http::status_of;
use crate::registry::Descriptor;
use crate::registry::ProcKind;
use crate::registry::Registry;
use crate::registry::arity_of;
use crate::registry::dispatch;
use crate::registry::spec_dispatch;
use crate::render::PageRoute;
use crate::render::Segment;
use crate::render::match_route;
use crate::render::render_page;
use crate::render::spec_document;
use crate::render::spec_encode_state;
use crate::render::spec_match;
use crate::render::spec_params;
use crate::render::spec_segments;
use crate::render::split_path;
use crate::codec::wf_key;

verus! {

/// The reserved path prefix of procedure invocations.
pub open spec fn api_prefix() -> Seq<char> {
    seq!['/', 'a', 'p', 'i', '/']
}

/// Does `s` open with the prefix `p`?
pub open spec fn spec_has_prefix(s: Seq<char>, p: Seq<char>) -> bool {
    p.len() <= s.len() && s.subrange(0, p.len() as int) == p
}

/// Diagnostic body of a procedure-prefixed request with the wrong method.
pub open spec fn method_not_allowed_text() -> Seq<char> {
    "method not allowed"@
}

/// The first page whose pattern accepts the segments, if any.
pub open spec fn spec_find_page(pages: Seq<PageRoute>, segs: Seq<Seq<char>>) -> Option<int>
    decreases pages.len(),
{
    if pages.len() == 0 {
        None
    } else if spec_match(pages[0].pattern@, segs) {
        Some(0int)
    } else {
        match spec_find_page(pages.subrange(1, pages.len() as int), segs) {
            Some(k) => Some(k + 1),
            None => None,
        }
    }
}

/// Where no pattern up to `p` matches, the first match is at `p` itself —
/// or nowhere, when `p` runs off the end.
proof fn lemma_find_page_at(pages: Seq<PageRoute>, segs: Seq<Seq<char>>, p: int)
    requires
        0 <= p <= pages.len(),
        forall|i: int| 0 <= i < p ==> !spec_match((#[trigger] pages[i]).pattern@, segs),
        p < pages.len() ==> spec_match(pages[p].pattern@, segs),
    ensures
        p == pages.len() ==> spec_find_page(pages, segs) is None,
        p < pages.len() ==> spec_find_page(pages, segs) == Some(p),
    decreases pages.len(),
{
    if pages.len() == 0 {
    } else if p == 0 {
    } else {
        let rest = pages.subrange(1, pages.len() as int);
        assert(!spec_match(pages[0].pattern@, segs));
        assert forall|i: int| 0 <= i < p - 1 implies !spec_match(
            (#[trigger] rest[i]).pattern@,
            segs,
        ) by {
            assert(rest[i] == pages[i + 1]);
        }
        assert(p - 1 < rest.len() ==> spec_match(rest[p - 1].pattern@, segs));
        lemma_find_page_at(rest, segs, p - 1);
    }
}

/// The gateway configuration: procedure registry, asset table, page table,
/// and the fallback page body.  Built once per process lifetime and
/// logically immutable afterwards; reads need no synchronization.
pub struct Gateway {
    pub registry: Registry,
    pub assets: AssetTable,
    pub pages: Vec<PageRoute>,
    pub fallback_body: String,
}

impl Gateway {
    pub open spec fn wf(self) -> bool {
        self.registry.wf() && self.assets.wf()
    }
}

/// The response `route` owes for a request: status, content type, body.
///
/// Priority order: procedure prefix (with method check), then assets, then
/// pages, then the Not Found fallback.
pub open spec fn spec_route(
    gw: Gateway,
    method: Method,
    path: Seq<char>,
    ctype: Seq<char>,
    body: Seq<char>,
) -> (int, Seq<char>, Seq<char>) {
    if spec_has_prefix(path, api_prefix()) {
        if method == Method::Post {
            spec_dispatch(gw.registry, path.subrange(5, path.len() as int), ctype, body)
        } else {
            (405, plain_type(), method_not_allowed_text())
        }
    } else if gw.assets.spec_contains(path) {
        let a = gw.assets.spec_get(path);
        (200, a.content_type@, a.body@)
    } else {
        let segs = spec_segments(path);
        match spec_find_page(gw.pages@, segs) {
            Some(pi) => (
                200,
                html_type(),
                spec_document(
                    gw.pages@[pi].title@,
                    gw.pages@[pi].body_html@,
                    spec_encode_state(spec_params(gw.pages@[pi].pattern@, segs)),
                ),
            ),
            None => (404, html_type(), gw.fallback_body@),
        }
    }
}

/// Route one request: classify it and invoke exactly one downstream
/// component, producing one response.
pub fn route(gw: &Gateway, req: &Request) -> (r: Response)
    requires
        gw.wf(),
    ensures
        ({
            let (st, ct, bd) = spec_route(*gw, req.method, req.path@, req.content_type@, req.body@);
            r.status as int == st && r.content_type@ == ct && r.body@ == bd
        }),
{
    let n = req.path.unicode_len();
    let is_api = n >= 5 && req.path.get_char(0) == '/' && req.path.get_char(1) == 'a'
        && req.path.get_char(2) == 'p' && req.path.get_char(3) == 'i' && req.path.get_char(4)
        == '/';
    proof {
        if is_api {
            assert(req.path@.subrange(0, 5) =~= api_prefix());
        } else if spec_has_prefix(req.path@, api_prefix()) {
            let pre = req.path@.subrange(0, 5);
            assert(req.path@[0] == pre[0] && req.path@[1] == pre[1] && req.path@[2] == pre[2]
                && req.path@[3] == pre[3] && req.path@[4] == pre[4]);
            assert(false);
        }
    }
    if is_api {
        let name = req.path.substring_char(5, n);
        proof {
            assert(name@ =~= req.path@.subrange(5, req.path@.len() as int));
        }
        if req.method == Method::Post {
            dispatch(&gw.registry, name, req.content_type.as_str(), req.body.as_str())
        } else {
            Response {
                status: status_of(ErrorClass::MethodNotAllowed),
                content_type: plain_type_text(),
                body: String::from_str("method not allowed"),
            }
        }
    } else {
        match gw.assets.resolve(req.path.as_str()) {
            Some(a) => Response {
                status: 200,
                content_type: a.content_type.clone(),
                body: a.body.clone(),
            },
            None => {
                let segs = split_path(req.path.as_str());
                let mut i: usize = 0;
                while i < gw.pages.len()
                    invariant
                        0 <= i <= gw.pages.len(),
                        gw.wf(),
                        segs.deep_view() == spec_segments(req.path@),
                        !spec_has_prefix(req.path@, api_prefix()),
                        !gw.assets.spec_contains(req.path@),
                        forall|p: int|
                            0 <= p < i ==> !spec_match(
                                (#[trigger] gw.pages@[p]).pattern@,
                                segs.deep_view(),
                            ),
                    decreases gw.pages.len() - i,
                {
                    match match_route(&gw.pages[i].pattern, &segs) {
                        Some(params) => {
                            proof {
                                lemma_find_page_at(gw.pages@, segs.deep_view(), i as int);
                            }
                            let doc = render_page(&gw.pages[i], params);
                            return Response {
                                status: 200,
                                content_type: html_type_text(),
                                body: doc,
                            };
                        },
                        None => {},
                    }
                    i = i + 1;
                }
                proof {
                    lemma_find_page_at(gw.pages@, segs.deep_view(), gw.pages@.len() as int);
                }
                Response {
                    status: status_of(ErrorClass::RouteNotFound),
                    content_type: html_type_text(),
                    body: gw.fallback_body.clone(),
                }
            },
        }
    }
}

/// Routing priority is deterministic, never ambiguous: a path under the
/// procedure prefix is dispatched as a procedure call, and neither the page
/// table nor the asset table plays any part in the outcome — even when a
/// page pattern would also accept the path.
pub proof fn lemma_api_priority(gw: Gateway, path: Seq<char>, ctype: Seq<char>, body: Seq<char>)
    requires
        spec_has_prefix(path, api_prefix()),
    ensures
        spec_route(gw, Method::Post, path, ctype, body) == spec_dispatch(
            gw.registry,
            path.subrange(api_prefix().len() as int, path.len() as int),
            ctype,
            body,
        ),
{
}

/// Build the gateway configuration this process serves: the addition
/// procedure under its stable name, the stylesheet asset, the home page,
/// and the fallback body.  Registration is deterministic, so a
/// cold-starting runtime reconstructs the same configuration on every
/// start.
pub fn build_gateway() -> (gw: Gateway)
    ensures
        gw.wf(),
        gw.registry.procs@.len() == 1,
        gw.registry.procs@[0].name@ == "AddNumbers"@,
        gw.registry.procs@[0].kind == ProcKind::AddNumbers,
        gw.registry.procs@[0].arg_names.deep_view() =~= seq!["a"@, "b"@],
        gw.registry.spec_contains("AddNumbers"@),
        gw.assets.entries@.len() == 1,
        gw.assets.entries@[0].path@ == "/pkg/styles.css"@,
        gw.assets.entries@[0].content_type@ == "text/css"@,
        gw.assets.entries@[0].body@.len() >= 1,
        gw.pages@.len() == 1,
        gw.pages@[0].pattern@.len() == 0,
        gw.pages@[0].title@ == "Edge Gateway"@,
        gw.fallback_body@ == "Not found"@,
{
    let mut arg_names: Vec<String> = Vec::new();
    arg_names.push(String::from_str("a"));
    arg_names.push(String::from_str("b"));
    let desc = Descriptor {
        name: String::from_str("AddNumbers"),
        arg_names,
        kind: ProcKind::AddNumbers,
    };
    proof {
        reveal_strlit("AddNumbers");
        reveal_strlit("a");
        reveal_strlit("b");
        assert(wf_key("a"@)) by {
            assert("a"@[0] == 'a');
        }
        assert(wf_key("b"@)) by {
            assert("b"@[0] == 'b');
        }
        assert(desc.arg_names.deep_view() =~= seq!["a"@, "b"@]);
        assert(desc.wf()) by {
            assert(arity_of(ProcKind::AddNumbers) == 2);
        }
    }
    let mut registry = Registry { procs: Vec::new() };
    let accepted = registry.register(desc);
    proof {
        assert(accepted);
        assert(registry.procs@[0].arg_names.deep_view() =~= seq!["a"@, "b"@]);
    }

    let css = String::from_str(
        ".mx-auto{margin-left:auto;margin-right:auto}.flex{display:flex}.items-center{align-items:center}.justify-center{justify-content:center}.text-center{text-align:center}.min-h-screen{min-height:100vh}",
    );
    let mut entries: Vec<Asset> = Vec::new();
    entries.push(
        Asset {
            path: String::from_str("/pkg/styles.css"),
            content_type: String::from_str("text/css"),
            body: css,
        },
    );
    let assets = AssetTable { entries };

    let home = PageRoute {
        pattern: Vec::new(),
        title: String::from_str("Edge Gateway"),
        body_html: String::from_str(
            "<main class=\"min-h-screen\"><section class=\"mx-auto text-center\"><h1>Edge Gateway</h1><p>Server-rendered demo page.</p><div class=\"flex items-center justify-center\"><h2>Server Function Demo</h2><form method=\"post\" action=\"/api/AddNumbers\"><input type=\"hidden\" name=\"a\" value=\"2\"/><input type=\"hidden\" name=\"b\" value=\"3\"/><button type=\"submit\">Calculate 2 + 3</button></form></div></section></main>",
        ),
    };
    let mut pages: Vec<PageRoute> = Vec::new();
    pages.push(home);

    let gw = Gateway {
        registry,
        assets,
        pages,
        fallback_body: String::from_str("Not found"),
    };
    proof {
        reveal_strlit(
            ".mx-auto{margin-left:auto;margin-right:auto}.flex{display:flex}.items-center{align-items:center}.justify-center{justify-content:center}.text-center{text-align:center}.min-h-screen{min-height:100vh}",
        );
        assert(gw.registry.procs@[0].name@ == "AddNumbers"@);
    }
    gw
}

} // verus!
