use edge_gateway::assets::{Asset, AssetTable};
use edge_gateway::codec::decode_envelope;
use edge_gateway::http::{Method, Request, Response, str_eq};
use edge_gateway::registry::{add_numbers, check_key, dispatch, Descriptor, ProcKind, Registry};
use edge_gateway::render::{match_route, render_page, split_path, PageRoute, Segment};
use edge_gateway::router::{build_gateway, route, Gateway};

const FORM: &str = "application/x-www-form-urlencoded";

fn req(method: Method, path: &str, content_type: &str, body: &str) -> Request {
    Request {
        method,
        path: path.to_string(),
        content_type: content_type.to_string(),
        body: body.to_string(),
    }
}

fn send(gw: &Gateway, method: Method, path: &str, content_type: &str, body: &str) -> Response {
    route(gw, &req(method, path, content_type, body))
}

#[test]
fn home_page_renders_with_title() {
    let gw = build_gateway();
    let r = send(&gw, Method::Get, "/", "", "");
    assert_eq!(r.status, 200);
    assert_eq!(r.content_type, "text/html");
    assert!(r.body.contains("<title>Edge Gateway</title>"));
    assert!(r.body.contains("Server Function Demo"));
}

#[test]
fn procedure_call_returns_decoded_sum() {
    let gw = build_gateway();
    let r = send(&gw, Method::Post, "/api/AddNumbers", FORM, "a=2&b=3");
    assert_eq!(r.status, 200);
    assert_eq!(r.content_type, FORM);
    assert_eq!(r.body, "ok=5");
    assert_eq!(decode_envelope(&r.body), Some(Ok(5)));
    assert_eq!(decode_envelope(&r.body), Some(add_numbers(2, 3)));
}

#[test]
fn malformed_procedure_body_is_bad_request() {
    let gw = build_gateway();
    for body in ["a=two&b=3", "a=2", "", "a=2&b=3&c=4", "b=3&a=2", "a=02&b=3"] {
        let r = send(&gw, Method::Post, "/api/AddNumbers", FORM, body);
        assert_eq!(r.status, 400, "body {:?} should be rejected", body);
    }
}

#[test]
fn wrong_content_type_is_bad_request() {
    let gw = build_gateway();
    let r = send(&gw, Method::Post, "/api/AddNumbers", "text/plain", "a=2&b=3");
    assert_eq!(r.status, 400);
}

#[test]
fn unregistered_procedure_is_not_found() {
    let gw = build_gateway();
    let r = send(&gw, Method::Post, "/api/Missing", FORM, "a=2&b=3");
    assert_eq!(r.status, 404);
    assert_eq!(r.body, "procedure not found");
}

#[test]
fn wrong_method_on_procedure_prefix_is_method_not_allowed() {
    let gw = build_gateway();
    let r = send(&gw, Method::Get, "/api/AddNumbers", "", "");
    assert_eq!(r.status, 405);
    let r = send(&gw, Method::Other, "/api/AddNumbers", "", "");
    assert_eq!(r.status, 405);
}

#[test]
fn domain_error_travels_in_success_envelope() {
    let gw = build_gateway();
    let body = format!("a={}&b=1", i64::MAX);
    let r = send(&gw, Method::Post, "/api/AddNumbers", FORM, &body);
    assert_eq!(r.status, 200);
    assert_eq!(r.body, "err=overflow");
    assert_eq!(decode_envelope(&r.body), Some(Err("overflow".to_string())));
}

#[test]
fn unmatched_path_gets_fallback_page() {
    let gw = build_gateway();
    let r = send(&gw, Method::Get, "/nonexistent", "", "");
    assert_eq!(r.status, 404);
    assert_eq!(r.content_type, "text/html");
    assert_eq!(r.body, "Not found");
}

#[test]
fn stylesheet_resolves_with_css_type_and_content() {
    let gw = build_gateway();
    let r = send(&gw, Method::Get, "/pkg/styles.css", "", "");
    assert_eq!(r.status, 200);
    assert_eq!(r.content_type, "text/css");
    assert!(!r.body.is_empty());
    assert!(r.body.contains(".mx-auto"));
}

#[test]
fn asset_resolution_is_repeatable() {
    let gw = build_gateway();
    let a = gw.assets.resolve("/pkg/styles.css").expect("asset");
    let b = gw.assets.resolve("/pkg/styles.css").expect("asset");
    assert_eq!(a.body, b.body);
    assert_eq!(a.content_type, b.content_type);
    let r1 = send(&gw, Method::Get, "/pkg/styles.css", "", "");
    let r2 = send(&gw, Method::Get, "/pkg/styles.css", "", "");
    assert_eq!(r1.body, r2.body);
    assert_eq!(r1.content_type, r2.content_type);
    assert!(gw.assets.resolve("/pkg/other.css").is_none());
}

#[test]
fn procedure_prefix_beats_matching_page_route() {
    // A page pattern that would accept /api/x as well; the empty registry
    // makes the expected outcome unmistakable: the procedure path yields the
    // dispatch layer's Not Found, never the rendered page.
    let gw = Gateway {
        registry: Registry { procs: Vec::new() },
        assets: AssetTable { entries: Vec::new() },
        pages: vec![PageRoute {
            pattern: vec![
                Segment::Lit("api".to_string()),
                Segment::Param("rest".to_string()),
            ],
            title: "Shadow".to_string(),
            body_html: "<p>shadow page</p>".to_string(),
        }],
        fallback_body: "Not found".to_string(),
    };
    // the page pattern does accept these segments
    let segs = split_path("/api/x");
    assert!(match_route(&gw.pages[0].pattern, &segs).is_some());
    // and yet the router treats the path as a procedure call
    let r = send(&gw, Method::Post, "/api/x", FORM, "");
    assert_eq!(r.status, 404);
    assert_eq!(r.body, "procedure not found");
    // off the reserved prefix the same pattern renders
    let r = send(&gw, Method::Get, "/api2", "", "");
    assert_eq!(r.status, 404);
    let r = send(&gw, Method::Get, "/apix/zzz", "", "");
    assert_eq!(r.status, 404);
}

#[test]
fn split_path_segments() {
    let empty: Vec<String> = Vec::new();
    assert_eq!(split_path("/"), empty);
    assert_eq!(split_path("/users/42"), vec!["users".to_string(), "42".to_string()]);
    assert_eq!(split_path("/nonexistent"), vec!["nonexistent".to_string()]);
}

#[test]
fn patterns_capture_single_segment_parameters() {
    let pat = vec![
        Segment::Lit("users".to_string()),
        Segment::Param("id".to_string()),
    ];
    let segs = split_path("/users/42");
    let params = match_route(&pat, &segs).expect("match");
    assert_eq!(params, vec![("id".to_string(), "42".to_string())]);
    assert!(match_route(&pat, &split_path("/users")).is_none());
    assert!(match_route(&pat, &split_path("/teams/42")).is_none());
    assert!(match_route(&pat, &split_path("/users/42/extra")).is_none());
}

#[test]
fn renders_are_isolated_and_deterministic() {
    let page_a = PageRoute {
        pattern: vec![Segment::Param("user".to_string())],
        title: "Profile".to_string(),
        body_html: "<p>profile</p>".to_string(),
    };
    let page_b = PageRoute {
        pattern: vec![Segment::Param("team".to_string())],
        title: "Team".to_string(),
        body_html: "<p>team</p>".to_string(),
    };
    // interleaved renders with different routes and parameters
    let doc_a1 = render_page(&page_a, vec![("user".to_string(), "alice".to_string())]);
    let doc_b1 = render_page(&page_b, vec![("team".to_string(), "ops".to_string())]);
    let doc_a2 = render_page(&page_a, vec![("user".to_string(), "alice".to_string())]);
    let doc_b2 = render_page(&page_b, vec![("team".to_string(), "ops".to_string())]);
    // deterministic per (route, params), whatever else ran in between
    assert_eq!(doc_a1, doc_a2);
    assert_eq!(doc_b1, doc_b2);
    // neither observes the other's context
    assert!(doc_a1.contains("user=alice"));
    assert!(!doc_a1.contains("team=ops"));
    assert!(doc_b1.contains("team=ops"));
    assert!(!doc_b1.contains("user=alice"));
}

#[test]
fn dispatch_called_directly_mirrors_routing() {
    let gw = build_gateway();
    let r = dispatch(&gw.registry, "AddNumbers", FORM, "a=-4&b=6");
    assert_eq!(r.status, 200);
    assert_eq!(r.body, "ok=2");
    let r = dispatch(&gw.registry, "Missing", FORM, "");
    assert_eq!(r.status, 404);
}

fn descriptor(name: &str, args: &[&str]) -> Descriptor {
    Descriptor {
        name: name.to_string(),
        arg_names: args.iter().map(|s| s.to_string()).collect(),
        kind: ProcKind::AddNumbers,
    }
}

#[test]
fn registration_checks_names_and_schemas_up_front() {
    let mut reg = Registry { procs: Vec::new() };
    assert!(reg.register(descriptor("AddNumbers", &["a", "b"])));
    // a duplicate name is refused before any request is served
    assert!(!reg.register(descriptor("AddNumbers", &["x", "y"])));
    // schema arity must match the handler kind
    assert!(!reg.register(descriptor("Other", &["a"])));
    // field names must be usable form keys
    assert!(!reg.register(descriptor("Other", &["a&b", "c"])));
    assert!(!reg.register(descriptor("Other", &["a", ""])));
    // an empty procedure name is refused
    assert!(!reg.register(descriptor("", &["a", "b"])));
    assert_eq!(reg.procs.len(), 1);
    // the registry still dispatches after the refusals
    let r = dispatch(&reg, "AddNumbers", FORM, "a=1&b=1");
    assert_eq!(r.body, "ok=2");
}

#[test]
fn form_keys_are_validated_by_characters() {
    assert!(check_key("a"));
    assert!(check_key("count"));
    assert!(!check_key(""));
    assert!(!check_key("a=b"));
    assert!(!check_key("a&b"));
}

#[test]
fn str_eq_compares_by_characters() {
    assert!(str_eq("abc", "abc"));
    assert!(!str_eq("abc", "abd"));
    assert!(!str_eq("abc", "ab"));
    assert!(str_eq("", ""));
}
