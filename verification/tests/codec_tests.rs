use edge_gateway::codec::{decode_envelope, decode_form, encode_envelope, encode_form, encode_int, parse_int_exact};

fn keys(names: &[&str]) -> Vec<String> {
    names.iter().map(|s| s.to_string()).collect()
}

#[test]
fn encode_int_canonical() {
    assert_eq!(encode_int(0), "0");
    assert_eq!(encode_int(5), "5");
    assert_eq!(encode_int(42), "42");
    assert_eq!(encode_int(-123), "-123");
    assert_eq!(encode_int(i64::MAX), "9223372036854775807");
    assert_eq!(encode_int(i64::MIN), "-9223372036854775808");
}

#[test]
fn parse_int_accepts_exactly_canonical_text() {
    assert_eq!(parse_int_exact("2"), Some(2));
    assert_eq!(parse_int_exact("-7"), Some(-7));
    assert_eq!(parse_int_exact("0"), Some(0));
    assert_eq!(parse_int_exact("9223372036854775807"), Some(i64::MAX));
    assert_eq!(parse_int_exact("-9223372036854775808"), Some(i64::MIN));
    assert_eq!(parse_int_exact(""), None);
    assert_eq!(parse_int_exact("-"), None);
    assert_eq!(parse_int_exact("-0"), None);
    assert_eq!(parse_int_exact("007"), None);
    assert_eq!(parse_int_exact("+5"), None);
    assert_eq!(parse_int_exact("1x"), None);
    assert_eq!(parse_int_exact("9223372036854775808"), None);
    assert_eq!(parse_int_exact("-9223372036854775809"), None);
    assert_eq!(parse_int_exact("99999999999999999999999"), None);
}

#[test]
fn parse_round_trips_every_encoding() {
    for v in [0i64, 1, -1, 10, -10, 12345, -98765, i64::MAX, i64::MIN] {
        assert_eq!(parse_int_exact(&encode_int(v)), Some(v));
    }
}

#[test]
fn form_encode_produces_pairs_in_schema_order() {
    let ks = keys(&["a", "b"]);
    let body = encode_form(&ks, &vec![2, 3]);
    assert_eq!(body, "a=2&b=3");
    let single = encode_form(&keys(&["n"]), &vec![-40]);
    assert_eq!(single, "n=-40");
}

#[test]
fn form_decode_accepts_exactly_the_encodings() {
    let ks = keys(&["a", "b"]);
    assert_eq!(decode_form("a=2&b=3", &ks), Some(vec![2, 3]));
    assert_eq!(decode_form("a=-1&b=0", &ks), Some(vec![-1, 0]));
    assert_eq!(decode_form("a=2&b=x", &ks), None);
    assert_eq!(decode_form("a=2", &ks), None);
    assert_eq!(decode_form("a=2&b=3&c=4", &ks), None);
    assert_eq!(decode_form("b=3&a=2", &ks), None);
    assert_eq!(decode_form("a=02&b=3", &ks), None);
    assert_eq!(decode_form("", &ks), None);
    assert_eq!(decode_form("a=2&&b=3", &ks), None);
}

#[test]
fn form_round_trips() {
    let ks = keys(&["a", "b"]);
    for (a, b) in [(2i64, 3i64), (0, 0), (-5, 7), (i64::MAX, i64::MIN)] {
        let body = encode_form(&ks, &vec![a, b]);
        assert_eq!(decode_form(&body, &ks), Some(vec![a, b]));
    }
}

#[test]
fn empty_schema_accepts_only_the_empty_body() {
    let ks: Vec<String> = Vec::new();
    assert_eq!(decode_form("", &ks), Some(Vec::new()));
    assert_eq!(decode_form("a=1", &ks), None);
    assert_eq!(encode_form(&ks, &Vec::new()), "");
}

#[test]
fn envelope_round_trips_success_and_domain_error() {
    let ok = encode_envelope(&Ok(5));
    assert_eq!(ok, "ok=5");
    assert_eq!(decode_envelope(&ok), Some(Ok(5)));

    let err = encode_envelope(&Err("overflow".to_string()));
    assert_eq!(err, "err=overflow");
    assert_eq!(decode_envelope(&err), Some(Err("overflow".to_string())));
}

#[test]
fn envelope_rejects_foreign_bodies() {
    assert_eq!(decode_envelope(""), None);
    assert_eq!(decode_envelope("nope"), None);
    assert_eq!(decode_envelope("ok="), None);
    assert_eq!(decode_envelope("ok=x"), None);
    assert_eq!(decode_envelope("er=5"), None);
}
