use jsoned::redact::{redact, InlinePattern, REDACT_MASK};
use jsoned::tree::{JNode, JScalar};

fn from_value(v: serde_json::Value) -> JNode {
    match v {
        serde_json::Value::Null => JNode::Scalar(JScalar::Null),
        serde_json::Value::Bool(b) => JNode::Scalar(JScalar::Bool(b)),
        serde_json::Value::Number(n) => JNode::Scalar(JScalar::Number(n.to_string())),
        serde_json::Value::String(s) => JNode::Scalar(JScalar::String(s)),
        serde_json::Value::Array(a) => JNode::Array { items: a.into_iter().map(from_value).collect(), collapsed: false },
        serde_json::Value::Object(m) => JNode::Object {
            entries: m.into_iter().map(|(k, v)| (k, from_value(v))).collect(),
            collapsed: false,
        },
    }
}

fn node(text: &str) -> JNode {
    from_value(serde_json::from_str(text).unwrap())
}

fn keys(list: &[&str]) -> Vec<String> {
    list.iter().map(|s| s.to_string()).collect()
}

fn masked(template: &str) -> JNode {
    node(&template.replace("MASK", REDACT_MASK))
}

#[test]
fn masks_top_level_key() {
    let v = node(r#"{"user": "ada", "password": "hunter2"}"#);
    let out = redact(&v, &keys(&["password"]));
    assert_eq!(out, masked(r#"{"user": "ada", "password": "MASK"}"#));
}

#[test]
fn masks_nested_key() {
    let v = node(r#"{"user": "ada", "auth": {"apiKey": "sk-real", "note": "x"}}"#);
    let out = redact(&v, &keys(&["apiKey"]));
    assert_eq!(out, masked(r#"{"user": "ada", "auth": {"apiKey": "MASK", "note": "x"}}"#));
}

#[test]
fn masks_key_inside_array_of_objects() {
    let v = node(r#"{"users": [{"name": "a", "token": "t1"}, {"name": "b", "token": "t2"}]}"#);
    let out = redact(&v, &keys(&["token"]));
    assert_eq!(out, masked(r#"{"users": [
        {"name": "a", "token": "MASK"},
        {"name": "b", "token": "MASK"}
    ]}"#));
}

#[test]
fn case_insensitive_match_same_name() {
    let v = node(r#"{"ApiKey": "sk-real"}"#);
    let out = redact(&v, &keys(&["apikey"]));
    assert_eq!(out, masked(r#"{"ApiKey": "MASK"}"#));
}

#[test]
fn different_spelling_is_not_matched() {
    // "api_key" and "apiKey" are different strings — case-insensitivity does not fuzz-match
    // across naming conventions, only casing of the exact same name.
    let v = node(r#"{"api_key": "sk-real"}"#);
    let out = redact(&v, &keys(&["apiKey"]));
    assert_eq!(out, v);
}

#[test]
fn no_match_leaves_document_unchanged() {
    let v = node(r#"{"user": "ada", "age": 36}"#);
    let out = redact(&v, &keys(&["password"]));
    assert_eq!(out, v);
}

#[test]
fn empty_keys_is_a_no_op() {
    let v = node(r#"{"password": "hunter2"}"#);
    let out = redact(&v, &Vec::new());
    assert_eq!(out, v);
}

#[test]
fn non_object_root_does_not_panic() {
    let v = node(r#"["a", "b", "c"]"#);
    let out = redact(&v, &keys(&["password"]));
    assert_eq!(out, v);

    let v = node(r#""just a string""#);
    let out = redact(&v, &keys(&["password"]));
    assert_eq!(out, v);
}

#[test]
fn masks_query_param_inside_url_keeps_rest_of_string() {
    let v = node(r#"{
        "links": {
            "next": "http://api.nasa.gov/neo/rest/v1/neo/browse?page=1&size=20&api_key=MZ9QgVsoWjDUcKJZNWIqdAR4jhahpUmeRrLR8kFI",
            "self": "http://api.nasa.gov/neo/rest/v1/neo/browse?page=0&size=20&api_key=MZ9QgVsoWjDUcKJZNWIqdAR4jhahpUmeRrLR8kFI"
        }
    }"#);
    let out = redact(&v, &keys(&["api_key"]));
    assert_eq!(out, node(&format!(
        r#"{{"links": {{"next": "http://api.nasa.gov/neo/rest/v1/neo/browse?page=1&size=20&api_key={}", "self": "http://api.nasa.gov/neo/rest/v1/neo/browse?page=0&size=20&api_key={}"}}}}"#,
        REDACT_MASK, REDACT_MASK
    )));
}

#[test]
fn inline_match_only_masks_matching_param_not_others() {
    let v = node(r#"{"url": "http://x.test?page=1&api_key=secret&size=20"}"#);
    let out = redact(&v, &keys(&["api_key"]));
    assert_eq!(out, node(&format!(r#"{{"url": "http://x.test?page=1&api_key={}&size=20"}}"#, REDACT_MASK)));
}

#[test]
fn inline_match_preserves_original_casing_of_name() {
    let v = node(r#"{"url": "http://x.test?API_KEY=secret"}"#);
    let out = redact(&v, &keys(&["api_key"]));
    assert_eq!(out, node(&format!(r#"{{"url": "http://x.test?API_KEY={}"}}"#, REDACT_MASK)));
}

#[test]
fn inline_match_no_pattern_leaves_string_unchanged() {
    let v = node(r#"{"url": "http://x.test?page=1&size=20"}"#);
    let out = redact(&v, &keys(&["api_key"]));
    assert_eq!(out, v);
}

#[test]
fn exact_key_match_still_wins_over_inline_scan() {
    // "apiKey" as an exact object key still gets fully masked, not just its value scanned.
    let v = node(r#"{"apiKey": "raw-secret-no-equals-sign"}"#);
    let out = redact(&v, &keys(&["apiKey"]));
    assert_eq!(out, masked(r#"{"apiKey": "MASK"}"#));
}

// ---- further cases ----

#[test]
fn mask_text_is_fixed() {
    assert_eq!(REDACT_MASK, "***REDACTED***");
}

#[test]
fn matched_container_value_is_replaced_whole() {
    let v = node(r#"{"secret": {"a": 1, "b": [1, 2]}, "n": 1}"#);
    let out = redact(&v, &keys(&["SECRET"]));
    assert_eq!(out, masked(r#"{"secret": "MASK", "n": 1}"#));
}

#[test]
fn inline_scan_stops_at_ampersand_and_space() {
    let v = node(r#"{"s": "token=abc;rest token=def other&token=x"}"#);
    let out = redact(&v, &keys(&["token"]));
    assert_eq!(out, node(&format!(r#"{{"s": "token={} token={} other&token={}"}}"#, REDACT_MASK, REDACT_MASK, REDACT_MASK)));
}

#[test]
fn special_characters_in_names_are_taken_literally() {
    let v = node(r#"{"q": "a.b=1&axb=2"}"#);
    let out = redact(&v, &keys(&["a.b"]));
    assert_eq!(out, node(&format!(r#"{{"q": "a.b={}&axb=2"}}"#, REDACT_MASK)));
}

#[test]
fn inline_pattern_compiles_for_a_name() {
    assert!(InlinePattern::compile(r"(?i)\b(api_key)=([^&\s]+)").is_some());
    assert!(InlinePattern::compile("(").is_none());
}

#[test]
fn redacting_twice_is_redacting_once() {
    let v = node(r#"{"user": "ada", "password": "s3cret", "url": "https://x.io/?token=abc&x=1", "list": [{"apiKey": 5}]}"#);
    let ks = keys(&["password", "token", "apikey"]);
    let once = redact(&v, &ks);
    let twice = redact(&once, &ks);
    assert_eq!(twice, once);
}
