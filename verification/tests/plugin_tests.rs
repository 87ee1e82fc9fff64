use jaq_core::load::{Arena, File, Loader};
use jaq_core::{data, unwrap_valr, Ctx, Vars};
use jsoned::convert::parse_json_document;
use jsoned::plugin::{collect_outputs, jq_prepare, JqError};
use jsoned::tree::{JNode, JScalar};

fn from_value(v: serde_json::Value) -> JNode {
    match v {
        serde_json::Value::Null => JNode::Scalar(JScalar::Null),
        serde_json::Value::Bool(b) => JNode::Scalar(JScalar::Bool(b)),
        serde_json::Value::Number(n) => JNode::Scalar(JScalar::Number(n.to_string())),
        serde_json::Value::String(s) => JNode::Scalar(JScalar::String(s)),
        serde_json::Value::Array(a) => JNode::Array { items: a.into_iter().map(from_value).collect(), collapsed: false },
        serde_json::Value::Object(m) => JNode::Object {
            entries: m.into_iter().map(|(k, v)| (k, from_value(v))).collect(),
            collapsed: false,
        },
    }
}

fn node(text: &str) -> JNode {
    from_value(serde_json::from_str(text).unwrap())
}

fn sample() -> JNode {
    node(r#"{"users": [{"name": "Ada", "age": 36}, {"name": "Grace", "age": 85}]}"#)
}

/// The plugin's result, as the front end gets it: the filter made ready by the library, run
/// by jaq, its outputs read back and combined.
fn jq(input: &JNode, filter: &str) -> Result<JNode, String> {
    let text = jq_prepare(input, filter).map_err(|e| e.message())?;
    let defs = jaq_core::defs().chain(jaq_std::defs()).chain(jaq_json::defs());
    let funs = jaq_core::funs().chain(jaq_std::funs()).chain(jaq_json::funs());
    let arena = Arena::default();
    let modules = Loader::new(defs).load(&arena, File { code: filter, path: () }).unwrap();
    let f = jaq_core::Compiler::default().with_funs(funs).compile(modules).unwrap();
    let val = jaq_json::read::parse_single(text.as_bytes()).unwrap();
    let ctx = Ctx::<data::JustLut<jaq_json::Val>>::new(&f.lut, Vars::new([]));
    let mut outs = Vec::new();
    for o in f.id.run((ctx, val)).map(unwrap_valr) {
        let v = o.map_err(|e| e.to_string())?;
        outs.push(parse_json_document(&v.to_string()).unwrap());
    }
    Ok(collect_outputs(outs))
}

#[test]
fn selects_field() {
    let out = jq(&sample(), ".users[0].name").unwrap();
    assert_eq!(out, JNode::Scalar(JScalar::String("Ada".to_string())));
}

#[test]
fn maps_multiple_outputs_into_array() {
    let out = jq(&sample(), ".users[].name").unwrap();
    assert_eq!(out, node(r#"["Ada", "Grace"]"#));
}

#[test]
fn empty_stream_becomes_empty_array() {
    let out = jq(&sample(), ".users[] | select(.age > 200)").unwrap();
    assert_eq!(out, node(r#"[]"#));
}

#[test]
fn invalid_expr_is_an_error() {
    assert!(jq(&sample(), ".users[").is_err());
}

#[test]
fn jq_prepare_hands_over_the_compact_text() {
    assert_eq!(jq_prepare(&node(r#"{"a": [1, "x"]}"#), ".a").unwrap(), r#"{"a":[1,"x"]}"#);
}

#[test]
fn jq_prepare_says_which_step_failed() {
    match jq_prepare(&sample(), ".users[") {
        Err(e @ JqError::Parse(_)) => assert!(e.message().starts_with("jq parse error: ")),
        other => panic!("unexpected {:?}", other),
    }
    match jq_prepare(&sample(), "nosuchfilter") {
        Err(e @ JqError::Compile(_)) => assert!(e.message().starts_with("jq compile error: ")),
        other => panic!("unexpected {:?}", other),
    }
    assert_eq!(JqError::Runtime("boom".to_string()).message(), "jq runtime error: boom");
}
