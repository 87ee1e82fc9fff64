use jsoned::convert::{
    array_cell_text, check_toml, csv_to_json, flatten_to_rows, input_format, json_to_csv, output_format, row_insert, row_extend,
    serialize_document, csv_records_to_json, jsonl_lines, parse_document, parse_json_document, to_jsonl, ConvertError, Format,
};
use jsoned::plugin::{collect_outputs, JqPlugin};
use jsoned::tree::{JNode, JScalar};

fn from_value(v: serde_json::Value) -> JNode {
    match v {
        serde_json::Value::Null => JNode::Scalar(JScalar::Null),
        serde_json::Value::Bool(b) => JNode::Scalar(JScalar::Bool(b)),
        serde_json::Value::Number(n) => JNode::Scalar(JScalar::Number(n.to_string())),
        serde_json::Value::String(s) => JNode::Scalar(JScalar::String(s)),
        serde_json::Value::Array(a) => JNode::Array { items: a.into_iter().map(from_value).collect(), collapsed: false },
        serde_json::Value::Object(m) => JNode::Object {
            entries: m.into_iter().map(|(k, v)| (k, from_value(v))).collect(),
            collapsed: false,
        },
    }
}

fn node(text: &str) -> JNode {
    from_value(serde_json::from_str(text).unwrap())
}

fn cells(rows: &[Vec<(String, String)>]) -> Vec<Vec<(&str, &str)>> {
    rows.iter().map(|r| r.iter().map(|(k, v)| (k.as_str(), v.as_str())).collect()).collect()
}

#[test]
fn scalar_root_is_one_value_cell() {
    let rows = flatten_to_rows(&node("42"), "", true);
    assert_eq!(cells(&rows), vec![vec![("value", "42")]]);
    let rows = flatten_to_rows(&node(r#""x""#), "p", false);
    assert_eq!(cells(&rows), vec![vec![("p", "x")]]);
}

#[test]
fn nested_objects_get_dotted_columns() {
    let rows = flatten_to_rows(&node(r#"{"a": 1, "b": {"c": null, "d": true}, "e": "s"}"#), "", true);
    assert_eq!(cells(&rows), vec![vec![("a", "1"), ("b.c", ""), ("b.d", "true"), ("e", "s")]]);
}

#[test]
fn first_array_of_objects_explodes_into_rows() {
    let rows = flatten_to_rows(
        &node(r#"{"id": 7, "items": [{"n": "x"}, {"n": "y", "q": 2}], "more": [{"z": 1}]}"#),
        "",
        true,
    );
    assert_eq!(
        cells(&rows),
        vec![
            vec![("id", "7"), ("more", r#"[{"z":1}]"#), ("items.n", "x")],
            vec![("id", "7"), ("more", r#"[{"z":1}]"#), ("items.n", "y"), ("items.q", "2")],
        ]
    );
}

#[test]
fn arrays_in_cells() {
    assert_eq!(array_cell_text(&vec![node("1"), node(r#""a""#), node("null"), node("false")]), "1;a;;false");
    assert_eq!(array_cell_text(&vec![node("1"), node("[2]")]), "[1,[2]]");
    assert_eq!(array_cell_text(&vec![]), "");
    let rows = flatten_to_rows(&node(r#"{"t": ["a", "b"]}"#), "", true);
    assert_eq!(cells(&rows), vec![vec![("t", "a;b")]]);
}

#[test]
fn nested_levels_do_not_explode() {
    let rows = flatten_to_rows(&node(r#"{"o": {"l": [{"a": 1}]}}"#), "", true);
    assert_eq!(cells(&rows), vec![vec![("o.l", r#"[{"a":1}]"#)]]);
}

#[test]
fn repeated_column_keeps_first_place_and_last_text() {
    let mut row: Vec<(String, String)> = Vec::new();
    row_insert(&mut row, "a".into(), "1".into());
    row_insert(&mut row, "b".into(), "2".into());
    row_insert(&mut row, "a".into(), "3".into());
    assert_eq!(cells(&[row.clone()]), vec![vec![("a", "3"), ("b", "2")]]);
    let other = vec![("c".to_string(), "4".to_string()), ("b".to_string(), "5".to_string())];
    row_extend(&mut row, &other);
    assert_eq!(cells(&[row]), vec![vec![("a", "3"), ("b", "5"), ("c", "4")]]);
}

#[test]
fn csv_export_of_array_of_objects() {
    let out = json_to_csv(&node(r#"[{"a": 1, "b": "x,y"}, {"b": "z", "c": true}]"#)).unwrap();
    assert_eq!(out, "a,b,c\n1,\"x,y\",\n,z,true\n");
}

#[test]
fn csv_export_headers_in_first_seen_order() {
    let out = json_to_csv(&node(r#"[{"a": 1, "b": 2}, {"c": 3, "a": 4}]"#)).unwrap();
    assert_eq!(out, "a,b,c\n1,2,\n4,,3\n");
}

#[test]
fn csv_export_edge_cases() {
    assert_eq!(json_to_csv(&node("[]")).unwrap(), "");
    assert_eq!(json_to_csv(&node("1")), Err(ConvertError::NotTabular));
    assert_eq!(json_to_csv(&node(r#"{"k": "v"}"#)).unwrap(), "k\nv\n");
    assert_eq!(json_to_csv(&node("[1, 2]")).unwrap(), "value\n1\n2\n");
}

#[test]
fn csv_import_makes_objects_of_strings() {
    let doc = csv_to_json("name,age\nAda,36\nGrace,85\n").unwrap();
    assert_eq!(doc, node(r#"[{"name": "Ada", "age": "36"}, {"name": "Grace", "age": "85"}]"#));
}

#[test]
fn csv_import_errors_carry_the_reader_message() {
    match csv_to_json("a,b\n1,2,3\n") {
        Err(ConvertError::Csv(m)) => assert!(!m.is_empty()),
        other => panic!("expected a CSV error, got {other:?}"),
    }
}

#[test]
fn csv_round_trip_of_flat_table() {
    let doc = csv_to_json("a,b\nx,\"y,z\"\n").unwrap();
    assert_eq!(json_to_csv(&doc).unwrap(), "a,b\nx,\"y,z\"\n");
}

#[test]
fn toml_refuses_nulls_anywhere() {
    assert_eq!(check_toml(&node(r#"{"a": [1, {"b": null}]}"#)), Err(ConvertError::NullInToml));
    assert_eq!(check_toml(&node(r#"{"a": [1, {"b": 2}]}"#)), Ok(()));
    assert_eq!(ConvertError::NullInToml.message(), "TOML does not support null values");
}

#[test]
fn formats_by_name() {
    assert_eq!(input_format("yml"), Format::Yaml);
    assert_eq!(input_format("toml"), Format::Toml);
    assert_eq!(input_format("csv"), Format::Csv);
    assert_eq!(input_format("jsonl"), Format::Jsonl);
    assert_eq!(input_format("txt"), Format::Json);
    assert_eq!(output_format("jsonl"), Ok(Format::Jsonl));
    assert_eq!(output_format("json"), Ok(Format::Json));
    assert_eq!(output_format("yaml"), Ok(Format::Yaml));
    let e = output_format("xml").unwrap_err();
    assert_eq!(e, ConvertError::UnsupportedFormat("xml".to_string()));
    assert_eq!(e.message(), "unsupported format: xml (supported: json, yaml, toml, csv, jsonl)");
    assert_eq!(ConvertError::NotTabular.message(), "CSV export requires a JSON object or array at root");
}

#[test]
fn jq_outputs_are_collected() {
    assert_eq!(collect_outputs(vec![node(r#""Ada""#)]), node(r#""Ada""#));
    assert_eq!(collect_outputs(vec![node(r#""Ada""#), node(r#""Grace""#)]), node(r#"["Ada", "Grace"]"#));
    assert_eq!(collect_outputs(vec![]), node("[]"));
    assert_eq!(JqPlugin.name(), "jq");
    assert_eq!(JqPlugin.prompt(), "jq filter:");
}

#[test]
fn number_cells_are_written_as_json_writes_them() {
    let n = JNode::Scalar(JScalar::Number("1e2".into()));
    let rows = flatten_to_rows(&n, "", true);
    assert_eq!(cells(&rows), vec![vec![("value", "100.0")]]);
}

#[test]
fn serialize_document_in_each_format() {
    let doc = node(r#"{"name": "Ada", "tags": ["x", "y"], "n": 1.5}"#);
    assert_eq!(
        serialize_document(&doc, "json").unwrap(),
        "{\n  \"name\": \"Ada\",\n  \"tags\": [\n    \"x\",\n    \"y\"\n  ],\n  \"n\": 1.5\n}"
    );
    assert_eq!(serialize_document(&doc, "yaml").unwrap(), "name: Ada\ntags:\n- x\n- y\nn: 1.5\n");
    assert_eq!(serialize_document(&doc, "yml").unwrap(), serialize_document(&doc, "yaml").unwrap());
    assert_eq!(serialize_document(&doc, "toml").unwrap(), "n = 1.5\nname = \"Ada\"\ntags = [\n    \"x\",\n    \"y\",\n]\n");
    assert_eq!(serialize_document(&node(r#"[{"a": 1}, {"a": 2}]"#), "csv").unwrap(), "a\n1\n2\n");
}

#[test]
fn serialize_document_errors() {
    assert_eq!(
        serialize_document(&node("{}"), "xml"),
        Err(ConvertError::UnsupportedFormat("xml".to_string()))
    );
    assert_eq!(serialize_document(&node(r#"{"a": null}"#), "toml"), Err(ConvertError::NullInToml));
    assert_eq!(serialize_document(&node("1"), "csv"), Err(ConvertError::NotTabular));
    assert_eq!(ConvertError::Serialize("bad".to_string()).message(), "bad");
}

#[test]
fn csv_records_make_objects_of_strings() {
    let hs = vec!["a".to_string(), "b".to_string()];
    let recs = vec![vec!["1".to_string(), "x".to_string()], vec!["2".to_string(), "y".to_string()]];
    assert_eq!(csv_records_to_json(&hs, &recs), node(r#"[{"a": "1", "b": "x"}, {"a": "2", "b": "y"}]"#));
    assert_eq!(csv_records_to_json(&hs, &vec![]), node("[]"));
}

#[test]
fn jsonl_writes_one_line_per_element() {
    assert_eq!(to_jsonl(&node(r#"[{"a": 1}, [2, "x"], null]"#)), "{\"a\":1}\n[2,\"x\"]\nnull\n");
    assert_eq!(to_jsonl(&node(r#"{"a": [1]}"#)), "{\"a\":[1]}\n");
    assert_eq!(to_jsonl(&node("[]")), "");
    assert_eq!(serialize_document(&node("[1, 2]"), "jsonl").unwrap(), "1\n2\n");
}

#[test]
fn jsonl_lines_skip_blank_lines() {
    assert_eq!(jsonl_lines("{\"a\":1}\n\n  \n[2]\r\n3"), vec!["{\"a\":1}".to_string(), "[2]\r".to_string(), "3".to_string()]);
    assert!(jsonl_lines("").is_empty());
    assert!(jsonl_lines("\n\n").is_empty());
}

#[test]
fn parse_document_reads_json_keeping_key_order() {
    let n = parse_document(r#"{"b": 1, "a": [true, null, "x", 2.5, 10]}"#, "json").unwrap();
    assert_eq!(n, node(r#"{"b": 1, "a": [true, null, "x", 2.5, 10]}"#));
    assert_eq!(parse_json_document(r#""~/a""#).unwrap(), JNode::Scalar(JScalar::String("~/a".to_string())));
    let keyed = parse_document(r#"{"a/b": {"~": 1}, "": 2}"#, "json").unwrap();
    assert_eq!(keyed, node(r#"{"a/b": {"~": 1}, "": 2}"#));
    match parse_document("{oops", "json") {
        Err(e @ ConvertError::Json(_)) => assert!(e.message().starts_with("invalid JSON: ")),
        other => panic!("unexpected {:?}", other),
    }
}

#[test]
fn parse_document_reads_yaml_and_toml() {
    let y = parse_document("name: Ada\ntags:\n  - x\n  - 2\n", "yaml").unwrap();
    assert_eq!(y, node(r#"{"name": "Ada", "tags": ["x", 2]}"#));
    assert_eq!(parse_document("a: 1\n", "yml").unwrap(), node(r#"{"a": 1}"#));
    let t = parse_document("z = 1\na = 1.5\nwhen = 1979-05-27T07:32:00Z\n[t]\nk = \"v\"\n", "toml").unwrap();
    assert_eq!(t, node(r#"{"a": 1.5, "t": {"k": "v"}, "when": "1979-05-27T07:32:00Z", "z": 1}"#));
    match parse_document("a = ", "toml") {
        Err(e @ ConvertError::Toml(_)) => assert!(e.message().starts_with("invalid TOML: ")),
        other => panic!("unexpected {:?}", other),
    }
    match parse_document("a: [", "yaml") {
        Err(ConvertError::Yaml(m)) => assert!(!m.is_empty()),
        other => panic!("unexpected {:?}", other),
    }
}

#[test]
fn parse_document_reads_csv_and_jsonl() {
    assert_eq!(parse_document("a,b\n1,x\n", "csv").unwrap(), node(r#"[{"a": "1", "b": "x"}]"#));
    assert_eq!(parse_document("{\"a\":1}\n\n[2]\n3\n", "jsonl").unwrap(), node(r#"[{"a": 1}, [2], 3]"#));
    assert_eq!(parse_document("", "jsonl").unwrap(), node("[]"));
    match parse_document("1\n{bad\n", "jsonl") {
        Err(ConvertError::Json(_)) => {}
        other => panic!("unexpected {:?}", other),
    }
}

#[test]
fn toml_writes_integers_beyond_i64_as_floats() {
    let doc = node(r#"{"big": 18446744073709551615, "edge": 9223372036854775807, "neg": -5}"#);
    assert_eq!(
        serialize_document(&doc, "toml").unwrap(),
        "big = 18446744073709552000.0\nedge = 9223372036854775807\nneg = -5\n"
    );
    assert_eq!(serialize_document(&doc, "json").unwrap().contains("18446744073709551615"), true);
}
