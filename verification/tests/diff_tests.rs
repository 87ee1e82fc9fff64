use jsoned::diff::{diff, diff_display_value, fold, render_report, render_text, scalar_eq, scalar_str, DiffRow, DiffStatus, ReportError};
use jsoned::diff_app::DiffApp;
use jsoned::keys::{Key, KeyPress};
use jsoned::tree::{path_to_string, JKey, JNode, JScalar};

fn from_value(v: serde_json::Value) -> JNode {
    match v {
        serde_json::Value::Null => JNode::Scalar(JScalar::Null),
        serde_json::Value::Bool(b) => JNode::Scalar(JScalar::Bool(b)),
        serde_json::Value::Number(n) => JNode::Scalar(JScalar::Number(n.to_string())),
        serde_json::Value::String(s) => JNode::Scalar(JScalar::String(s)),
        serde_json::Value::Array(a) => JNode::Array { items: a.into_iter().map(from_value).collect(), collapsed: false },
        serde_json::Value::Object(m) => JNode::Object {
            entries: m.into_iter().map(|(k, v)| (k, from_value(v))).collect(),
            collapsed: false,
        },
    }
}

fn node(text: &str) -> JNode {
    from_value(serde_json::from_str(text).unwrap())
}

fn row_at<'a>(rows: &'a [DiffRow], path: &str) -> Option<&'a DiffRow> {
    rows.iter().find(|r| path_to_string(&r.path) == path)
}

#[test]
fn added_key() {
    let a = node(r#"{"x": 1}"#);
    let b = node(r#"{"x": 1, "y": 2}"#);
    let rows = diff(Some(&a), Some(&b));

    let y = row_at(&rows, "y").unwrap();
    assert_eq!(y.status, DiffStatus::Added);

    let root = row_at(&rows, "").unwrap();
    assert_eq!(root.status, DiffStatus::Changed);
}

#[test]
fn removed_key() {
    let a = node(r#"{"x": 1, "y": 2}"#);
    let b = node(r#"{"x": 1}"#);
    let rows = diff(Some(&a), Some(&b));

    let y = row_at(&rows, "y").unwrap();
    assert_eq!(y.status, DiffStatus::Removed);

    let root = row_at(&rows, "").unwrap();
    assert_eq!(root.status, DiffStatus::Changed);
}

#[test]
fn changed_scalar() {
    let a = node(r#"{"x": 1}"#);
    let b = node(r#"{"x": 2}"#);
    let rows = diff(Some(&a), Some(&b));

    let x = row_at(&rows, "x").unwrap();
    assert_eq!(x.status, DiffStatus::Changed);
    assert_eq!(x.old_value.as_deref(), Some("1"));
    assert_eq!(x.new_value.as_deref(), Some("2"));
}

#[test]
fn unchanged_nested_object() {
    let a = node(r#"{"n": {"a": 1, "b": 2}}"#);
    let b = node(r#"{"n": {"a": 1, "b": 2}}"#);
    let rows = diff(Some(&a), Some(&b));

    for r in &rows {
        assert_eq!(r.status, DiffStatus::Unchanged, "row {} should be Unchanged", path_to_string(&r.path));
    }
}

#[test]
fn array_length_difference() {
    let a = node("[1, 2]");
    let b = node("[1, 2, 3]");
    let rows = diff(Some(&a), Some(&b));

    let idx0 = row_at(&rows, "0").unwrap();
    assert_eq!(idx0.status, DiffStatus::Unchanged);
    let idx1 = row_at(&rows, "1").unwrap();
    assert_eq!(idx1.status, DiffStatus::Unchanged);
    let idx2 = row_at(&rows, "2").unwrap();
    assert_eq!(idx2.status, DiffStatus::Added);

    let root = row_at(&rows, "").unwrap();
    assert_eq!(root.status, DiffStatus::Changed);
}

#[test]
fn type_mismatch_same_path() {
    let a = node(r#"{"x": "hello"}"#);
    let b = node(r#"{"x": {"y": 1}}"#);
    let rows = diff(Some(&a), Some(&b));

    let x = row_at(&rows, "x").unwrap();
    assert_eq!(x.status, DiffStatus::Changed);

    assert!(rows.iter().all(|r| path_to_string(&r.path) != "x.y"));
}

#[test]
fn root_type_mismatch() {
    let a = node(r#""hello""#);
    let b = node(r#"{"y": 1}"#);
    let rows = diff(Some(&a), Some(&b));

    assert_eq!(rows.len(), 1);
    assert_eq!(rows[0].status, DiffStatus::Changed);
}

// ---- further cases ----

#[test]
fn diff_with_self_is_all_unchanged() {
    let a = node(r#"{"a": [1, {"b": null}], "c": "x"}"#);
    let rows = diff(Some(&a), Some(&a));
    assert_eq!(rows.len(), 6);
    assert!(rows.iter().all(|r| r.status == DiffStatus::Unchanged));
}

#[test]
fn one_sided_diff_lists_whole_subtree() {
    let b = node(r#"{"a": [1, 2]}"#);
    let rows = diff(None, Some(&b));
    assert_eq!(rows.len(), 4);
    assert!(rows.iter().all(|r| r.status == DiffStatus::Added));
    assert_eq!(rows[1].type_label, "Array (2)");
    assert_eq!(rows[1].new_value.as_deref(), Some("2 items"));
}

#[test]
fn type_change_label_shows_both_types() {
    let rows = diff(Some(&node("1")), Some(&node("[true]")));
    assert_eq!(rows[0].type_label, "Number → Array (1)");
    assert_eq!(rows[0].old_value.as_deref(), Some("1"));
    assert_eq!(rows[0].new_value.as_deref(), Some("1 items"));
}

#[test]
fn scalar_text_and_equality() {
    assert_eq!(scalar_str(&JScalar::Null), "null");
    assert_eq!(scalar_str(&JScalar::Bool(false)), "false");
    assert_eq!(scalar_str(&JScalar::String("hi".into())), "hi");
    assert!(scalar_eq(&JScalar::Number("1".into()), &JScalar::Number("1".into())));
    assert!(!scalar_eq(&JScalar::Number("1".into()), &JScalar::Number("1.0".into())));
    assert!(!scalar_eq(&JScalar::String("1".into()), &JScalar::Number("1".into())));
}

#[test]
fn text_report_lists_changes_only() {
    let a = node(r#"{"x": 1, "y": 2, "z": 3}"#);
    let b = node(r#"{"x": 1, "y": 5, "w": 4}"#);
    let rows = diff(Some(&a), Some(&b));
    assert_eq!(render_text(&rows), "~ : 3 items -> 3 items\n~ y: 2 -> 5\n- z: 3\n+ w: 4\n");
}

#[test]
fn report_formats_and_unsupported_format() {
    let rows = diff(Some(&node(r#"{"x": 1}"#)), Some(&node(r#"{"x": 2}"#)));
    assert_eq!(render_report(&rows, "text").unwrap(), render_text(&rows));
    let json = render_report(&rows, "json").unwrap();
    let v: serde_json::Value = serde_json::from_str(&json).unwrap();
    let arr = v.as_array().unwrap();
    assert_eq!(arr.len(), 2);
    assert_eq!(arr[1]["path"], "x");
    assert_eq!(arr[1]["status"], "changed");
    assert_eq!(arr[1]["old"], "1");
    assert_eq!(arr[1]["new"], "2");
    assert!(json.contains("\n  {"));
    match render_report(&rows, "yaml") {
        Err(ReportError::UnsupportedFormat(m)) => {
            assert_eq!(m, "--diff --to only supports 'text' or 'json' (got 'yaml')")
        }
        _ => panic!("expected an unsupported-format error"),
    }
}

#[test]
fn display_value_of_change_has_arrow() {
    let rows = diff(Some(&node(r#"{"x": 1}"#)), Some(&node(r#"{"x": 2}"#)));
    assert_eq!(diff_display_value(&rows[1]), "1 → 2");
    let rows = diff(Some(&node(r#"{"x": 1}"#)), Some(&node(r#"{}"#)));
    assert_eq!(diff_display_value(&rows[1]), "1");
}

fn press(c: char) -> KeyPress {
    KeyPress { key: Key::Char(c), ctrl: false, shift: false, alt: false, other: false }
}

fn viewer() -> DiffApp {
    // rows: root(changed), a(unchanged), b(changed), c(unchanged), d(added)
    DiffApp::new(
        &node(r#"{"a": 1, "b": 2, "c": 3}"#),
        &node(r#"{"a": 1, "b": 9, "c": 3, "d": 4}"#),
        "a.json".to_string(),
        "b.json".to_string(),
    )
}

#[test]
fn viewer_starts_at_top_with_all_rows() {
    let app = viewer();
    assert_eq!(app.rows.len(), 5);
    assert_eq!(app.cursor, 0);
    assert_eq!(app.visible_indices(), vec![0, 1, 2, 3, 4]);
}

#[test]
fn viewer_only_changes_filter() {
    let mut app = viewer();
    app.handle_key(press('o'));
    assert!(app.only_changes);
    assert_eq!(app.visible_indices(), vec![0, 2, 4]);
}

#[test]
fn viewer_moves_and_stops_at_ends() {
    let mut app = viewer();
    app.handle_key(press('k'));
    assert_eq!(app.cursor, 0);
    app.handle_key(press('j'));
    assert_eq!(app.cursor, 1);
    for _ in 0..10 {
        app.move_cursor(1);
    }
    assert_eq!(app.cursor, 4);
}

#[test]
fn viewer_jumps_between_changes() {
    let mut app = viewer();
    app.handle_key(press('n'));
    assert_eq!(app.cursor, 2);
    app.handle_key(press(']'));
    assert_eq!(app.cursor, 4);
    app.handle_key(press('n'));
    assert_eq!(app.cursor, 4);
    app.handle_key(press('N'));
    assert_eq!(app.cursor, 2);
    app.jump_to_change(-1);
    assert_eq!(app.cursor, 0);
}

#[test]
fn viewer_quits_on_q_and_ctrl_c() {
    let mut app = viewer();
    app.handle_key(press('q'));
    assert!(app.quit);
    let mut app = viewer();
    app.handle_key(KeyPress { key: Key::Char('c'), ctrl: true, shift: false, alt: false, other: false });
    assert!(app.quit);
    let mut app = viewer();
    app.handle_key(press('x'));
    assert!(!app.quit);
    assert_eq!(app.cursor, 0);
}

#[test]
fn viewer_scroll_follows_cursor() {
    let mut app = viewer();
    app.cursor = 4;
    app.follow_cursor(2);
    assert_eq!(app.scroll, 3);
    app.cursor = 1;
    app.follow_cursor(2);
    assert_eq!(app.scroll, 1);
}

#[test]
fn jump_keys_do_nothing_off_the_shown_rows() {
    let mut app = viewer();
    app.cursor = 1;
    app.handle_key(press('o'));
    app.handle_key(press('n'));
    assert_eq!(app.cursor, 1);
    let _ = JKey::Index(0);
}

#[test]
fn status_folding() {
    assert_eq!(fold(DiffStatus::Unchanged, DiffStatus::Unchanged), DiffStatus::Unchanged);
    assert_eq!(fold(DiffStatus::Unchanged, DiffStatus::Added), DiffStatus::Changed);
    assert_eq!(fold(DiffStatus::Changed, DiffStatus::Unchanged), DiffStatus::Changed);
    assert_eq!(fold(DiffStatus::Unchanged, DiffStatus::Removed), DiffStatus::Changed);
}

#[test]
fn key_order_alone_leaves_every_row_unchanged() {
    let a = node(r#"{"a": 1, "b": [1, {"c": true}]}"#);
    let b = node(r#"{"b": [1, {"c": true}], "a": 1}"#);
    let rows = diff(Some(&a), Some(&b));
    assert!(rows.iter().all(|r| r.status == DiffStatus::Unchanged));
    let c = node(r#"{"b": [1, {"c": false}], "a": 1}"#);
    let rows = diff(Some(&a), Some(&c));
    assert!(rows.iter().any(|r| r.status != DiffStatus::Unchanged));
}

#[test]
fn kind_change_deep_in_the_tree_is_one_row() {
    let a = node(r#"{"k": 0, "x": [1, {"y": "hello"}], "z": true}"#);
    let b = node(r#"{"k": 1, "x": [1, {"y": {"w": 1, "v": [2]}}], "z": false}"#);
    let rows = diff(Some(&a), Some(&b));
    let target = vec![JKey::Field("x".to_string()), JKey::Index(1), JKey::Field("y".to_string())];
    let under: Vec<&DiffRow> = rows.iter().filter(|r| r.path.starts_with(&target)).collect();
    assert_eq!(under.len(), 1);
    assert_eq!(under[0].path, target);
    assert_eq!(under[0].status, DiffStatus::Changed);
    assert_eq!(under[0].type_label, "String → Object");
    assert_eq!(under[0].key, Some("y".to_string()));
    assert_eq!(under[0].index, None);
}
