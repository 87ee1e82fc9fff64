use jsoned::diff::diff;
use jsoned::editor::App;
use jsoned::keys::{Key, KeyPress};
use jsoned::tree::{flatten, JNode, JScalar};
use jsoned::view::{column_widths, diff_cells, diff_status_line, editor_hint, editor_status_line, explorer_cells, key_name};

fn from_value(v: serde_json::Value) -> JNode {
    match v {
        serde_json::Value::Null => JNode::Scalar(JScalar::Null),
        serde_json::Value::Bool(b) => JNode::Scalar(JScalar::Bool(b)),
        serde_json::Value::Number(n) => JNode::Scalar(JScalar::Number(n.to_string())),
        serde_json::Value::String(s) => JNode::Scalar(JScalar::String(s)),
        serde_json::Value::Array(a) => JNode::Array { items: a.into_iter().map(from_value).collect(), collapsed: false },
        serde_json::Value::Object(m) => JNode::Object {
            entries: m.into_iter().map(|(k, v)| (k, from_value(v))).collect(),
            collapsed: false,
        },
    }
}

fn node(text: &str) -> JNode {
    from_value(serde_json::from_str(text).unwrap())
}

#[test]
fn column_widths_follow_the_table_width() {
    assert_eq!(column_widths(100, 4), (33, 15, 48));
    assert_eq!(column_widths(30, 6), (15, 15, 0));
}

#[test]
fn row_names() {
    assert_eq!(key_name(&Some("k".into()), None), "k");
    assert_eq!(key_name(&None, Some(3)), "Item[3]");
    assert_eq!(key_name(&None, None), "<root>");
}

#[test]
fn explorer_row_text() {
    let root = node(r#"{"items": [1, "long string value"]}"#);
    let flat = flatten(&root);
    let c = explorer_cells(&flat[1], &jsoned::tree::get_node_at_path(&root, &flat[1].path).unwrap(), 15, 10, 5);
    assert_eq!(c.pre, "  ▼ ");
    assert_eq!(c.icon, "[]");
    assert_eq!(c.name, " items   ");
    assert_eq!(c.type_cell, "Array (2) ");
    assert_eq!(c.value, "2 ite");
    let leaf = JNode::Scalar(JScalar::String("long string value".into()));
    let c = explorer_cells(&flat[3], &leaf, 15, 4, 8);
    assert_eq!(c.pre, "      ");
    assert_eq!(c.icon, " \"");
    assert_eq!(c.name, " Item[1");
    assert_eq!(c.type_cell, "Stri");
    assert_eq!(c.value, "long str");
}

#[test]
fn diff_row_text() {
    let rows = diff(Some(&node(r#"{"x": 1}"#)), Some(&node(r#"{"x": 2}"#)));
    let c = diff_cells(&rows[1], 12, 8, 20);
    assert_eq!(c.pre, "  ~ ");
    assert_eq!(c.name, " x      ");
    assert_eq!(c.type_cell, "Number  ");
    assert_eq!(c.value, "1 → 2");
}

#[test]
fn diff_status_counts_changes() {
    let rows = diff(Some(&node(r#"{"x": 1, "y": 2}"#)), Some(&node(r#"{"x": 2, "y": 2}"#)));
    assert_eq!(diff_status_line(&rows, 1), " x  ·  2 changes");
    let same = diff(Some(&node("1")), Some(&node("2")));
    assert_eq!(diff_status_line(&same, 0), "   ·  1 change");
    assert_eq!(diff_status_line(&same, 9), "   ·  1 change");
}

#[test]
fn editor_status_and_hints() {
    let mut a = App::new(node(r#"{"a": {"b": 1}}"#), None, "new file".to_string());
    assert_eq!(editor_status_line(&a, 12), " new file");
    a.cursor = 2;
    a.modified = true;
    assert_eq!(editor_status_line(&a, 12), " new file [modified]  ·  a.b");
    assert!(editor_hint(&a).starts_with("  e: edit"));
    a.handle_key(KeyPress { key: Key::Char('q'), ctrl: false, shift: false, alt: false, other: false });
    assert_eq!(editor_hint(&a), "  Press q again to quit  (any other key to cancel)");
    a.handle_key(KeyPress { key: Key::Char('q'), ctrl: false, shift: false, alt: false, other: false });
    assert!(a.save_dialog);
    assert_eq!(editor_hint(&a), "  Unsaved changes:  [s] save and quit  ·  [n] quit without saving  ·  [Esc] cancel");
    let mut b = App::new(node(r#"{"a": 1}"#), None, "x".to_string());
    b.cursor = 1;
    b.handle_key(KeyPress { key: Key::Char('e'), ctrl: false, shift: false, alt: false, other: false });
    assert_eq!(editor_hint(&b), "  ↑↓: type  Enter: confirm  Esc: cancel");
    b.handle_key(KeyPress { key: Key::Enter, ctrl: false, shift: false, alt: false, other: false });
    assert_eq!(editor_hint(&b), "  Enter: confirm  Esc: back to type");
}

#[test]
fn large_documents_show_rows_and_rebuild_time() {
    let mut text = String::from("[");
    for i in 0..5000 {
        if i > 0 {
            text.push(',');
        }
        text.push('0');
    }
    text.push(']');
    let a = App::new(node(&text), None, "big.json".to_string());
    assert_eq!(a.flat.len(), 5001);
    assert_eq!(editor_status_line(&a, 5268), " big.json  ·  5001 rows in 526.8ms");
    let small = App::new(node("[1]"), None, "s".to_string());
    assert_eq!(editor_status_line(&small, 5268), " s");
}

#[test]
fn detail_panel_titles_and_hints() {
    let mut a = App::new(node(r#"{"a": 1, "b": {}}"#), None, "x".to_string());
    assert_eq!(jsoned::view::preview_title(&a), " <root>");
    a.cursor = 1;
    assert_eq!(jsoned::view::preview_title(&a), " a");
    a.handle_key(KeyPress { key: Key::Char('e'), ctrl: false, shift: false, alt: false, other: false });
    a.handle_key(KeyPress { key: Key::Enter, ctrl: false, shift: false, alt: false, other: false });
    assert_eq!(jsoned::view::preview_title(&a), " Number a");
    assert_eq!(jsoned::view::preview_hint(&a), " Enter: confirm  Esc: back to type");
    let mut b = App::new(node(r#"{"a": 1, "b": {}}"#), None, "x".to_string());
    b.cursor = 2;
    b.handle_key(KeyPress { key: Key::Char('a'), ctrl: false, shift: false, alt: false, other: false });
    b.handle_key(KeyPress { key: Key::Enter, ctrl: false, shift: false, alt: false, other: false });
    assert_eq!(jsoned::view::preview_title(&b), " New String — key name");
    assert_eq!(jsoned::view::preview_hint(&b), " Enter: confirm  Esc: cancel");
}
