use jsoned::editor::{initial_text, initial_text_with, unique_key, App, AppAction, EditMode, EditPhase, SaveOutcome, EDIT_TYPES};
use jsoned::keys::{Key, KeyPress};
use jsoned::tree::{flatten, get_node_at_path, path_to_string, JKey, JNode, JScalar};

fn from_value(v: serde_json::Value) -> JNode {
    match v {
        serde_json::Value::Null => JNode::Scalar(JScalar::Null),
        serde_json::Value::Bool(b) => JNode::Scalar(JScalar::Bool(b)),
        serde_json::Value::Number(n) => JNode::Scalar(JScalar::Number(n.to_string())),
        serde_json::Value::String(s) => JNode::Scalar(JScalar::String(s)),
        serde_json::Value::Array(a) => JNode::Array { items: a.into_iter().map(from_value).collect(), collapsed: false },
        serde_json::Value::Object(m) => JNode::Object {
            entries: m.into_iter().map(|(k, v)| (k, from_value(v))).collect(),
            collapsed: false,
        },
    }
}

fn node(text: &str) -> JNode {
    from_value(serde_json::from_str(text).unwrap())
}

fn press(c: char) -> KeyPress {
    KeyPress { key: Key::Char(c), ctrl: false, shift: false, alt: false, other: false }
}

fn key(k: Key) -> KeyPress {
    KeyPress { key: k, ctrl: false, shift: false, alt: false, other: false }
}

fn app(text: &str) -> App {
    App::new(node(text), None, "new file".to_string())
}

fn cursor_path(a: &App) -> String {
    path_to_string(&a.flat[a.cursor].path)
}

fn keys_of(n: &JNode) -> Vec<String> {
    match n {
        JNode::Object { entries, .. } => entries.iter().map(|(k, _)| k.clone()).collect(),
        _ => panic!("not an object"),
    }
}

fn goto(a: &mut App, path: &str) {
    a.cursor = a.flat.iter().position(|r| path_to_string(&r.path) == path).unwrap();
}

#[test]
fn new_editor_lists_the_document() {
    let a = app(r#"{"a": 1, "b": [true, null]}"#);
    assert_eq!(a.flat, flatten(&a.root));
    assert_eq!(a.flat.len(), 5);
    assert_eq!(a.cursor, 0);
    assert!(!a.modified);
}

#[test]
fn cursor_moves_within_rows() {
    let mut a = app(r#"{"a": 1, "b": 2}"#);
    a.handle_key(key(Key::Up));
    assert_eq!(a.cursor, 0);
    a.handle_key(press('j'));
    a.handle_key(key(Key::Down));
    a.handle_key(key(Key::Down));
    assert_eq!(a.cursor, 2);
    a.handle_key(key(Key::PageUp));
    assert_eq!(a.cursor, 0);
    a.handle_key(key(Key::PageDown));
    assert_eq!(a.cursor, 2);
}

#[test]
fn delete_removes_the_node_and_marks_modified() {
    let mut a = app(r#"{"a": 1, "b": 2, "c": 3}"#);
    goto(&mut a, "b");
    a.handle_key(press('d'));
    assert_eq!(keys_of(&a.root), vec!["a", "c"]);
    assert!(a.modified);
    assert_eq!(a.flat, flatten(&a.root));
}

#[test]
fn deleting_the_root_is_refused() {
    let mut a = app(r#"{"a": 1}"#);
    a.handle_key(press('d'));
    assert_eq!(a.status, "cannot delete root");
    assert!(!a.modified);
}

#[test]
fn duplicate_inserts_a_copy_after_the_entry() {
    let mut a = app(r#"{"x": {"y": 1}, "z": 2}"#);
    goto(&mut a, "x");
    a.handle_key(press('D'));
    assert_eq!(keys_of(&a.root), vec!["x", "x_copy", "z"]);
    assert_eq!(cursor_path(&a), "x_copy");
    let copy = get_node_at_path(&a.root, &[JKey::Field("x_copy".into())]).unwrap();
    assert_eq!(*copy, node(r#"{"y": 1}"#));
}

#[test]
fn duplicate_in_array_inserts_after_item() {
    let mut a = app(r#"[1, 2]"#);
    goto(&mut a, "0");
    a.handle_key(press('D'));
    assert_eq!(a.root, node("[1, 1, 2]"));
    assert_eq!(cursor_path(&a), "1");
}

#[test]
fn copy_then_paste_after_and_before() {
    let mut a = app(r#"{"a": 1, "b": 2}"#);
    goto(&mut a, "a");
    a.handle_key(press('y'));
    assert_eq!(a.status, "copied: a");
    goto(&mut a, "b");
    a.handle_key(press('p'));
    assert_eq!(keys_of(&a.root), vec!["a", "b", "b_paste_copy"]);
    goto(&mut a, "a");
    a.handle_key(press('P'));
    assert_eq!(keys_of(&a.root), vec!["a_paste_copy", "a", "b", "b_paste_copy"]);
}

#[test]
fn paste_with_empty_clipboard_says_so() {
    let mut a = app(r#"{"a": 1}"#);
    goto(&mut a, "a");
    a.handle_key(press('p'));
    assert_eq!(a.status, "clipboard is empty  (y to copy)");
}

#[test]
fn move_node_swaps_with_neighbour() {
    let mut a = app(r#"{"a": 1, "b": 2, "c": 3}"#);
    goto(&mut a, "b");
    a.handle_key(press('K'));
    assert_eq!(keys_of(&a.root), vec!["b", "a", "c"]);
    assert_eq!(cursor_path(&a), "b");
    a.handle_key(press('J'));
    assert_eq!(keys_of(&a.root), vec!["a", "b", "c"]);
    goto(&mut a, "c");
    a.handle_key(press('J'));
    assert_eq!(keys_of(&a.root), vec!["a", "b", "c"]);
}

#[test]
fn enter_toggles_collapse() {
    let mut a = app(r#"{"a": {"b": 1}}"#);
    goto(&mut a, "a");
    a.handle_key(key(Key::Enter));
    assert_eq!(a.flat.len(), 2);
    a.handle_key(press(' '));
    assert_eq!(a.flat.len(), 3);
}

#[test]
fn add_child_to_object_asks_type_key_and_value() {
    let mut a = app(r#"{"a": 1}"#);
    assert_eq!(a.handle_key(press('a')), AppAction::Nothing);
    let st = a.edit.as_ref().unwrap();
    assert_eq!(st.mode, EditMode::AddChild);
    assert_eq!(st.type_cursor, 2);
    assert_eq!(a.handle_key(key(Key::Enter)), AppAction::OpenInput);
    assert_eq!(a.edit.as_ref().unwrap().phase, EditPhase::KeyEdit(String::new()));
    assert_eq!(a.handle_key(press('k')), AppAction::ForwardToInput);
    a.set_input_text("  name ".to_string());
    assert_eq!(a.handle_key(key(Key::Enter)), AppAction::OpenInput);
    assert_eq!(a.edit.as_ref().unwrap().pending_key.as_deref(), Some("name"));
    a.set_input_text("Ada".to_string());
    assert_eq!(a.handle_key(key(Key::Enter)), AppAction::Nothing);
    assert!(a.edit.is_none());
    assert_eq!(a.root, node(r#"{"a": 1, "name": "Ada"}"#));
    assert_eq!(cursor_path(&a), "name");
    assert!(a.modified);
}

#[test]
fn empty_key_name_is_refused() {
    let mut a = app(r#"{}"#);
    a.handle_key(press('a'));
    a.handle_key(key(Key::Enter));
    a.set_input_text("   ".to_string());
    assert_eq!(a.handle_key(key(Key::Enter)), AppAction::Nothing);
    assert_eq!(a.status, "key name cannot be empty");
    assert!(a.edit.is_some());
}

#[test]
fn add_child_to_array_appends() {
    let mut a = app(r#"[1]"#);
    a.handle_key(press('a'));
    for _ in 0..3 {
        a.handle_key(key(Key::Down));
    }
    assert_eq!(a.edit.as_ref().unwrap().type_cursor, 5);
    a.handle_key(key(Key::Enter));
    assert_eq!(a.root, node("[1, null]"));
}

#[test]
fn add_on_a_root_scalar_is_refused() {
    let mut a = app(r#"7"#);
    a.handle_key(press('a'));
    assert!(a.edit.is_none());
    assert_eq!(a.status, "select a container to add a child");
}

#[test]
fn add_on_a_scalar_in_an_object_adds_a_sibling_after_it() {
    let mut a = app(r#"{"a": 1, "b": 2}"#);
    goto(&mut a, "a");
    a.handle_key(press('a'));
    assert_eq!(a.edit.as_ref().unwrap().mode, EditMode::AddSibling);
    assert_eq!(a.edit.as_ref().unwrap().type_cursor, 2);
    assert_eq!(a.handle_key(key(Key::Enter)), AppAction::OpenInput);
    assert_eq!(a.edit.as_ref().unwrap().phase, EditPhase::KeyEdit(String::new()));
    a.set_input_text("n".to_string());
    assert_eq!(a.handle_key(key(Key::Enter)), AppAction::OpenInput);
    a.set_input_text("hi".to_string());
    a.handle_key(key(Key::Enter));
    assert_eq!(keys_of(&a.root), vec!["a", "n", "b"]);
    assert_eq!(a.root, node(r#"{"a": 1, "n": "hi", "b": 2}"#));
    assert_eq!(cursor_path(&a), "n");
    assert!(a.modified);
}

#[test]
fn add_on_a_scalar_in_an_array_adds_the_next_item() {
    let mut a = app(r#"[1, 2]"#);
    goto(&mut a, "0");
    a.handle_key(press('a'));
    for _ in 0..3 {
        a.handle_key(key(Key::Down));
    }
    assert_eq!(a.handle_key(key(Key::Enter)), AppAction::Nothing);
    assert_eq!(a.root, node(r#"[1, null, 2]"#));
    assert_eq!(cursor_path(&a), "1");
}

#[test]
fn edit_number_value() {
    let mut a = app(r#"{"x": 1}"#);
    goto(&mut a, "x");
    a.handle_key(press('e'));
    let st = a.edit.as_ref().unwrap();
    assert_eq!(st.mode, EditMode::Edit);
    assert_eq!(st.type_cursor, 3);
    assert_eq!(a.handle_key(key(Key::Enter)), AppAction::OpenInput);
    assert_eq!(a.edit.as_ref().unwrap().phase, EditPhase::ValueEdit("1".to_string()));
    a.set_input_text(" 42 ".to_string());
    a.handle_key(key(Key::Enter));
    assert_eq!(a.root, node(r#"{"x": 42}"#));
}

#[test]
fn edit_type_choice_stays_among_scalar_types() {
    let mut a = app(r#"{"x": "s"}"#);
    goto(&mut a, "x");
    a.handle_key(press('e'));
    a.handle_key(key(Key::Up));
    a.handle_key(key(Key::Up));
    assert_eq!(a.edit.as_ref().unwrap().type_cursor, 2);
    for _ in 0..5 {
        a.handle_key(key(Key::Down));
    }
    assert_eq!(a.edit.as_ref().unwrap().type_cursor, 5);
    assert_eq!(EDIT_TYPES[5], "Null");
    assert_eq!(a.handle_key(key(Key::Tab)), AppAction::Nothing);
    assert_eq!(a.root, node(r#"{"x": null}"#));
}

#[test]
fn edit_on_a_container_shows_a_hint() {
    let mut a = app(r#"{"o": {"k": 1}, "l": [1]}"#);
    goto(&mut a, "o");
    a.handle_key(press('e'));
    assert!(a.edit.is_none());
    assert_eq!(a.status, "use a / d to modify containers");
    goto(&mut a, "l");
    a.handle_key(press('e'));
    assert!(a.edit.is_none());
    assert_eq!(a.root, node(r#"{"o": {"k": 1}, "l": [1]}"#));
}

#[test]
fn escape_backs_out_of_the_dialog() {
    let mut a = app(r#"{"x": 1}"#);
    goto(&mut a, "x");
    a.handle_key(press('e'));
    a.handle_key(key(Key::Enter));
    a.handle_key(key(Key::Esc));
    assert_eq!(a.edit.as_ref().unwrap().phase, EditPhase::TypeSelect);
    a.handle_key(key(Key::Esc));
    assert!(a.edit.is_none());
    assert_eq!(a.root, node(r#"{"x": 1}"#));
}

#[test]
fn quit_needs_confirmation() {
    let mut a = app(r#"{}"#);
    a.handle_key(press('q'));
    assert!(a.confirm_quit && !a.quit);
    a.handle_key(press('j'));
    assert!(!a.confirm_quit);
    a.handle_key(press('q'));
    a.handle_key(press('q'));
    assert!(a.quit);
    let mut b = app(r#"{}"#);
    b.handle_key(ctrl_c());
    assert!(b.quit);
}

fn ctrl_c() -> KeyPress {
    KeyPress { key: Key::Char('c'), ctrl: true, shift: false, alt: false, other: false }
}

#[test]
fn ctrl_c_quits_from_inside_the_dialog() {
    let mut a = app(r#"{"x": 1}"#);
    goto(&mut a, "x");
    a.handle_key(press('e'));
    a.handle_key(key(Key::Enter));
    assert!(a.edit.is_some());
    a.handle_key(ctrl_c());
    assert!(a.quit);
}

#[test]
fn quitting_with_unsaved_changes_opens_the_save_dialog() {
    let mut a = app(r#"{"a": 1, "b": 2}"#);
    goto(&mut a, "a");
    a.handle_key(press('d'));
    a.handle_key(press('q'));
    a.handle_key(press('q'));
    assert!(a.save_dialog && !a.quit);
    a.handle_key(key(Key::Esc));
    assert!(!a.save_dialog && !a.quit);
    a.handle_key(press('q'));
    a.handle_key(press('q'));
    assert!(a.save_dialog);
    a.handle_key(press('j'));
    assert!(a.save_dialog && !a.quit);
    a.handle_key(press('n'));
    assert!(a.quit && !a.save_dialog);
}

#[test]
fn save_dialog_saves_then_quits() {
    let mut a = App::new(node(r#"{"a": 1}"#), Some("doc.json".to_string()), "doc.json".to_string());
    goto(&mut a, "a");
    a.handle_key(press('d'));
    a.handle_key(press('q'));
    a.handle_key(press('q'));
    assert_eq!(a.handle_key(press('s')), AppAction::SaveAndQuit);
    a.finish_save_and_quit(SaveOutcome::WriteFailed("denied".to_string()));
    assert!(!a.quit);
    assert_eq!(a.status, "save error: denied");
    a.finish_save_and_quit(SaveOutcome::Saved);
    assert!(a.quit && !a.modified);
}

#[test]
fn undo_restores_the_document_before_the_change() {
    let mut a = app(r#"{"a": 1, "b": [1, 2]}"#);
    let before = node(r#"{"a": 1, "b": [1, 2]}"#);
    a.handle_key(press('u'));
    assert_eq!(a.status, "nothing to undo");
    goto(&mut a, "b.0");
    a.handle_key(press('d'));
    goto(&mut a, "a");
    a.handle_key(press('D'));
    assert_ne!(a.root, before);
    a.handle_key(press('u'));
    assert_eq!(a.root, node(r#"{"a": 1, "b": [2]}"#));
    assert_eq!(a.status, "undo");
    a.handle_key(press('u'));
    assert_eq!(a.root, before);
    assert_eq!(a.flat, flatten(&a.root));
    a.handle_key(press('u'));
    assert_eq!(a.status, "nothing to undo");
}

#[test]
fn undo_keeps_at_most_fifty_documents() {
    let mut a = app(r#"[0]"#);
    for _ in 0..60 {
        goto(&mut a, "0");
        a.handle_key(press('D'));
    }
    assert_eq!(a.history.len(), 50);
    for _ in 0..50 {
        a.handle_key(press('u'));
    }
    assert_eq!(a.status, "undo");
    match &a.root {
        JNode::Array { items, .. } => assert_eq!(items.len(), 11),
        _ => panic!("not an array"),
    }
    a.handle_key(press('u'));
    assert_eq!(a.status, "nothing to undo");
}

#[test]
fn moving_the_cursor_keeps_no_undo_copy() {
    let mut a = app(r#"[1, 2]"#);
    a.handle_key(key(Key::Down));
    a.handle_key(press('y'));
    assert!(a.history.is_empty());
}

#[test]
fn save_without_file_and_with_file() {
    let mut a = app(r#"{}"#);
    assert_eq!(a.handle_key(press('s')), AppAction::Nothing);
    assert_eq!(a.status, "no file to save");
    let mut b = App::new(node(r#"{"a": 1}"#), Some("doc.json".to_string()), "doc.json".to_string());
    goto(&mut b, "a");
    b.handle_key(press('d'));
    assert!(b.modified);
    assert_eq!(b.handle_key(press('s')), AppAction::Save);
    b.finish_save(SaveOutcome::Saved);
    assert!(!b.modified);
    assert_eq!(b.status, "doc.json");
    b.finish_save(SaveOutcome::WriteFailed("denied".to_string()));
    assert_eq!(b.status, "save error: denied");
    b.finish_save(SaveOutcome::SerializeFailed("bad".to_string()));
    assert_eq!(b.status, "serialize error: bad");
}

#[test]
fn panes_toggle() {
    let mut a = app(r#"{}"#);
    a.handle_key(press('['));
    a.handle_key(press(']'));
    assert!(!a.show_left && !a.show_preview);
}

#[test]
fn unique_key_picks_copy_then_numbers() {
    let entries = vec![
        ("a".to_string(), JNode::Scalar(JScalar::Null)),
        ("a_copy".to_string(), JNode::Scalar(JScalar::Null)),
        ("a_2".to_string(), JNode::Scalar(JScalar::Null)),
    ];
    assert_eq!(unique_key(&entries, "b"), "b_copy");
    assert_eq!(unique_key(&entries, "a"), "a_3");
}

#[test]
fn initial_text_of_each_type() {
    let n = JNode::Scalar(JScalar::Number("12".into()));
    let s = JNode::Scalar(JScalar::String("hi".into()));
    let t = JNode::Scalar(JScalar::Bool(true));
    assert_eq!(initial_text(2, &s), "hi");
    assert_eq!(initial_text(3, &n), "12");
    assert_eq!(initial_text(3, &s), "0");
    assert_eq!(initial_text(4, &t), "true");
    assert_eq!(initial_text(4, &n), "false");
    assert_eq!(initial_text(0, &n), "");
    assert_eq!(EDIT_TYPES[3], "Number");
}

#[test]
fn scrolling_follows_the_cursor() {
    let mut text = String::from("[");
    for i in 0..40 {
        if i > 0 {
            text.push(',');
        }
        text.push_str(&i.to_string());
    }
    text.push(']');
    let mut a = app(&text);
    a.cursor = 30;
    a.follow_cursor(21);
    // 20 rows above the status line, 65% of them less 3 is 10 rows of table
    assert_eq!(a.scroll, 21);
    // the cursor's source line (index 30) fits in 18 lines: bottom brought into view
    assert_eq!(a.left_scroll, 13);
    a.cursor = 5;
    a.follow_cursor(21);
    assert_eq!(a.scroll, 5);
    assert_eq!(a.left_scroll, 5);
}

#[test]
fn initial_text_follows_the_number_check_it_is_given() {
    let n = JNode::Scalar(JScalar::Number("12".to_string()));
    assert_eq!(initial_text_with(3, &n, true), "12");
    assert_eq!(initial_text_with(3, &n, false), "0");
    let s = JNode::Scalar(JScalar::String("abc".to_string()));
    assert_eq!(initial_text_with(3, &s, true), "abc");
    assert_eq!(initial_text_with(4, &s, true), "false");
    assert_eq!(initial_text_with(2, &s, false), "abc");
    assert_eq!(initial_text_with(5, &s, true), "");
}

#[test]
fn moving_down_then_up_gives_the_document_back() {
    let mut a = app(r#"{"x": 1, "y": [1, 2, 3], "z": 3}"#);
    goto(&mut a, "y.0");
    a.handle_key(press('J'));
    assert_eq!(a.root, node(r#"{"x": 1, "y": [2, 1, 3], "z": 3}"#));
    assert_eq!(cursor_path(&a), "y.1");
    a.handle_key(press('K'));
    assert_eq!(a.root, node(r#"{"x": 1, "y": [1, 2, 3], "z": 3}"#));
    goto(&mut a, "x");
    a.handle_key(press('J'));
    a.handle_key(press('K'));
    assert_eq!(keys_of(&a.root), vec!["x", "y", "z"]);
}
