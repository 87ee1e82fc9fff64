use jsoned::editor::App;
use jsoned::keys::{Key, KeyPress};
use jsoned::lint::{is_lint_path, lint, lint_message_at};
use jsoned::search::{contains_text, search_matches};
use jsoned::tree::{path_to_string, JKey, JNode, JScalar};
use jsoned::view::{editor_hint, editor_status_line};

fn from_value(v: serde_json::Value) -> JNode {
    match v {
        serde_json::Value::Null => JNode::Scalar(JScalar::Null),
        serde_json::Value::Bool(b) => JNode::Scalar(JScalar::Bool(b)),
        serde_json::Value::Number(n) => JNode::Scalar(JScalar::Number(n.to_string())),
        serde_json::Value::String(s) => JNode::Scalar(JScalar::String(s)),
        serde_json::Value::Array(a) => JNode::Array { items: a.into_iter().map(from_value).collect(), collapsed: false },
        serde_json::Value::Object(m) => JNode::Object {
            entries: m.into_iter().map(|(k, v)| (k, from_value(v))).collect(),
            collapsed: false,
        },
    }
}

fn app(text: &str) -> App {
    App::new(from_value(serde_json::from_str(text).unwrap()), None, "doc".to_string())
}

fn press(c: char) -> KeyPress {
    KeyPress { key: Key::Char(c), ctrl: false, shift: false, alt: false, other: false }
}

fn key(k: Key) -> KeyPress {
    KeyPress { key: k, ctrl: false, shift: false, alt: false, other: false }
}

fn shift(k: Key) -> KeyPress {
    KeyPress { key: k, ctrl: false, shift: true, alt: false, other: false }
}

fn here(a: &App) -> String {
    path_to_string(&a.flat[a.cursor].path)
}

fn goto(a: &mut App, path: &str) {
    a.cursor = a.flat.iter().position(|r| path_to_string(&r.path) == path).unwrap();
}

#[test]
fn warnings_are_checked_on_load_and_after_each_edit() {
    let mut a = app(r#"{"": 1, "b": {"": 2}, "c": 3}"#);
    assert_eq!(a.lint_warnings, lint(&a.root));
    assert_eq!(a.lint_warnings.len(), 2);
    a.cursor = 1;
    assert_eq!(a.flat[1].path, vec![JKey::Field(String::new())]);
    a.handle_key(press('d'));
    assert_eq!(a.lint_warnings, lint(&a.root));
    assert_eq!(a.lint_warnings.len(), 1);
    a.handle_key(press('u'));
    assert_eq!(a.lint_warnings.len(), 2);
}

#[test]
fn warning_lookup_by_path() {
    let a = app(r#"{"": 1, "b": 2}"#);
    let empty = vec![JKey::Field(String::new())];
    let b = vec![JKey::Field("b".to_string())];
    assert!(is_lint_path(&a.lint_warnings, &empty));
    assert!(!is_lint_path(&a.lint_warnings, &b));
    assert_eq!(lint_message_at(&a.lint_warnings, &empty), Some("empty key".to_string()));
    assert_eq!(lint_message_at(&a.lint_warnings, &b), None);
}

#[test]
fn status_line_counts_warnings_and_shows_the_one_under_the_cursor() {
    let mut a = app(r#"{"": 1, "b": {"": 2}}"#);
    assert_eq!(editor_status_line(&a, 0), " doc  ·  [2 warnings]");
    goto(&mut a, "b");
    assert_eq!(editor_status_line(&a, 0), " doc  ·  b  ·  [2 warnings]");
    a.handle_key(key(Key::Tab));
    assert_eq!(here(&a), "");
    assert_eq!(editor_status_line(&a, 0), " doc  ·  [2 warnings]  ⚠ empty key");
    assert!(editor_hint(&a).ends_with("Tab: next warning [1/2]"));
    let one = app(r#"{"": 1}"#);
    assert_eq!(editor_status_line(&one, 0), " doc  ·  [1 warning]");
}

#[test]
fn tab_walks_the_warnings_and_unfolds_their_ancestors() {
    let mut a = app(r#"{"": 1, "b": {"c": {"": 2}}}"#);
    goto(&mut a, "b");
    a.handle_key(key(Key::Enter));
    assert!(a.root_collapsed_at("b"));
    a.handle_key(key(Key::Tab));
    assert_eq!(here(&a), "");
    assert_eq!(a.lint_cursor, 0);
    a.handle_key(key(Key::Tab));
    assert_eq!(a.lint_cursor, 1);
    assert_eq!(a.flat[a.cursor].path, a.lint_warnings[1].path);
    assert!(!a.root_collapsed_at("b"));
    a.handle_key(key(Key::Tab));
    assert_eq!(a.lint_cursor, 0);
    assert_eq!(here(&a), "");
    a.handle_key(shift(Key::Tab));
    assert_eq!(a.lint_cursor, 1);
    assert!(!a.modified);
}

trait Folding {
    fn root_collapsed_at(&self, key: &str) -> bool;
}

impl Folding for App {
    fn root_collapsed_at(&self, key: &str) -> bool {
        match &self.root {
            JNode::Object { entries, .. } => entries.iter().any(|(k, v)| k == key && v.is_collapsed()),
            _ => false,
        }
    }
}

#[test]
fn substring_search_ignores_case() {
    assert!(contains_text("Hello", "ell"));
    assert!(contains_text("abc", ""));
    assert!(!contains_text("abc", "abcd"));
    assert!(!contains_text("abc", "ac"));
    let a = app(r#"{"Name": "Ada", "other": {"title": "the NAME"}, "n": 5}"#);
    let hits = search_matches(&a.flat, &a.root, "name");
    let paths: Vec<String> = hits.iter().map(|&i| path_to_string(&a.flat[i].path)).collect();
    assert_eq!(paths, vec!["Name", "other.title"]);
    assert!(search_matches(&a.flat, &a.root, "").is_empty());
    assert_eq!(search_matches(&a.flat, &a.root, "5").len(), 1);
}

#[test]
fn search_types_confirms_and_cycles_through_matches() {
    let mut a = app(r#"{"apple": 1, "banana": {"apricot": 2}, "cherry": "grape ape"}"#);
    a.handle_key(press('/'));
    assert!(a.search_active);
    a.handle_key(press('a'));
    a.handle_key(press('p'));
    a.handle_key(press('x'));
    a.handle_key(key(Key::Backspace));
    assert_eq!(a.search_query, "ap");
    assert_eq!(editor_status_line(&a, 0), " / ap_");
    assert_eq!(editor_hint(&a), "  Enter: go to match  Esc: cancel");
    a.handle_key(key(Key::Enter));
    assert!(!a.search_active);
    assert_eq!(here(&a), "apple");
    assert_eq!(editor_status_line(&a, 0), " doc  ·  apple  ·  [1/3]");
    assert_eq!(editor_hint(&a), "  n/N: next/prev match  Esc: clear  /: new search");
    a.handle_key(press('n'));
    assert_eq!(here(&a), "banana.apricot");
    a.handle_key(press('n'));
    assert_eq!(here(&a), "cherry");
    a.handle_key(press('n'));
    assert_eq!(here(&a), "apple");
    a.handle_key(shift(Key::Char('N')));
    assert_eq!(here(&a), "cherry");
    assert_eq!(editor_status_line(&a, 0), " doc  ·  cherry  ·  [3/3]");
    a.handle_key(key(Key::Esc));
    assert_eq!(a.search_query, "");
    assert_eq!(editor_status_line(&a, 0), " doc  ·  cherry");
}

#[test]
fn search_without_match_says_so_and_escape_cancels() {
    let mut a = app(r#"{"a": 1}"#);
    a.handle_key(press('/'));
    a.handle_key(press('q'));
    a.handle_key(press('u'));
    assert!(a.search_active && !a.quit);
    a.handle_key(key(Key::Enter));
    assert_eq!(a.cursor, 0);
    assert_eq!(editor_status_line(&a, 0), " doc  ·  [no match]");
    a.handle_key(press('/'));
    a.handle_key(press('a'));
    a.handle_key(key(Key::Esc));
    assert!(!a.search_active);
    assert_eq!(a.search_query, "");
}

#[test]
fn g_keys_jump_to_the_ends() {
    let mut a = app(r#"{"a": 1, "b": 2, "c": 3}"#);
    a.handle_key(shift(Key::Char('G')));
    assert_eq!(here(&a), "c");
    a.handle_key(press('g'));
    assert_eq!(here(&a), "c");
    a.handle_key(press('g'));
    assert_eq!(a.cursor, 0);
    a.handle_key(key(Key::Down));
    a.handle_key(press('g'));
    a.handle_key(key(Key::Down));
    a.handle_key(press('g'));
    assert_eq!(here(&a), "b");
}

#[test]
fn collapse_and_expand_all_from_the_cursor() {
    let mut a = app(r#"{"a": {"b": {"c": 1}, "d": [1, 2]}, "e": 2}"#);
    goto(&mut a, "a");
    a.handle_key(shift(Key::Char('C')));
    assert_eq!(a.flat.len(), 3);
    assert_eq!(here(&a), "a");
    a.handle_key(shift(Key::Char('E')));
    assert_eq!(a.flat.len(), 8);
    match &a.root {
        JNode::Object { entries, .. } => match &entries[0].1 {
            JNode::Object { entries: inner, collapsed } => {
                assert!(!collapsed);
                assert!(!inner[0].1.is_collapsed() && !inner[1].1.is_collapsed());
            },
            _ => panic!("not an object"),
        },
        _ => panic!("not an object"),
    }
    goto(&mut a, "a.b");
    a.handle_key(press('C'));
    assert_eq!(a.flat.len(), 7);
    assert!(!a.modified);
}

fn obj(entries: Vec<(&str, JNode)>) -> JNode {
    JNode::Object { entries: entries.into_iter().map(|(k, v)| (k.to_string(), v)).collect(), collapsed: false }
}

fn num(n: &str) -> JNode {
    JNode::Scalar(JScalar::Number(n.to_string()))
}

fn keys(n: &JNode) -> Vec<String> {
    match n {
        JNode::Object { entries, .. } => entries.iter().map(|(k, _)| k.clone()).collect(),
        _ => panic!("not an object"),
    }
}

#[test]
fn sort_orders_the_object_under_the_cursor_and_can_be_undone() {
    let doc = obj(vec![("c", num("1")), ("B", obj(vec![("z", num("2")), ("y", num("3"))])), ("a", num("4")), ("é", num("5"))]);
    let mut a = App::new(doc, None, "doc".to_string());
    a.handle_key(shift(Key::Char('S')));
    assert_eq!(keys(&a.root), vec!["B", "a", "c", "é"]);
    match &a.root {
        JNode::Object { entries, .. } => assert_eq!(keys(&entries[0].1), vec!["z", "y"]),
        _ => unreachable!(),
    }
    assert!(a.modified);
    assert_eq!(a.cursor, 0);
    a.handle_key(press('u'));
    assert_eq!(keys(&a.root), vec!["c", "B", "a", "é"]);
    a.cursor = 1;
    a.handle_key(press('S'));
    assert_eq!(keys(&a.root), vec!["c", "B", "a", "é"]);
    assert!(!a.modified || a.history.len() == 0);
}

fn ctrl(c: char) -> KeyPress {
    KeyPress { key: Key::Char(c), ctrl: true, shift: false, alt: false, other: false }
}

#[test]
fn redo_brings_back_what_undo_took_away() {
    let mut a = app(r#"{"a": 1, "b": 2, "c": 3}"#);
    a.handle_key(ctrl('r'));
    assert_eq!(a.status, "nothing to redo");
    goto(&mut a, "b");
    a.handle_key(press('d'));
    let after = jsoned::tree::clone_node(&a.root);
    a.handle_key(press('u'));
    assert_eq!(a.flat.len(), 4);
    a.handle_key(ctrl('r'));
    assert_eq!(a.root, after);
    assert_eq!(a.status, "redo");
    a.handle_key(press('u'));
    assert_eq!(a.flat.len(), 4);
    goto(&mut a, "a");
    a.handle_key(press('d'));
    a.handle_key(ctrl('r'));
    assert_eq!(a.status, "nothing to redo");
}

#[test]
fn rename_changes_a_key_and_clears_its_warning() {
    let mut a = app(r#"{"": 1, "b": 2}"#);
    assert_eq!(a.lint_warnings.len(), 1);
    a.cursor = 1;
    a.handle_key(press('r'));
    assert_eq!(a.rename_input, Some(String::new()));
    assert_eq!(editor_status_line(&a, 0), " rename: _");
    assert_eq!(editor_hint(&a), "  Enter: rename  Esc: cancel");
    a.handle_key(press('b'));
    a.handle_key(key(Key::Enter));
    assert_eq!(a.status, "key already exists");
    assert_eq!(a.rename_input, None);
    assert!(!a.modified);
    a.handle_key(press('r'));
    a.handle_key(press('a'));
    a.handle_key(press('x'));
    a.handle_key(key(Key::Backspace));
    a.handle_key(key(Key::Enter));
    assert!(a.modified);
    assert!(a.lint_warnings.is_empty());
    assert_eq!(here(&a), "a");
    a.handle_key(press('u'));
    assert_eq!(a.lint_warnings.len(), 1);
    a.cursor = 0;
    a.handle_key(press('r'));
    assert_eq!(a.status, "only object keys can be renamed");
    assert_eq!(a.rename_input, None);
}
