use jsoned::lint::{lint, patch_lint, LintWarning, MAX_DEPTH};
use jsoned::tree::{get_node_at_path_mut, set_node_at_path, JKey, JNode, JPath, JScalar};

fn from_value(v: serde_json::Value) -> JNode {
    match v {
        serde_json::Value::Null => JNode::Scalar(JScalar::Null),
        serde_json::Value::Bool(b) => JNode::Scalar(JScalar::Bool(b)),
        serde_json::Value::Number(n) => JNode::Scalar(JScalar::Number(n.to_string())),
        serde_json::Value::String(s) => JNode::Scalar(JScalar::String(s)),
        serde_json::Value::Array(a) => JNode::Array { items: a.into_iter().map(from_value).collect(), collapsed: false },
        serde_json::Value::Object(m) => JNode::Object {
            entries: m.into_iter().map(|(k, v)| (k, from_value(v))).collect(),
            collapsed: false,
        },
    }
}

fn node(text: &str) -> JNode {
    from_value(serde_json::from_str(text).unwrap())
}

fn field(name: &str) -> JKey {
    JKey::Field(name.to_string())
}

fn entries_at<'a>(root: &'a mut JNode, path: &JPath) -> &'a mut Vec<(String, JNode)> {
    match get_node_at_path_mut(root, path).unwrap() {
        JNode::Object { entries, .. } => entries,
        _ => panic!("not an object"),
    }
}

fn items_at<'a>(root: &'a mut JNode, path: &JPath) -> &'a mut Vec<JNode> {
    match get_node_at_path_mut(root, path).unwrap() {
        JNode::Array { items, .. } => items,
        _ => panic!("not an array"),
    }
}

fn position(entries: &[(String, JNode)], key: &str) -> usize {
    entries.iter().position(|(k, _)| k == key).unwrap()
}

/// A normal, warning-free fixture.
fn clean_tree() -> JNode {
    node(r#"{
        "meta": { "name": "demo", "tags": ["x", "y"] },
        "items": [
            { "id": 1, "nested": { "a": 1 } },
            { "id": 2, "nested": { "a": 2 } }
        ],
        "flag": true
    }"#)
}

#[test]
fn no_warnings_before_or_after_is_a_true_noop() {
    let mut root = clean_tree();
    let mut warnings = lint(&root);
    assert!(warnings.is_empty());
    let target: JPath = vec![field("flag")];
    set_node_at_path(&mut root, &target, JNode::Scalar(JScalar::Bool(false)));
    let ok = patch_lint(&mut warnings, &root, &target);
    assert!(ok);
    assert_eq!(warnings, lint(&root));
    assert!(warnings.is_empty());
}

#[test]
fn existing_warning_resolved_by_edit() {
    let mut root = clean_tree();
    // introduce an empty key under "meta" up front
    let target: JPath = vec![field("meta")];
    entries_at(&mut root, &target).push((String::new(), JNode::Scalar(JScalar::Number("1".into()))));
    let mut warnings = lint(&root);
    assert_eq!(warnings.len(), 1);

    // now remove the empty key — warning should be patched away
    let entries = entries_at(&mut root, &target);
    let i = position(entries, "");
    entries.remove(i);
    let ok = patch_lint(&mut warnings, &root, &target);
    assert!(ok);
    assert_eq!(warnings, lint(&root));
    assert!(warnings.is_empty());
}

#[test]
fn existing_warning_survives_unrelated_sibling_edit() {
    let mut root = clean_tree();
    let target: JPath = vec![field("meta")];
    entries_at(&mut root, &target).push((String::new(), JNode::Scalar(JScalar::Number("1".into()))));
    let mut warnings = lint(&root);
    assert_eq!(warnings.len(), 1);

    // edit a different, unrelated key under the same parent
    let name_path: JPath = vec![field("meta"), field("name")];
    set_node_at_path(&mut root, &name_path, JNode::Scalar(JScalar::String("renamed".into())));
    let ok = patch_lint(&mut warnings, &root, &target);
    assert!(ok);
    assert_eq!(warnings, lint(&root));
    assert_eq!(warnings.len(), 1);
}

#[test]
fn deleting_parent_removes_all_descendant_warnings() {
    let mut root = clean_tree();
    let inner: JPath = vec![field("items"), JKey::Index(0), field("nested")];
    entries_at(&mut root, &inner).push((String::new(), JNode::Scalar(JScalar::Number("9".into()))));
    let mut warnings = lint(&root);
    assert_eq!(warnings.len(), 1);

    let parent: JPath = vec![field("items"), JKey::Index(0)];
    let entries = entries_at(&mut root, &parent);
    let i = position(entries, "nested");
    entries.remove(i);
    let ok = patch_lint(&mut warnings, &root, &parent);
    assert!(ok);
    assert_eq!(warnings, lint(&root));
    assert!(warnings.is_empty());
}

#[test]
fn new_warning_in_previously_clean_subtree_signals_fallback() {
    let mut root = clean_tree();
    let mut warnings = lint(&root);
    assert!(warnings.is_empty());

    let target: JPath = vec![field("meta")];
    entries_at(&mut root, &target).push((String::new(), JNode::Scalar(JScalar::Number("1".into()))));
    let ok = patch_lint(&mut warnings, &root, &target);
    assert!(!ok, "patch_lint must signal false when a new warning appears where none existed");
    // caller's documented fallback:
    warnings = lint(&root);
    assert_eq!(warnings.len(), 1);
}

#[test]
fn excessive_depth_detected_at_target_itself() {
    // build a chain deeper than MAX_DEPTH under "flag"'s position
    let mut root = clean_tree();
    let mut current = JNode::Scalar(JScalar::Bool(true));
    for _ in 0..(MAX_DEPTH + 5) {
        current = JNode::Object { entries: vec![("nested".to_string(), current)], collapsed: false };
    }
    let target: JPath = vec![field("flag")];
    set_node_at_path(&mut root, &target, current);

    let mut warnings = lint(&root);
    assert!(!warnings.is_empty());

    // no-op patch at the same target: re-lint should reproduce the identical warning set
    let ok = patch_lint(&mut warnings, &root, &target);
    assert!(ok);
    assert_eq!(warnings, lint(&root));
}

#[test]
fn lint_root_as_target() {
    let mut root = clean_tree();
    let mut warnings = lint(&root);
    assert!(warnings.is_empty());

    let target: JPath = vec![];
    entries_at(&mut root, &target).push((String::new(), JNode::Scalar(JScalar::Bool(false))));
    let ok = patch_lint(&mut warnings, &root, &target);
    assert!(!ok); // new warning in a previously-clean root — same fallback case
    warnings = lint(&root);
    assert_eq!(warnings.len(), 1);
}

// ---- further cases ----

#[test]
fn empty_key_warning_names_its_path() {
    let root = node(r#"{"a": {"": 1}}"#);
    let ws = lint(&root);
    assert_eq!(ws.len(), 1);
    assert_eq!(ws[0].path, vec![field("a"), field("")]);
    assert_eq!(ws[0].message, "empty key");
}

#[test]
fn depth_just_at_limit_is_not_reported() {
    let mut current = JNode::Scalar(JScalar::Null);
    for _ in 0..MAX_DEPTH {
        current = JNode::Array { items: vec![current], collapsed: false };
    }
    let ws: Vec<LintWarning> = lint(&current);
    assert!(ws.is_empty());
    let deeper = JNode::Array { items: vec![current], collapsed: false };
    let ws = lint(&deeper);
    assert_eq!(ws.len(), 1);
    assert_eq!(ws[0].message, "excessive nesting depth (21)");
    assert_eq!(ws[0].path.len(), MAX_DEPTH + 1);
}

#[test]
fn patching_at_an_empty_key_keeps_its_own_warning() {
    let mut root = node(r#"{"a": 1, "": {"x": 1}, "b": 2}"#);
    let mut warnings = lint(&root);
    assert_eq!(warnings.len(), 1);
    let target = vec![field("")];
    set_node_at_path(&mut root, &target, JNode::Scalar(JScalar::Bool(true)));
    assert!(patch_lint(&mut warnings, &root, &target));
    assert_eq!(warnings, lint(&root));
    assert_eq!(warnings.len(), 1);
    assert_eq!(warnings[0].path, target);
    assert_eq!(warnings[0].message, "empty key");
}
