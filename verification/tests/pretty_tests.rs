use jsoned::pretty::{annotate, indent_segs, patch_annotated, scalar_seg, AnnotatedLine, SegColor};
use jsoned::tree::{get_node_at_path_mut, set_node_at_path, JKey, JNode, JPath, JScalar};

fn from_value(v: serde_json::Value) -> JNode {
    match v {
        serde_json::Value::Null => JNode::Scalar(JScalar::Null),
        serde_json::Value::Bool(b) => JNode::Scalar(JScalar::Bool(b)),
        serde_json::Value::Number(n) => JNode::Scalar(JScalar::Number(n.to_string())),
        serde_json::Value::String(s) => JNode::Scalar(JScalar::String(s)),
        serde_json::Value::Array(a) => JNode::Array { items: a.into_iter().map(from_value).collect(), collapsed: false },
        serde_json::Value::Object(m) => JNode::Object {
            entries: m.into_iter().map(|(k, v)| (k, from_value(v))).collect(),
            collapsed: false,
        },
    }
}

fn node(text: &str) -> JNode {
    from_value(serde_json::from_str(text).unwrap())
}

/// ~4 levels deep, mixes Object/Array, multi-child siblings, an empty container.
fn sample_tree() -> JNode {
    node(r#"{
        "meta": { "name": "demo", "tags": ["x", "y", "z"] },
        "items": [
            { "id": 1, "nested": { "a": 1, "b": 2 } },
            { "id": 2, "nested": { "a": 3, "b": 4 } },
            { "id": 3, "nested": {} }
        ],
        "empty_obj": {},
        "flag": true
    }"#)
}

fn field(name: &str) -> JKey {
    JKey::Field(name.to_string())
}

fn entries_at<'a>(root: &'a mut JNode, path: &JPath) -> &'a mut Vec<(String, JNode)> {
    match get_node_at_path_mut(root, path).unwrap() {
        JNode::Object { entries, .. } => entries,
        _ => panic!("not an object"),
    }
}

fn items_at<'a>(root: &'a mut JNode, path: &JPath) -> &'a mut Vec<JNode> {
    match get_node_at_path_mut(root, path).unwrap() {
        JNode::Array { items, .. } => items,
        _ => panic!("not an array"),
    }
}

fn position(entries: &[(String, JNode)], key: &str) -> usize {
    entries.iter().position(|(k, _)| k == key).unwrap()
}

fn assert_patch_matches_full(root: &JNode, annotated: &mut Vec<AnnotatedLine>, target: &JPath) {
    let span = patch_annotated(annotated, root, target).expect("patch should find target");
    assert_eq!(*annotated, annotate(root), "patched annotated differs from full annotate()");
    assert_eq!(annotated[span.start].path, *target, "target line not at span.start");
}

#[test]
fn pretty_replace_scalar_first_middle_last_of_array() {
    for idx in [0usize, 1, 2] {
        let mut root = sample_tree();
        let mut annotated = annotate(&root);
        let target: JPath = vec![field("meta"), field("tags"), JKey::Index(idx)];
        set_node_at_path(&mut root, &target, JNode::Scalar(JScalar::String("changed".into())));
        assert_patch_matches_full(&root, &mut annotated, &target);
    }
}

#[test]
fn pretty_replace_scalar_with_object_grows_subtree() {
    let mut root = sample_tree();
    let mut annotated = annotate(&root);
    let target: JPath = vec![field("flag")];
    set_node_at_path(&mut root, &target, node(r#"{"a": 1, "b": 2}"#));
    assert_patch_matches_full(&root, &mut annotated, &target);
}

#[test]
fn pretty_delete_first_key_of_object() {
    let mut root = sample_tree();
    let mut annotated = annotate(&root);
    let target: JPath = vec![field("meta")];
    let entries = entries_at(&mut root, &target);
    let i = position(entries, "name");
    entries.remove(i);
    assert_patch_matches_full(&root, &mut annotated, &target);
}

#[test]
fn pretty_insert_key_into_middle_of_object() {
    let mut root = sample_tree();
    let mut annotated = annotate(&root);
    let target: JPath = vec![field("meta")];
    entries_at(&mut root, &target).insert(1, ("extra".to_string(), JNode::Scalar(JScalar::Bool(true))));
    assert_patch_matches_full(&root, &mut annotated, &target);
}

#[test]
fn pretty_swap_adjacent_object_keys() {
    let mut root = sample_tree();
    let mut annotated = annotate(&root);
    let target: JPath = vec![field("meta")];
    entries_at(&mut root, &target).swap(0, 1);
    assert_patch_matches_full(&root, &mut annotated, &target);
}

#[test]
fn pretty_rename_key_in_place_same_index() {
    let mut root = sample_tree();
    let mut annotated = annotate(&root);
    let target: JPath = vec![field("meta")];
    let entries = entries_at(&mut root, &target);
    let idx = position(entries, "name");
    let (_, val) = entries.remove(idx);
    entries.insert(idx, ("full_name".to_string(), val));
    assert_patch_matches_full(&root, &mut annotated, &target);
}

#[test]
fn pretty_root_as_target() {
    let mut root = sample_tree();
    let mut annotated = annotate(&root);
    let target: JPath = vec![];
    entries_at(&mut root, &target).push(("new_top_level".to_string(), JNode::Scalar(JScalar::Bool(false))));
    assert_patch_matches_full(&root, &mut annotated, &target);
}

#[test]
fn pretty_deep_target_depth_four() {
    let mut root = sample_tree();
    let mut annotated = annotate(&root);
    let target: JPath = vec![field("items"), JKey::Index(1), field("nested"), field("a")];
    set_node_at_path(&mut root, &target, JNode::Scalar(JScalar::Number("999".into())));
    assert_patch_matches_full(&root, &mut annotated, &target);
}

#[test]
fn comma_boundary_first_element_of_array() {
    let mut root = sample_tree();
    let mut annotated = annotate(&root);
    let target: JPath = vec![field("meta"), field("tags"), JKey::Index(0)];
    set_node_at_path(&mut root, &target, JNode::Scalar(JScalar::String("Q".into())));
    assert_patch_matches_full(&root, &mut annotated, &target);
}

#[test]
fn comma_boundary_middle_element_of_array() {
    let mut root = sample_tree();
    let mut annotated = annotate(&root);
    let target: JPath = vec![field("meta"), field("tags"), JKey::Index(1)];
    set_node_at_path(&mut root, &target, JNode::Scalar(JScalar::String("Q".into())));
    assert_patch_matches_full(&root, &mut annotated, &target);
}

#[test]
fn comma_boundary_last_element_of_array_has_no_trailing_comma() {
    let mut root = sample_tree();
    let mut annotated = annotate(&root);
    let target: JPath = vec![field("meta"), field("tags"), JKey::Index(2)];
    set_node_at_path(&mut root, &target, JNode::Scalar(JScalar::String("Q".into())));
    let span = patch_annotated(&mut annotated, &root, &target).unwrap();
    let last_line = &annotated[span.start];
    assert!(
        !last_line.segs.last().is_some_and(|s| s.text == ","),
        "last array element must not have a trailing comma"
    );
    assert_eq!(annotated, annotate(&root));
}

#[test]
fn pretty_insert_first_key_into_previously_empty_object() {
    let mut root = sample_tree();
    let mut annotated = annotate(&root);
    let target: JPath = vec![field("empty_obj")];
    entries_at(&mut root, &target).push(("first".to_string(), JNode::Scalar(JScalar::Number("1".into()))));
    assert_patch_matches_full(&root, &mut annotated, &target);
}

#[test]
fn delete_only_remaining_key_leaves_empty_object() {
    let mut root = sample_tree();
    let target: JPath = vec![field("empty_obj")];
    entries_at(&mut root, &target).push(("only".to_string(), JNode::Scalar(JScalar::Number("1".into()))));
    // snapshot AFTER inserting "only" (that's the "old" state being patched from)
    let mut annotated = annotate(&root);
    let entries = entries_at(&mut root, &target);
    let i = position(entries, "only");
    entries.remove(i);
    assert_patch_matches_full(&root, &mut annotated, &target);
}

#[test]
fn patch_annotated_returns_none_for_nonexistent_path() {
    let root = sample_tree();
    let mut annotated = annotate(&root);
    let bogus: JPath = vec![field("does_not_exist")];
    assert!(patch_annotated(&mut annotated, &root, &bogus).is_none());
}

// ---- further cases ----

fn line_text(l: &AnnotatedLine) -> String {
    l.segs.iter().map(|s| s.text.as_str()).collect()
}

#[test]
fn annotate_pretty_prints_with_two_space_indent() {
    let root = node(r#"{"a": [1, "x"], "b": null, "e": {}}"#);
    let lines: Vec<String> = annotate(&root).iter().map(line_text).collect();
    assert_eq!(
        lines,
        vec!["{", "  \"a\": [", "    1,", "    \"x\"", "  ],", "  \"b\": null,", "  \"e\": {}", "}"]
    );
}

#[test]
fn annotate_colours_keys_and_values() {
    let root = node(r#"{"k": true}"#);
    let lines = annotate(&root);
    let segs = &lines[1].segs;
    assert_eq!(segs.iter().find(|s| s.text.contains('k')).unwrap().color, SegColor::Key);
    assert_eq!(segs.iter().find(|s| s.text == "true").unwrap().color, SegColor::Bool);
    assert_eq!(lines[1].path, vec![field("k")]);
}

#[test]
fn indentation_and_scalar_segments() {
    assert!(indent_segs(0).is_empty());
    let segs = indent_segs(3);
    assert_eq!(segs.len(), 1);
    assert_eq!(segs[0].text, "      ");
    assert_eq!(segs[0].color, SegColor::Punct);
    assert_eq!(scalar_seg(&JScalar::String("a".into())), ("\"a\"".to_string(), SegColor::Str));
    assert_eq!(scalar_seg(&JScalar::Null), ("null".to_string(), SegColor::Null));
    assert_eq!(scalar_seg(&JScalar::Bool(true)), ("true".to_string(), SegColor::Bool));
    assert_eq!(scalar_seg(&JScalar::Number("1.50".into())), ("1.50".to_string(), SegColor::Num));
}
