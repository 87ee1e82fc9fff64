use jsoned::tree::{
    flatten, get_node_at_path, get_node_at_path_mut, patch_flat, path_to_string, set_node_at_path, target_identity,
    FlatRow, JKey, JNode, JPath, JScalar, PatchSpan,
};

fn from_value(v: serde_json::Value) -> JNode {
    match v {
        serde_json::Value::Null => JNode::Scalar(JScalar::Null),
        serde_json::Value::Bool(b) => JNode::Scalar(JScalar::Bool(b)),
        serde_json::Value::Number(n) => JNode::Scalar(JScalar::Number(n.to_string())),
        serde_json::Value::String(s) => JNode::Scalar(JScalar::String(s)),
        serde_json::Value::Array(a) => JNode::Array { items: a.into_iter().map(from_value).collect(), collapsed: false },
        serde_json::Value::Object(m) => JNode::Object {
            entries: m.into_iter().map(|(k, v)| (k, from_value(v))).collect(),
            collapsed: false,
        },
    }
}

fn node(text: &str) -> JNode {
    from_value(serde_json::from_str(text).unwrap())
}

/// ~4 levels deep, mixes Object/Array, multi-child siblings, an empty container.
fn sample_tree() -> JNode {
    node(r#"{
        "meta": { "name": "demo", "tags": ["x", "y", "z"] },
        "items": [
            { "id": 1, "nested": { "a": 1, "b": 2 } },
            { "id": 2, "nested": { "a": 3, "b": 4 } },
            { "id": 3, "nested": {} }
        ],
        "empty_obj": {},
        "flag": true
    }"#)
}

fn field(name: &str) -> JKey {
    JKey::Field(name.to_string())
}

fn entries_at<'a>(root: &'a mut JNode, path: &JPath) -> &'a mut Vec<(String, JNode)> {
    match get_node_at_path_mut(root, path).unwrap() {
        JNode::Object { entries, .. } => entries,
        _ => panic!("not an object"),
    }
}

fn items_at<'a>(root: &'a mut JNode, path: &JPath) -> &'a mut Vec<JNode> {
    match get_node_at_path_mut(root, path).unwrap() {
        JNode::Array { items, .. } => items,
        _ => panic!("not an array"),
    }
}

fn position(entries: &[(String, JNode)], key: &str) -> usize {
    entries.iter().position(|(k, _)| k == key).unwrap()
}

fn assert_patch_matches_full(root: &JNode, flat: &mut Vec<FlatRow>, target: &JPath) {
    let span = patch_flat(flat, root, target).expect("patch should find target");
    assert_eq!(*flat, flatten(root), "patched flat differs from full flatten()");
    assert_eq!(flat[span.start].path, *target, "target row not at span.start");
}

#[test]
fn tree_replace_scalar_first_middle_last_of_array() {
    for idx in [0usize, 1, 2] {
        let mut root = sample_tree();
        let mut flat = flatten(&root);
        let target: JPath = vec![field("meta"), field("tags"), JKey::Index(idx)];
        set_node_at_path(&mut root, &target, JNode::Scalar(JScalar::String("changed".into())));
        assert_patch_matches_full(&root, &mut flat, &target);
    }
}

#[test]
fn tree_replace_scalar_with_object_grows_subtree() {
    let mut root = sample_tree();
    let mut flat = flatten(&root);
    let target: JPath = vec![field("flag")];
    set_node_at_path(&mut root, &target, node(r#"{"a": 1, "b": 2}"#));
    assert_patch_matches_full(&root, &mut flat, &target);
}

#[test]
fn replace_object_with_scalar_shrinks_subtree() {
    let mut root = sample_tree();
    let mut flat = flatten(&root);
    let target: JPath = vec![field("meta")];
    set_node_at_path(&mut root, &target, JNode::Scalar(JScalar::String("gone".into())));
    assert_patch_matches_full(&root, &mut flat, &target);
}

#[test]
fn tree_delete_first_key_of_object() {
    let mut root = sample_tree();
    let mut flat = flatten(&root);
    let target: JPath = vec![field("meta")];
    let entries = entries_at(&mut root, &target);
    let i = position(entries, "name");
    entries.remove(i);
    assert_patch_matches_full(&root, &mut flat, &target);
}

#[test]
fn delete_last_item_of_array() {
    let mut root = sample_tree();
    let mut flat = flatten(&root);
    let target: JPath = vec![field("meta"), field("tags")];
    items_at(&mut root, &target).pop();
    assert_patch_matches_full(&root, &mut flat, &target);
}

#[test]
fn delete_root_level_key() {
    let mut root = sample_tree();
    let mut flat = flatten(&root);
    let target: JPath = vec![];
    let entries = entries_at(&mut root, &target);
    let i = position(entries, "items");
    entries.remove(i);
    assert_patch_matches_full(&root, &mut flat, &target);
}

#[test]
fn append_item_to_array() {
    let mut root = sample_tree();
    let mut flat = flatten(&root);
    let target: JPath = vec![field("meta"), field("tags")];
    items_at(&mut root, &target).push(JNode::Scalar(JScalar::String("w".into())));
    assert_patch_matches_full(&root, &mut flat, &target);
}

#[test]
fn tree_insert_key_into_middle_of_object() {
    let mut root = sample_tree();
    let mut flat = flatten(&root);
    let target: JPath = vec![field("meta")];
    entries_at(&mut root, &target).insert(1, ("extra".to_string(), JNode::Scalar(JScalar::Bool(true))));
    assert_patch_matches_full(&root, &mut flat, &target);
}

#[test]
fn tree_insert_first_key_into_previously_empty_object() {
    let mut root = sample_tree();
    let mut flat = flatten(&root);
    let target: JPath = vec![field("empty_obj")];
    entries_at(&mut root, &target).push(("first".to_string(), JNode::Scalar(JScalar::Number("1".into()))));
    assert_patch_matches_full(&root, &mut flat, &target);
}

#[test]
fn tree_swap_adjacent_object_keys() {
    let mut root = sample_tree();
    let mut flat = flatten(&root);
    let target: JPath = vec![field("meta")];
    entries_at(&mut root, &target).swap(0, 1);
    assert_patch_matches_full(&root, &mut flat, &target);
}

#[test]
fn swap_adjacent_array_items() {
    let mut root = sample_tree();
    let mut flat = flatten(&root);
    let target: JPath = vec![field("meta"), field("tags")];
    items_at(&mut root, &target).swap(0, 1);
    assert_patch_matches_full(&root, &mut flat, &target);
}

#[test]
fn tree_rename_key_in_place_same_index() {
    let mut root = sample_tree();
    let mut flat = flatten(&root);
    let target: JPath = vec![field("meta")];
    let entries = entries_at(&mut root, &target);
    let idx = position(entries, "name");
    let (_, val) = entries.remove(idx);
    entries.insert(idx, ("full_name".to_string(), val));
    assert_patch_matches_full(&root, &mut flat, &target);
}

#[test]
fn tree_root_as_target() {
    let mut root = sample_tree();
    let mut flat = flatten(&root);
    let target: JPath = vec![];
    entries_at(&mut root, &target).push(("new_top_level".to_string(), JNode::Scalar(JScalar::Bool(false))));
    assert_patch_matches_full(&root, &mut flat, &target);
}

#[test]
fn tree_deep_target_depth_four() {
    let mut root = sample_tree();
    let mut flat = flatten(&root);
    let target: JPath = vec![field("items"), JKey::Index(1), field("nested"), field("a")];
    set_node_at_path(&mut root, &target, JNode::Scalar(JScalar::Number("999".into())));
    assert_patch_matches_full(&root, &mut flat, &target);
}

fn set_collapsed(root: &mut JNode, path: &JPath, value: bool) {
    if let JNode::Object { collapsed, .. } = get_node_at_path_mut(root, path).unwrap() {
        *collapsed = value;
    }
}

#[test]
fn collapse_toggle_hides_subtree() {
    let mut root = sample_tree();
    let mut flat = flatten(&root);
    let target: JPath = vec![field("items"), JKey::Index(0)];
    set_collapsed(&mut root, &target, true);
    assert_patch_matches_full(&root, &mut flat, &target);
}

#[test]
fn expand_toggle_reveals_subtree() {
    let mut root = sample_tree();
    // pre-collapse before taking the "old" flat snapshot, then expand.
    set_collapsed(&mut root, &vec![field("items"), JKey::Index(0)], true);
    let mut flat = flatten(&root);
    let target: JPath = vec![field("items"), JKey::Index(0)];
    set_collapsed(&mut root, &target, false);
    assert_patch_matches_full(&root, &mut flat, &target);
}

#[test]
fn patch_flat_returns_none_for_nonexistent_path() {
    let root = sample_tree();
    let mut flat = flatten(&root);
    let bogus: JPath = vec![field("does_not_exist")];
    assert!(patch_flat(&mut flat, &root, &bogus).is_none());
}

#[test]
fn target_identity_of_root_path() {
    let root_path: JPath = vec![];
    assert_eq!(target_identity(&root_path), (0, None, None));
}

// ---- further cases ----

#[test]
fn target_identity_of_field_and_index_paths() {
    assert_eq!(target_identity(&vec![field("a"), field("b")]), (2, Some("b".to_string()), None));
    assert_eq!(target_identity(&vec![field("a"), JKey::Index(3)]), (2, None, Some(3)));
}

#[test]
fn flatten_lists_rows_in_document_order() {
    let root = node(r#"{"a": {"b": 1}, "c": [true]}"#);
    let flat = flatten(&root);
    let paths: Vec<String> = flat.iter().map(|r| path_to_string(&r.path)).collect();
    assert_eq!(paths, vec!["", "a", "a.b", "c", "c.0"]);
    assert_eq!(flat[0].depth, 0);
    assert_eq!(flat[2].depth, 2);
    assert_eq!(flat[2].key.as_deref(), Some("b"));
    assert_eq!(flat[4].index, Some(0));
    assert_eq!(flat[4].key, None);
}

#[test]
fn flatten_skips_children_of_collapsed_nodes() {
    let mut root = node(r#"{"a": {"b": 1}}"#);
    set_collapsed(&mut root, &vec![field("a")], true);
    assert_eq!(flatten(&root).len(), 2);
}

#[test]
fn path_to_string_joins_with_dots() {
    assert_eq!(path_to_string(&[field("items"), JKey::Index(12), field("name")]), "items.12.name");
    assert_eq!(path_to_string(&[]), "");
}

#[test]
fn get_node_at_path_follows_fields_and_indices() {
    let root = sample_tree();
    let n = get_node_at_path(&root, &[field("items"), JKey::Index(2), field("id")]).unwrap();
    assert_eq!(*n, JNode::Scalar(JScalar::Number("3".into())));
    assert!(get_node_at_path(&root, &[field("items"), JKey::Index(9)]).is_none());
    assert!(get_node_at_path(&root, &[field("flag"), field("x")]).is_none());
}

#[test]
fn set_node_at_missing_path_changes_nothing() {
    let mut root = sample_tree();
    set_node_at_path(&mut root, &[field("nope"), field("x")], JNode::Scalar(JScalar::Null));
    assert_eq!(root, sample_tree());
}

#[test]
fn patch_span_end_is_start_plus_length() {
    let span = PatchSpan { start: 4, new_len: 3 };
    assert_eq!(span.new_end(), 7);
}

#[test]
fn lookup_along_a_joined_path_is_two_lookups() {
    let root = node(r#"{"a": {"b": [10, {"c": "x"}]}}"#);
    let p = vec![JKey::Field("a".to_string())];
    let q = vec![JKey::Field("b".to_string()), JKey::Index(1), JKey::Field("c".to_string())];
    let whole: Vec<JKey> = p.iter().chain(q.iter()).cloned().collect();
    let mid = get_node_at_path(&root, &p).unwrap();
    assert_eq!(get_node_at_path(&root, &whole), get_node_at_path(mid, &q));
    assert_eq!(get_node_at_path(&root, &whole), Some(&JNode::Scalar(JScalar::String("x".to_string()))));
}
