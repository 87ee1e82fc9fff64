//! Structural, key-path-based diff between two document trees. Arrays are compared index by
//! index; object entries are matched by key.
use vstd::prelude::*;
use crate::text::{append, bool_text, bool_to_string, decimal, lit, push_decimal};
use crate::tree::{wf_tree, wf_along, get_spec, child_at,
    clone_path, find_entry, find_key, keys_distinct, lemma_find_key, path_text, path_to_string, JKey,
    JNode, JPath, JScalar, KeyV,
};

verus! {

/// How a path compares between the two documents.
#[derive(Debug, Clone, Copy, PartialEq, Eq, Structural)]
pub enum DiffStatus {
    Added,
    Removed,
    Changed,
    Unchanged,
}

/// One row of the merged tree.
#[derive(Debug, Clone)]
pub struct DiffRow {
    pub depth: usize,
    pub key: Option<String>,
    pub index: Option<usize>,
    pub path: JPath,
    pub status: DiffStatus,
    pub type_label: String,
    pub old_value: Option<String>,
    pub new_value: Option<String>,
}

/// Abstract diff row.
pub struct DiffRowV {
    pub depth: nat,
    pub key: Option<Seq<char>>,
    pub index: Option<usize>,
    pub path: Seq<KeyV>,
    pub status: DiffStatus,
    pub type_label: Seq<char>,
    pub old_value: Option<Seq<char>>,
    pub new_value: Option<Seq<char>>,
}

impl DeepView for DiffRow {
    type V = DiffRowV;

    open spec fn deep_view(&self) -> DiffRowV {
        DiffRowV {
            depth: self.depth as nat,
            key: self.key.deep_view(),
            index: self.index,
            path: self.path.deep_view(),
            status: self.status,
            type_label: self.type_label@,
            old_value: self.old_value.deep_view(),
            new_value: self.new_value.deep_view(),
        }
    }
}

// ---------------------------------------------------------------------------
// Labels and values
// ---------------------------------------------------------------------------

/// Text of a scalar as shown in the diff: strings unquoted.
pub open spec fn scalar_str_spec(s: JScalar) -> Seq<char> {
    match s {
        JScalar::Null => "null"@,
        JScalar::Bool(b) => bool_text(b),
        JScalar::Number(n) => n@,
        JScalar::String(t) => t@,
    }
}

pub open spec fn type_label_spec(n: JNode) -> Seq<char> {
    match n {
        JNode::Object { .. } => "Object"@,
        JNode::Array { items, .. } => "Array ("@ + decimal(items@.len()) + ")"@,
        JNode::Scalar(JScalar::String(_)) => "String"@,
        JNode::Scalar(JScalar::Number(_)) => "Number"@,
        JNode::Scalar(JScalar::Bool(_)) => "Bool"@,
        JNode::Scalar(JScalar::Null) => "Null"@,
    }
}

pub open spec fn summary_spec(n: JNode) -> Seq<char> {
    match n {
        JNode::Object { entries, .. } => decimal(entries@.len()) + " items"@,
        JNode::Array { items, .. } => decimal(items@.len()) + " items"@,
        JNode::Scalar(s) => scalar_str_spec(s),
    }
}

pub fn scalar_str(s: &JScalar) -> (r: String)
    ensures
        r@ == scalar_str_spec(*s),
{
    match s {
        JScalar::Null => lit("null"),
        JScalar::Bool(b) => bool_to_string(*b),
        JScalar::Number(n) => n.clone(),
        JScalar::String(t) => t.clone(),
    }
}

pub(crate) fn node_type_label(node: &JNode) -> (r: String)
    ensures
        r@ == type_label_spec(*node),
{
    match node {
        JNode::Object { .. } => lit("Object"),
        JNode::Array { items, .. } => {
            let mut s = lit("Array (");
            push_decimal(&mut s, items.len());
            append(&mut s, ")");
            s
        },
        JNode::Scalar(JScalar::String(_)) => lit("String"),
        JNode::Scalar(JScalar::Number(_)) => lit("Number"),
        JNode::Scalar(JScalar::Bool(_)) => lit("Bool"),
        JNode::Scalar(JScalar::Null) => lit("Null"),
    }
}

pub(crate) fn node_summary(node: &JNode) -> (r: String)
    ensures
        r@ == summary_spec(*node),
{
    match node {
        JNode::Object { entries, .. } => {
            let mut s = String::new();
            push_decimal(&mut s, entries.len());
            append(&mut s, " items");
            assert(s@ =~= summary_spec(*node));
            s
        },
        JNode::Array { items, .. } => {
            let mut s = String::new();
            push_decimal(&mut s, items.len());
            append(&mut s, " items");
            assert(s@ =~= summary_spec(*node));
            s
        },
        JNode::Scalar(sc) => scalar_str(sc),
    }
}

/// Equality of scalars.
pub fn scalar_eq(a: &JScalar, b: &JScalar) -> (r: bool)
    ensures
        r == (a.deep_view() == b.deep_view()),
{
    match a {
        JScalar::Null => match b {
            JScalar::Null => true,
            _ => false,
        },
        JScalar::Bool(x) => match b {
            JScalar::Bool(y) => *x == *y,
            _ => false,
        },
        JScalar::Number(x) => match b {
            JScalar::Number(y) => *x == *y,
            _ => false,
        },
        JScalar::String(x) => match b {
            JScalar::String(y) => *x == *y,
            _ => false,
        },
    }
}

/// Both nodes are objects, both arrays, or both scalars.
pub open spec fn same_shape_spec(a: JNode, b: JNode) -> bool {
    match a {
        JNode::Object { .. } => b is Object,
        JNode::Array { .. } => b is Array,
        JNode::Scalar(_) => b is Scalar,
    }
}

fn same_shape(a: &JNode, b: &JNode) -> (r: bool)
    ensures
        r == same_shape_spec(*a, *b),
{
    match a {
        JNode::Object { .. } => match b {
            JNode::Object { .. } => true,
            _ => false,
        },
        JNode::Array { .. } => match b {
            JNode::Array { .. } => true,
            _ => false,
        },
        JNode::Scalar(_) => match b {
            JNode::Scalar(_) => true,
            _ => false,
        },
    }
}

/// A container stays `Unchanged` only while every child is.
pub open spec fn fold_spec(acc: DiffStatus, child: DiffStatus) -> DiffStatus {
    match child {
        DiffStatus::Unchanged => acc,
        _ => DiffStatus::Changed,
    }
}

pub fn fold(acc: DiffStatus, child: DiffStatus) -> (r: DiffStatus)
    ensures
        r == fold_spec(acc, child),
{
    match child {
        DiffStatus::Unchanged => acc,
        _ => DiffStatus::Changed,
    }
}

// ---------------------------------------------------------------------------
// Specification of the diff
// ---------------------------------------------------------------------------

pub open spec fn drow(
    key: Option<Seq<char>>,
    index: Option<usize>,
    path: Seq<KeyV>,
    status: DiffStatus,
    label: Seq<char>,
    old_value: Option<Seq<char>>,
    new_value: Option<Seq<char>>,
) -> DiffRowV {
    DiffRowV { depth: path.len(), key, index, path, status, type_label: label, old_value, new_value }
}

/// Rows for a subtree present on one side only; every row gets `st`.
pub open spec fn one_sided(n: JNode, st: DiffStatus, key: Option<Seq<char>>, index: Option<usize>, path: Seq<KeyV>) -> Seq<DiffRowV>
    decreases n, 0int,
{
    let (o, nw) = if st == DiffStatus::Added {
        (None, Some(summary_spec(n)))
    } else {
        (Some(summary_spec(n)), None)
    };
    seq![drow(key, index, path, st, type_label_spec(n), o, nw)] + match n {
        JNode::Object { entries, .. } => obj_one_sided(entries@, 0, entries@.len() as int, st, path),
        JNode::Array { items, .. } => arr_one_sided(items@, 0, items@.len() as int, st, path),
        JNode::Scalar(_) => Seq::empty(),
    }
}

pub open spec fn obj_one_sided(es: Seq<(String, JNode)>, lo: int, hi: int, st: DiffStatus, base: Seq<KeyV>) -> Seq<DiffRowV>
    decreases es, hi - lo,
{
    if lo < 0 || hi <= lo || hi > es.len() {
        Seq::empty()
    } else {
        obj_one_sided(es, lo, hi - 1, st, base) + one_sided(
            es[hi - 1].1,
            st,
            Some(es[hi - 1].0@),
            None,
            base.push(KeyV::Field(es[hi - 1].0@)),
        )
    }
}

pub open spec fn arr_one_sided(items: Seq<JNode>, lo: int, hi: int, st: DiffStatus, base: Seq<KeyV>) -> Seq<DiffRowV>
    decreases items, hi - lo,
{
    if lo < 0 || hi <= lo || hi > items.len() {
        Seq::empty()
    } else {
        arr_one_sided(items, lo, hi - 1, st, base) + one_sided(
            items[hi - 1],
            st,
            None,
            Some((hi - 1) as usize),
            base.push(KeyV::Index((hi - 1) as usize)),
        )
    }
}

/// The two nodes have the same shape all the way down and equal scalars; object entries are
/// matched by key (first match), arrays by index.
pub open spec fn node_same(a: JNode, b: JNode) -> bool
    decreases a, 0int,
{
    match a {
        JNode::Scalar(sa) => match b {
            JNode::Scalar(sb) => sa.deep_view() == sb.deep_view(),
            _ => false,
        },
        JNode::Object { entries: ea, .. } => match b {
            JNode::Object { entries: eb, .. } => obj_same(ea@, eb@, 0, ea@.len() as int) && b_covered(ea@, eb@),
            _ => false,
        },
        JNode::Array { items: ia, .. } => match b {
            JNode::Array { items: ib, .. } => ia@.len() == ib@.len() && arr_same(ia@, ib@, 0, ia@.len() as int),
            _ => false,
        },
    }
}

pub open spec fn obj_same(ea: Seq<(String, JNode)>, eb: Seq<(String, JNode)>, lo: int, hi: int) -> bool
    decreases ea, hi - lo,
{
    if lo < 0 || hi <= lo || hi > ea.len() {
        true
    } else {
        obj_same(ea, eb, lo, hi - 1) && match find_key(eb, ea[hi - 1].0@) {
            Some(j) => node_same(ea[hi - 1].1, eb[j].1),
            None => false,
        }
    }
}

pub open spec fn arr_same(ia: Seq<JNode>, ib: Seq<JNode>, lo: int, hi: int) -> bool
    decreases ia, hi - lo,
{
    if lo < 0 || hi <= lo || hi > ia.len() || hi > ib.len() {
        true
    } else {
        arr_same(ia, ib, lo, hi - 1) && node_same(ia[hi - 1], ib[hi - 1])
    }
}

/// Every key of `eb` is also a key of `ea`.
pub open spec fn b_covered(ea: Seq<(String, JNode)>, eb: Seq<(String, JNode)>) -> bool {
    forall|m: int| 0 <= m < eb.len() ==> #[trigger] find_key(ea, eb[m].0@) is Some
}

pub open spec fn node_status(a: JNode, b: JNode) -> DiffStatus {
    if node_same(a, b) { DiffStatus::Unchanged } else { DiffStatus::Changed }
}

/// Rows comparing two present nodes.
pub open spec fn node_diff(a: JNode, b: JNode, key: Option<Seq<char>>, index: Option<usize>, path: Seq<KeyV>) -> Seq<DiffRowV>
    decreases a, 1int,
{
    if !same_shape_spec(a, b) {
        seq![drow(key, index, path, DiffStatus::Changed, type_label_spec(a) + " → "@ + type_label_spec(b),
            Some(summary_spec(a)), Some(summary_spec(b)))]
    } else {
        match a {
            JNode::Scalar(sa) => {
                let sb = b->Scalar_0;
                seq![drow(key, index, path, node_status(a, b), type_label_spec(a), Some(scalar_str_spec(sa)),
                    Some(scalar_str_spec(sb)))]
            },
            JNode::Object { entries: ea, .. } => {
                let eb = b->entries;
                seq![drow(key, index, path, node_status(a, b), type_label_spec(a), Some(summary_spec(a)), Some(summary_spec(b)))]
                    + obj_diff_a(ea@, eb@, 0, ea@.len() as int, path) + obj_diff_b(ea@, eb@, 0, eb@.len() as int, path)
            },
            JNode::Array { items: ia, .. } => {
                let ib = b->items;
                let m = if ia@.len() >= ib@.len() { ia@.len() } else { ib@.len() };
                seq![drow(key, index, path, node_status(a, b), type_label_spec(a), Some(summary_spec(a)), Some(summary_spec(b)))]
                    + arr_diff(ia@, ib@, 0, m as int, path)
            },
        }
    }
}

/// Rows for the entries `lo..hi` of the first object, each against the entry of the second
/// object with the same key, or as removed.
pub open spec fn obj_diff_a(ea: Seq<(String, JNode)>, eb: Seq<(String, JNode)>, lo: int, hi: int, base: Seq<KeyV>) -> Seq<DiffRowV>
    decreases ea, hi - lo,
{
    if lo < 0 || hi <= lo || hi > ea.len() {
        Seq::empty()
    } else {
        let k = ea[hi - 1].0@;
        let cp = base.push(KeyV::Field(k));
        obj_diff_a(ea, eb, lo, hi - 1, base) + match find_key(eb, k) {
            Some(j) => node_diff(ea[hi - 1].1, eb[j].1, Some(k), None, cp),
            None => one_sided(ea[hi - 1].1, DiffStatus::Removed, Some(k), None, cp),
        }
    }
}

/// Rows for the entries `lo..hi` of the second object whose key the first object lacks.
pub open spec fn obj_diff_b(ea: Seq<(String, JNode)>, eb: Seq<(String, JNode)>, lo: int, hi: int, base: Seq<KeyV>) -> Seq<DiffRowV>
    decreases hi - lo,
{
    if lo < 0 || hi <= lo || hi > eb.len() {
        Seq::empty()
    } else {
        let k = eb[hi - 1].0@;
        obj_diff_b(ea, eb, lo, hi - 1, base) + if find_key(ea, k) is Some {
            Seq::empty()
        } else {
            one_sided(eb[hi - 1].1, DiffStatus::Added, Some(k), None, base.push(KeyV::Field(k)))
        }
    }
}

/// Rows for the indexes `lo..hi`, aligned by index.
pub open spec fn arr_diff(ia: Seq<JNode>, ib: Seq<JNode>, lo: int, hi: int, base: Seq<KeyV>) -> Seq<DiffRowV>
    decreases ia, hi - lo,
{
    if lo < 0 || hi <= lo || (hi > ia.len() && hi > ib.len()) {
        Seq::empty()
    } else {
        let i = hi - 1;
        let cp = base.push(KeyV::Index(i as usize));
        arr_diff(ia, ib, lo, hi - 1, base) + if i < ia.len() && i < ib.len() {
            node_diff(ia[i], ib[i], None, Some(i as usize), cp)
        } else if i < ia.len() {
            one_sided(ia[i], DiffStatus::Removed, None, Some(i as usize), cp)
        } else {
            one_sided(ib[i], DiffStatus::Added, None, Some(i as usize), cp)
        }
    }
}

/// The node an optional reference points to.
pub open spec fn opt_node(o: Option<&JNode>) -> Option<JNode> {
    match o {
        Some(x) => Some(*x),
        None => None,
    }
}

/// Rows of the diff between two optional documents (at least one present).
pub open spec fn diff_spec(a: Option<JNode>, b: Option<JNode>) -> Seq<DiffRowV> {
    match a {
        Some(x) => match b {
            Some(y) => node_diff(x, y, None, None, Seq::empty()),
            None => one_sided(x, DiffStatus::Removed, None, None, Seq::empty()),
        },
        None => match b {
            Some(y) => one_sided(y, DiffStatus::Added, None, None, Seq::empty()),
            None => Seq::empty(),
        },
    }
}


// ---------------------------------------------------------------------------
// Building the rows
// ---------------------------------------------------------------------------

fn make_row(
    key: Option<String>,
    index: Option<usize>,
    path: &[JKey],
    status: DiffStatus,
    type_label: String,
    old_value: Option<String>,
    new_value: Option<String>,
) -> (r: DiffRow)
    ensures
        r.deep_view() == drow(key.deep_view(), index, path.deep_view(), status, type_label@,
            old_value.deep_view(), new_value.deep_view()),
{
    DiffRow { depth: path.len(), key, index, path: clone_path(path), status, type_label, old_value, new_value }
}

fn push_one_sided(
    node: &JNode,
    st: DiffStatus,
    key: Option<String>,
    index: Option<usize>,
    path: &[JKey],
    out: &mut Vec<DiffRow>,
)
    requires
        st is Added || st is Removed,
    ensures
        final(out).deep_view() == old(out).deep_view() + one_sided(*node, st, key.deep_view(), index, path.deep_view()),
    decreases node,
{
    let ghost pv = path.deep_view();
    let ghost kv = key.deep_view();
    let summary = node_summary(node);
    let row = if st == DiffStatus::Added {
        make_row(key, index, path, st, node_type_label(node), None, Some(summary))
    } else {
        make_row(key, index, path, st, node_type_label(node), Some(summary), None)
    };
    out.push(row);
    let ghost start = old(out).deep_view() + one_sided(*node, st, kv, index, pv).subrange(0, 1);
    assert(out.deep_view() =~= start);
    match node {
        JNode::Object { entries, collapsed } => {
            let mut i: usize = 0;
            while i < entries.len()
                invariant
                    *node == (JNode::Object { entries: *entries, collapsed: *collapsed }),
                    st is Added || st is Removed,
                    i <= entries@.len(),
                    pv == path.deep_view(),
                    out.deep_view() == start + obj_one_sided(entries@, 0, i as int, st, pv),
                decreases entries@.len() - i,
            {
                let mut child_path = clone_path(path);
                child_path.push(JKey::Field(entries[i].0.clone()));
                assert(child_path.deep_view() =~= pv.push(KeyV::Field(entries@[i as int].0@)));
                proof {
                    assert(decreases_to!(*node => node->entries));
                    assert(decreases_to!(*entries => entries@));
                    assert(decreases_to!(entries@ => entries@[i as int]));
                    assert(decreases_to!(entries@[i as int] => entries@[i as int].1));
                }
                push_one_sided(&entries[i].1, st, Some(entries[i].0.clone()), None, &child_path, out);
                assert(out.deep_view() =~= start + obj_one_sided(entries@, 0, i + 1, st, pv));
                i = i + 1;
            }
            assert(out.deep_view() =~= old(out).deep_view() + one_sided(*node, st, kv, index, pv));
        },
        JNode::Array { items, collapsed } => {
            let mut i: usize = 0;
            while i < items.len()
                invariant
                    *node == (JNode::Array { items: *items, collapsed: *collapsed }),
                    st is Added || st is Removed,
                    i <= items@.len(),
                    pv == path.deep_view(),
                    out.deep_view() == start + arr_one_sided(items@, 0, i as int, st, pv),
                decreases items@.len() - i,
            {
                let mut child_path = clone_path(path);
                child_path.push(JKey::Index(i));
                assert(child_path.deep_view() =~= pv.push(KeyV::Index(i)));
                proof {
                    assert(decreases_to!(*node => node->items));
                    assert(decreases_to!(*items => items@));
                    assert(decreases_to!(items@ => items@[i as int]));
                }
                push_one_sided(&items[i], st, None, Some(i), &child_path, out);
                assert(out.deep_view() =~= start + arr_one_sided(items@, 0, i + 1, st, pv));
                i = i + 1;
            }
            assert(out.deep_view() =~= old(out).deep_view() + one_sided(*node, st, kv, index, pv));
        },
        JNode::Scalar(_) => {
            assert(out.deep_view() =~= old(out).deep_view() + one_sided(*node, st, kv, index, pv));
        },
    }
}


fn diff_node(
    a: &JNode,
    b: &JNode,
    key: Option<String>,
    index: Option<usize>,
    path: &[JKey],
    out: &mut Vec<DiffRow>,
) -> (st: DiffStatus)
    ensures
        final(out).deep_view() == old(out).deep_view() + node_diff(*a, *b, key.deep_view(), index, path.deep_view()),
        st == node_status(*a, *b),
    decreases a,
{
    let ghost pv = path.deep_view();
    let ghost kv = key.deep_view();
    if !same_shape(a, b) {
        let mut label = node_type_label(a);
        append(&mut label, " → ");
        let lb = node_type_label(b);
        append(&mut label, lb.as_str());
        let row = make_row(key, index, path, DiffStatus::Changed, label, Some(node_summary(a)), Some(node_summary(b)));
        out.push(row);
        assert(out.deep_view() =~= old(out).deep_view() + node_diff(*a, *b, kv, index, pv));
        return DiffStatus::Changed;
    }
    match (a, b) {
        (JNode::Scalar(sa), JNode::Scalar(sb)) => {
            let status = if scalar_eq(sa, sb) { DiffStatus::Unchanged } else { DiffStatus::Changed };
            let row = make_row(key, index, path, status, node_type_label(a), Some(scalar_str(sa)), Some(scalar_str(sb)));
            out.push(row);
            assert(out.deep_view() =~= old(out).deep_view() + node_diff(*a, *b, kv, index, pv));
            status
        },
        (JNode::Object { entries: ea, collapsed: ca }, JNode::Object { entries: eb, collapsed: cb }) => {
            let self_idx = out.len();
            let row = make_row(key, index, path, DiffStatus::Unchanged, node_type_label(a), Some(node_summary(a)),
                Some(node_summary(b)));
            out.push(row);
            let ghost start = out.deep_view();
            let mut agg = DiffStatus::Unchanged;
            let mut i: usize = 0;
            while i < ea.len()
                invariant
                    *a == (JNode::Object { entries: *ea, collapsed: *ca }),
                    i <= ea@.len(),
                    pv == path.deep_view(),
                    out.deep_view() == start + obj_diff_a(ea@, eb@, 0, i as int, pv),
                    agg is Unchanged || agg is Changed,
                    (agg is Unchanged) == obj_same(ea@, eb@, 0, i as int),
                decreases ea@.len() - i,
            {
                let mut child_path = clone_path(path);
                child_path.push(JKey::Field(ea[i].0.clone()));
                assert(child_path.deep_view() =~= pv.push(KeyV::Field(ea@[i as int].0@)));
                proof {
                    assert(decreases_to!(*a => a->entries));
                    assert(decreases_to!(*ea => ea@));
                    assert(decreases_to!(ea@ => ea@[i as int]));
                    assert(decreases_to!(ea@[i as int] => ea@[i as int].1));
                }
                let cs = match find_entry(eb, &ea[i].0) {
                    Some(j) => diff_node(&ea[i].1, &eb[j].1, Some(ea[i].0.clone()), None, &child_path, out),
                    None => {
                        push_one_sided(&ea[i].1, DiffStatus::Removed, Some(ea[i].0.clone()), None, &child_path, out);
                        DiffStatus::Removed
                    },
                };
                agg = fold(agg, cs);
                assert(out.deep_view() =~= start + obj_diff_a(ea@, eb@, 0, i + 1, pv));
                i = i + 1;
            }
            let ghost mid = out.deep_view();
            let mut j: usize = 0;
            while j < eb.len()
                invariant
                    i == ea@.len(),
                    j <= eb@.len(),
                    pv == path.deep_view(),
                    out.deep_view() == mid + obj_diff_b(ea@, eb@, 0, j as int, pv),
                    agg is Unchanged || agg is Changed,
                    (agg is Unchanged) == (obj_same(ea@, eb@, 0, i as int)
                        && forall|m: int| 0 <= m < j ==> #[trigger] find_key(ea@, eb@[m].0@) is Some),
                decreases eb@.len() - j,
            {
                if find_entry(ea, &eb[j].0).is_none() {
                    let mut child_path = clone_path(path);
                    child_path.push(JKey::Field(eb[j].0.clone()));
                    assert(child_path.deep_view() =~= pv.push(KeyV::Field(eb@[j as int].0@)));
                    push_one_sided(&eb[j].1, DiffStatus::Added, Some(eb[j].0.clone()), None, &child_path, out);
                    agg = DiffStatus::Changed;
                }
                assert(out.deep_view() =~= mid + obj_diff_b(ea@, eb@, 0, j + 1, pv));
                j = j + 1;
            }
            assert((agg is Unchanged) == node_same(*a, *b));
            assert(agg == node_status(*a, *b));
            let ghost before = out@;
            let ghost bdv = out.deep_view();
            out[self_idx].status = agg;
            proof {
                let full = old(out).deep_view() + node_diff(*a, *b, kv, index, pv);
                assert(bdv =~= old(out).deep_view() + seq![start.last()] + obj_diff_a(ea@, eb@, 0, ea@.len() as int, pv)
                    + obj_diff_b(ea@, eb@, 0, eb@.len() as int, pv));
                assert forall|k: int| 0 <= k < out@.len() implies #[trigger] out.deep_view()[k] == full[k] by {
                    if k != self_idx {
                        assert(out@[k] == before[k]);
                    } else {
                        let r = out@[k];
                        let q = before[k];
                        assert(r.depth == q.depth && r.key == q.key && r.index == q.index && r.path == q.path);
                        assert(r.type_label == q.type_label && r.old_value == q.old_value && r.new_value == q.new_value);
                        assert(bdv[k] == q.deep_view());
                        assert(full[k] == drow(kv, index, pv, agg, bdv[k].type_label, bdv[k].old_value, bdv[k].new_value));
                    }
                }
                assert(out.deep_view() =~= full);
            }
            agg
        },
        (JNode::Array { items: ia, collapsed: ca }, JNode::Array { items: ib, collapsed: cb }) => {
            let self_idx = out.len();
            let row = make_row(key, index, path, DiffStatus::Unchanged, node_type_label(a), Some(node_summary(a)),
                Some(node_summary(b)));
            out.push(row);
            let ghost start = out.deep_view();
            let mut agg = DiffStatus::Unchanged;
            let max_len = if ia.len() >= ib.len() { ia.len() } else { ib.len() };
            let mut i: usize = 0;
            while i < max_len
                invariant
                    *a == (JNode::Array { items: *ia, collapsed: *ca }),
                    max_len == (if ia@.len() >= ib@.len() { ia@.len() } else { ib@.len() }),
                    i <= max_len,
                    pv == path.deep_view(),
                    out.deep_view() == start + arr_diff(ia@, ib@, 0, i as int, pv),
                    agg is Unchanged || agg is Changed,
                    (agg is Unchanged) == (i <= ia@.len() && i <= ib@.len() && arr_same(ia@, ib@, 0, i as int)),
                decreases max_len - i,
            {
                let mut child_path = clone_path(path);
                child_path.push(JKey::Index(i));
                assert(child_path.deep_view() =~= pv.push(KeyV::Index(i)));
                let cs = if i < ia.len() && i < ib.len() {
                    proof {
                        assert(decreases_to!(*a => a->items));
                        assert(decreases_to!(*ia => ia@));
                        assert(decreases_to!(ia@ => ia@[i as int]));
                    }
                    diff_node(&ia[i], &ib[i], None, Some(i), &child_path, out)
                } else if i < ia.len() {
                    push_one_sided(&ia[i], DiffStatus::Removed, None, Some(i), &child_path, out);
                    DiffStatus::Removed
                } else {
                    push_one_sided(&ib[i], DiffStatus::Added, None, Some(i), &child_path, out);
                    DiffStatus::Added
                };
                agg = fold(agg, cs);
                assert(out.deep_view() =~= start + arr_diff(ia@, ib@, 0, i + 1, pv));
                i = i + 1;
            }
            assert(agg == node_status(*a, *b));
            let ghost before = out@;
            let ghost bdv = out.deep_view();
            out[self_idx].status = agg;
            proof {
                let m = if ia@.len() >= ib@.len() { ia@.len() } else { ib@.len() };
                let full = old(out).deep_view() + node_diff(*a, *b, kv, index, pv);
                assert(bdv =~= old(out).deep_view() + seq![start.last()] + arr_diff(ia@, ib@, 0, m as int, pv));
                assert forall|k: int| 0 <= k < out@.len() implies #[trigger] out.deep_view()[k] == full[k] by {
                    if k != self_idx {
                        assert(out@[k] == before[k]);
                    } else {
                        let r = out@[k];
                        let q = before[k];
                        assert(r.depth == q.depth && r.key == q.key && r.index == q.index && r.path == q.path);
                        assert(r.type_label == q.type_label && r.old_value == q.old_value && r.new_value == q.new_value);
                        assert(bdv[k] == q.deep_view());
                        assert(full[k] == drow(kv, index, pv, agg, bdv[k].type_label, bdv[k].old_value, bdv[k].new_value));
                    }
                }
                assert(out.deep_view() =~= full);
            }
            agg
        },
        _ => vstd::pervasive::unreached(),
    }
}

/// The merged tree of two documents, one row per path in either, in pre-order. A document
/// missing on one side makes every row of the other `Added` or `Removed`.
pub fn diff(a: Option<&JNode>, b: Option<&JNode>) -> (rows: Vec<DiffRow>)
    requires
        a is Some || b is Some,
    ensures
        rows.deep_view() == diff_spec(opt_node(a), opt_node(b)),
{
    let mut rows: Vec<DiffRow> = Vec::new();
    let empty: Vec<JKey> = Vec::new();
    assert(empty.deep_view() =~= Seq::<KeyV>::empty());
    match (a, b) {
        (Some(x), Some(y)) => {
            diff_node(x, y, None, None, &empty, &mut rows);
        },
        (Some(x), None) => {
            push_one_sided(x, DiffStatus::Removed, None, None, &empty, &mut rows);
        },
        (None, Some(y)) => {
            push_one_sided(y, DiffStatus::Added, None, None, &empty, &mut rows);
        },
        (None, None) => {},
    }
    assert(rows.deep_view() =~= diff_spec(opt_node(a), opt_node(b)));
    rows
}


// ---------------------------------------------------------------------------
// Laws
// ---------------------------------------------------------------------------

/// Every row has the status `Unchanged`.
pub open spec fn all_unchanged(rows: Seq<DiffRowV>) -> bool {
    forall|i: int| 0 <= i < rows.len() ==> (#[trigger] rows[i]).status is Unchanged
}

proof fn lemma_concat_unchanged(x: Seq<DiffRowV>, y: Seq<DiffRowV>)
    requires
        all_unchanged(x),
        all_unchanged(y),
    ensures
        all_unchanged(x + y),
{
    assert forall|i: int| 0 <= i < (x + y).len() implies (#[trigger] (x + y)[i]).status is Unchanged by {
        if i >= x.len() {
            assert((x + y)[i] == y[i - x.len()]);
        }
    }
}

proof fn lemma_obj_diff_b_empty(ea: Seq<(String, JNode)>, eb: Seq<(String, JNode)>, lo: int, hi: int, base: Seq<KeyV>)
    requires
        0 <= lo,
        hi <= eb.len(),
        forall|m: int| lo <= m < hi ==> #[trigger] find_key(ea, eb[m].0@) is Some,
    ensures
        obj_diff_b(ea, eb, lo, hi, base) == Seq::<DiffRowV>::empty(),
    decreases hi - lo,
{
    if lo < hi {
        assert(find_key(ea, eb[hi - 1].0@) is Some);
        lemma_obj_diff_b_empty(ea, eb, lo, hi - 1, base);
        assert(obj_diff_b(ea, eb, lo, hi, base) =~= Seq::<DiffRowV>::empty());
    }
}

/// Two nodes that compare the same give only `Unchanged` rows.
proof fn lemma_same_unchanged(a: JNode, b: JNode, key: Option<Seq<char>>, index: Option<usize>, path: Seq<KeyV>)
    requires
        node_same(a, b),
    ensures
        all_unchanged(node_diff(a, b, key, index, path)),
    decreases a, 1int,
{
    match a {
        JNode::Scalar(_) => {},
        JNode::Object { entries: ea, .. } => {
            let eb = b->entries;
            let head = seq![drow(key, index, path, node_status(a, b), type_label_spec(a), Some(summary_spec(a)),
                Some(summary_spec(b)))];
            lemma_obj_diff_a_unchanged(ea@, eb@, 0, ea@.len() as int, path);
            lemma_obj_diff_b_empty(ea@, eb@, 0, eb@.len() as int, path);
            lemma_concat_unchanged(head, obj_diff_a(ea@, eb@, 0, ea@.len() as int, path));
            assert(node_diff(a, b, key, index, path) =~= head + obj_diff_a(ea@, eb@, 0, ea@.len() as int, path));
        },
        JNode::Array { items: ia, .. } => {
            let ib = b->items;
            let head = seq![drow(key, index, path, node_status(a, b), type_label_spec(a), Some(summary_spec(a)),
                Some(summary_spec(b)))];
            lemma_arr_diff_unchanged(ia@, ib@, 0, ia@.len() as int, path);
            lemma_concat_unchanged(head, arr_diff(ia@, ib@, 0, ia@.len() as int, path));
        },
    }
}

proof fn lemma_obj_diff_a_unchanged(ea: Seq<(String, JNode)>, eb: Seq<(String, JNode)>, lo: int, hi: int, base: Seq<KeyV>)
    requires
        obj_same(ea, eb, lo, hi),
    ensures
        all_unchanged(obj_diff_a(ea, eb, lo, hi, base)),
    decreases ea, hi - lo,
{
    if !(lo < 0 || hi <= lo || hi > ea.len()) {
        let k = ea[hi - 1].0@;
        lemma_obj_diff_a_unchanged(ea, eb, lo, hi - 1, base);
        let j = find_key(eb, k)->0;
        lemma_same_unchanged(ea[hi - 1].1, eb[j].1, Some(k), None, base.push(KeyV::Field(k)));
        lemma_concat_unchanged(obj_diff_a(ea, eb, lo, hi - 1, base),
            node_diff(ea[hi - 1].1, eb[j].1, Some(k), None, base.push(KeyV::Field(k))));
    }
}

proof fn lemma_arr_diff_unchanged(ia: Seq<JNode>, ib: Seq<JNode>, lo: int, hi: int, base: Seq<KeyV>)
    requires
        ia.len() == ib.len(),
        hi <= ia.len(),
        arr_same(ia, ib, lo, hi),
    ensures
        all_unchanged(arr_diff(ia, ib, lo, hi, base)),
    decreases ia, hi - lo,
{
    if !(lo < 0 || hi <= lo) {
        let i = hi - 1;
        lemma_arr_diff_unchanged(ia, ib, lo, hi - 1, base);
        lemma_same_unchanged(ia[i], ib[i], None, Some(i as usize), base.push(KeyV::Index(i as usize)));
        lemma_concat_unchanged(arr_diff(ia, ib, lo, hi - 1, base),
            node_diff(ia[i], ib[i], None, Some(i as usize), base.push(KeyV::Index(i as usize))));
    }
}

/// The first row of a diff between two documents sums up all the others: it is
/// `Unchanged` exactly when every row is.
pub proof fn law_root_status_sums_up(a: JNode, b: JNode)
    ensures
        diff_spec(Some(a), Some(b)).len() > 0,
        (diff_spec(Some(a), Some(b))[0].status is Unchanged) == all_unchanged(diff_spec(Some(a), Some(b))),
{
    let rows = diff_spec(Some(a), Some(b));
    assert(rows[0].status is Unchanged ==> node_same(a, b));
    if node_same(a, b) {
        lemma_same_unchanged(a, b, None, None, Seq::empty());
    }
}

/// Every row of a diff between two documents is `Unchanged` exactly when the documents are
/// the same up to the order of object keys (`node_same`).
pub proof fn law_all_unchanged_iff_same(a: JNode, b: JNode)
    ensures
        all_unchanged(diff_spec(Some(a), Some(b))) == node_same(a, b),
{
    law_root_status_sums_up(a, b);
}

proof fn lemma_self_same(a: JNode)
    requires
        wf_tree(a),
    ensures
        node_same(a, a),
    decreases a, 1int,
{
    match a {
        JNode::Scalar(_) => {},
        JNode::Object { entries: ea, .. } => {
            lemma_obj_self_same(ea@, 0, ea@.len() as int);
            assert forall|m: int| 0 <= m < ea@.len() implies #[trigger] find_key(ea@, ea@[m].0@) is Some by {
                lemma_find_key(ea@, ea@[m].0@);
            }
        },
        JNode::Array { items: ia, .. } => {
            lemma_arr_self_same(ia@, 0, ia@.len() as int);
        },
    }
}

proof fn lemma_obj_self_same(ea: Seq<(String, JNode)>, lo: int, hi: int)
    requires
        keys_distinct(ea),
        forall|i: int| 0 <= i < ea.len() ==> wf_tree(#[trigger] ea[i].1),
    ensures
        obj_same(ea, ea, lo, hi),
    decreases ea, hi - lo,
{
    if !(lo < 0 || hi <= lo || hi > ea.len()) {
        lemma_obj_self_same(ea, lo, hi - 1);
        lemma_find_key(ea, ea[hi - 1].0@);
        assert(find_key(ea, ea[hi - 1].0@) == Some(hi - 1));
        lemma_self_same(ea[hi - 1].1);
    }
}

proof fn lemma_arr_self_same(ia: Seq<JNode>, lo: int, hi: int)
    requires
        forall|i: int| 0 <= i < ia.len() ==> wf_tree(#[trigger] ia[i]),
    ensures
        arr_same(ia, ia, lo, hi),
    decreases ia, hi - lo,
{
    if !(lo < 0 || hi <= lo || hi > ia.len()) {
        lemma_arr_self_same(ia, lo, hi - 1);
        lemma_self_same(ia[hi - 1]);
    }
}

/// A document compared with itself has no change anywhere.
pub proof fn law_diff_with_self_unchanged(a: JNode)
    requires
        wf_tree(a),
    ensures
        all_unchanged(diff_spec(Some(a), Some(a))),
{
    lemma_self_same(a);
    lemma_same_unchanged(a, a, None, None, Seq::empty());
}

// ---------------------------------------------------------------------------
// The rows below a path
// ---------------------------------------------------------------------------

/// A row's path runs through `q`: it is `q` or extends it.
pub open spec fn through(q: Seq<KeyV>) -> spec_fn(DiffRowV) -> bool {
    |r: DiffRowV| q.is_prefix_of(r.path)
}

/// The rows whose path runs through `q`, in order.
pub open spec fn rows_through(rows: Seq<DiffRowV>, q: Seq<KeyV>) -> Seq<DiffRowV> {
    rows.filter(through(q))
}

/// Every row's path runs through `base`.
pub open spec fn all_through(rows: Seq<DiffRowV>, base: Seq<KeyV>) -> bool {
    forall|i: int| 0 <= i < rows.len() ==> base.is_prefix_of((#[trigger] rows[i]).path)
}

/// The field name a path step names, if it names one.
pub open spec fn step_key(s: KeyV) -> Option<Seq<char>> {
    match s {
        KeyV::Field(k) => Some(k),
        KeyV::Index(_) => None,
    }
}

/// The index a path step names, if it names one.
pub open spec fn step_index(s: KeyV) -> Option<usize> {
    match s {
        KeyV::Field(_) => None,
        KeyV::Index(i) => Some(i),
    }
}

/// The key of the row for path `p` (none for the root).
pub open spec fn key_at(p: Seq<KeyV>) -> Option<Seq<char>> {
    if p.len() == 0 { None } else { step_key(p.last()) }
}

/// The index of the row for path `p` (none for the root).
pub open spec fn index_at(p: Seq<KeyV>) -> Option<usize> {
    if p.len() == 0 { None } else { step_index(p.last()) }
}

/// The one row for a path where the node changes kind.
pub open spec fn kind_change_row(x: JNode, y: JNode, p: Seq<KeyV>) -> DiffRowV {
    drow(key_at(p), index_at(p), p, DiffStatus::Changed, type_label_spec(x) + " → "@ + type_label_spec(y),
        Some(summary_spec(x)), Some(summary_spec(y)))
}

proof fn lemma_prefix_refl(q: Seq<KeyV>)
    ensures
        q.is_prefix_of(q),
{
    assert(q =~= q.subrange(0, q.len() as int));
}

proof fn lemma_filter_none(rows: Seq<DiffRowV>, pred: spec_fn(DiffRowV) -> bool)
    requires
        forall|i: int| 0 <= i < rows.len() ==> !pred(#[trigger] rows[i]),
    ensures
        rows.filter(pred) == Seq::<DiffRowV>::empty(),
    decreases rows.len(),
{
    reveal(Seq::filter);
    if rows.len() > 0 {
        assert forall|i: int| 0 <= i < rows.drop_last().len() implies !pred(#[trigger] rows.drop_last()[i]) by {
            assert(rows.drop_last()[i] == rows[i]);
        }
        lemma_filter_none(rows.drop_last(), pred);
        assert(!pred(rows[rows.len() - 1]));
    }
}

proof fn lemma_filter_all(rows: Seq<DiffRowV>, pred: spec_fn(DiffRowV) -> bool)
    requires
        forall|i: int| 0 <= i < rows.len() ==> pred(#[trigger] rows[i]),
    ensures
        rows.filter(pred) == rows,
    decreases rows.len(),
{
    reveal(Seq::filter);
    if rows.len() > 0 {
        assert forall|i: int| 0 <= i < rows.drop_last().len() implies pred(#[trigger] rows.drop_last()[i]) by {
            assert(rows.drop_last()[i] == rows[i]);
        }
        lemma_filter_all(rows.drop_last(), pred);
        assert(pred(rows[rows.len() - 1]));
        assert(rows.drop_last().push(rows.last()) =~= rows);
    }
}

proof fn lemma_through_concat(x: Seq<DiffRowV>, y: Seq<DiffRowV>, q: Seq<KeyV>)
    ensures
        rows_through(x + y, q) == rows_through(x, q) + rows_through(y, q),
{
    Seq::filter_distributes_over_add(x, y, through(q));
}

proof fn lemma_all_through_concat(x: Seq<DiffRowV>, y: Seq<DiffRowV>, base: Seq<KeyV>)
    requires
        all_through(x, base),
        all_through(y, base),
    ensures
        all_through(x + y, base),
{
    assert forall|i: int| 0 <= i < (x + y).len() implies base.is_prefix_of((#[trigger] (x + y)[i]).path) by {
        if i >= x.len() {
            assert((x + y)[i] == y[i - x.len()]);
        } else {
            assert((x + y)[i] == x[i]);
        }
    }
}

proof fn lemma_all_through_step(rows: Seq<DiffRowV>, base: Seq<KeyV>, s: KeyV)
    requires
        all_through(rows, base.push(s)),
    ensures
        all_through(rows, base),
{
    assert forall|i: int| 0 <= i < rows.len() implies base.is_prefix_of((#[trigger] rows[i]).path) by {
        let pth = rows[i].path;
        assert(base.push(s).is_prefix_of(pth));
        assert forall|m: int| 0 <= m < base.len() implies base[m] == pth[m] by {
            assert(base[m] == base.push(s)[m]);
            assert(base.push(s)[m] == pth.subrange(0, base.len() + 1int)[m]);
        }
        assert(base =~= pth.subrange(0, base.len() as int));
    }
}

/// Rows that all run through `base.push(s)` have none that runs through a path taking
/// another step after `base`.
proof fn lemma_other_step_none(rows: Seq<DiffRowV>, base: Seq<KeyV>, s: KeyV, q: Seq<KeyV>)
    requires
        all_through(rows, base.push(s)),
        q.len() > base.len(),
        q[base.len() as int] != s,
    ensures
        rows_through(rows, q) == Seq::<DiffRowV>::empty(),
{
    assert forall|i: int| 0 <= i < rows.len() implies !(#[trigger] through(q)(rows[i])) by {
        let pth = rows[i].path;
        assert(base.push(s).is_prefix_of(pth));
        assert(pth.subrange(0, base.len() + 1int)[base.len() as int] == s);
        if q.is_prefix_of(pth) {
            assert(pth.subrange(0, q.len() as int)[base.len() as int] == q[base.len() as int]);
        }
    }
    lemma_filter_none(rows, through(q));
}

proof fn lemma_one_sided_through(n: JNode, st: DiffStatus, key: Option<Seq<char>>, index: Option<usize>, path: Seq<KeyV>)
    ensures
        all_through(one_sided(n, st, key, index, path), path),
    decreases n, 0int,
{
    lemma_prefix_refl(path);
    let (o, nw) = if st == DiffStatus::Added {
        (None, Some(summary_spec(n)))
    } else {
        (Some(summary_spec(n)), None)
    };
    let head = seq![drow(key, index, path, st, type_label_spec(n), o, nw)];
    let rest = match n {
        JNode::Object { entries, .. } => obj_one_sided(entries@, 0, entries@.len() as int, st, path),
        JNode::Array { items, .. } => arr_one_sided(items@, 0, items@.len() as int, st, path),
        JNode::Scalar(_) => Seq::empty(),
    };
    match n {
        JNode::Object { entries, .. } => lemma_obj_one_sided_through(entries@, 0, entries@.len() as int, st, path),
        JNode::Array { items, .. } => lemma_arr_one_sided_through(items@, 0, items@.len() as int, st, path),
        JNode::Scalar(_) => {},
    }
    lemma_all_through_concat(head, rest, path);
    assert(one_sided(n, st, key, index, path) == head + rest);
}

proof fn lemma_obj_one_sided_through(es: Seq<(String, JNode)>, lo: int, hi: int, st: DiffStatus, base: Seq<KeyV>)
    ensures
        all_through(obj_one_sided(es, lo, hi, st, base), base),
    decreases es, hi - lo,
{
    if !(lo < 0 || hi <= lo || hi > es.len()) {
        let s = KeyV::Field(es[hi - 1].0@);
        let piece = one_sided(es[hi - 1].1, st, Some(es[hi - 1].0@), None, base.push(s));
        lemma_obj_one_sided_through(es, lo, hi - 1, st, base);
        lemma_one_sided_through(es[hi - 1].1, st, Some(es[hi - 1].0@), None, base.push(s));
        lemma_all_through_step(piece, base, s);
        lemma_all_through_concat(obj_one_sided(es, lo, hi - 1, st, base), piece, base);
    }
}

proof fn lemma_arr_one_sided_through(items: Seq<JNode>, lo: int, hi: int, st: DiffStatus, base: Seq<KeyV>)
    ensures
        all_through(arr_one_sided(items, lo, hi, st, base), base),
    decreases items, hi - lo,
{
    if !(lo < 0 || hi <= lo || hi > items.len()) {
        let s = KeyV::Index((hi - 1) as usize);
        let piece = one_sided(items[hi - 1], st, None, Some((hi - 1) as usize), base.push(s));
        lemma_arr_one_sided_through(items, lo, hi - 1, st, base);
        lemma_one_sided_through(items[hi - 1], st, None, Some((hi - 1) as usize), base.push(s));
        lemma_all_through_step(piece, base, s);
        lemma_all_through_concat(arr_one_sided(items, lo, hi - 1, st, base), piece, base);
    }
}

proof fn lemma_node_diff_through(a: JNode, b: JNode, key: Option<Seq<char>>, index: Option<usize>, path: Seq<KeyV>)
    ensures
        all_through(node_diff(a, b, key, index, path), path),
    decreases a, 1int,
{
    lemma_prefix_refl(path);
    if same_shape_spec(a, b) {
        match a {
            JNode::Scalar(_) => {},
            JNode::Object { entries: ea, .. } => {
                let eb = b->entries;
                let head = seq![drow(key, index, path, node_status(a, b), type_label_spec(a), Some(summary_spec(a)),
                    Some(summary_spec(b)))];
                let da = obj_diff_a(ea@, eb@, 0, ea@.len() as int, path);
                let db = obj_diff_b(ea@, eb@, 0, eb@.len() as int, path);
                lemma_obj_diff_a_through(ea@, eb@, 0, ea@.len() as int, path);
                lemma_obj_diff_b_through(ea@, eb@, 0, eb@.len() as int, path);
                lemma_all_through_concat(head, da, path);
                lemma_all_through_concat(head + da, db, path);
            },
            JNode::Array { items: ia, .. } => {
                let ib = b->items;
                let m = if ia@.len() >= ib@.len() { ia@.len() } else { ib@.len() };
                let head = seq![drow(key, index, path, node_status(a, b), type_label_spec(a), Some(summary_spec(a)),
                    Some(summary_spec(b)))];
                lemma_arr_diff_through(ia@, ib@, 0, m as int, path);
                lemma_all_through_concat(head, arr_diff(ia@, ib@, 0, m as int, path), path);
            },
        }
    }
}

proof fn lemma_obj_diff_a_through(ea: Seq<(String, JNode)>, eb: Seq<(String, JNode)>, lo: int, hi: int, base: Seq<KeyV>)
    ensures
        all_through(obj_diff_a(ea, eb, lo, hi, base), base),
    decreases ea, hi - lo,
{
    if !(lo < 0 || hi <= lo || hi > ea.len()) {
        let k = ea[hi - 1].0@;
        let s = KeyV::Field(k);
        let cp = base.push(s);
        lemma_obj_diff_a_through(ea, eb, lo, hi - 1, base);
        let piece = match find_key(eb, k) {
            Some(j) => node_diff(ea[hi - 1].1, eb[j].1, Some(k), None, cp),
            None => one_sided(ea[hi - 1].1, DiffStatus::Removed, Some(k), None, cp),
        };
        match find_key(eb, k) {
            Some(j) => lemma_node_diff_through(ea[hi - 1].1, eb[j].1, Some(k), None, cp),
            None => lemma_one_sided_through(ea[hi - 1].1, DiffStatus::Removed, Some(k), None, cp),
        }
        lemma_all_through_step(piece, base, s);
        lemma_all_through_concat(obj_diff_a(ea, eb, lo, hi - 1, base), piece, base);
    }
}

proof fn lemma_obj_diff_b_through(ea: Seq<(String, JNode)>, eb: Seq<(String, JNode)>, lo: int, hi: int, base: Seq<KeyV>)
    ensures
        all_through(obj_diff_b(ea, eb, lo, hi, base), base),
    decreases hi - lo,
{
    if !(lo < 0 || hi <= lo || hi > eb.len()) {
        let k = eb[hi - 1].0@;
        let s = KeyV::Field(k);
        lemma_obj_diff_b_through(ea, eb, lo, hi - 1, base);
        let piece = if find_key(ea, k) is Some {
            Seq::empty()
        } else {
            one_sided(eb[hi - 1].1, DiffStatus::Added, Some(k), None, base.push(s))
        };
        lemma_one_sided_through(eb[hi - 1].1, DiffStatus::Added, Some(k), None, base.push(s));
        lemma_all_through_step(piece, base, s);
        lemma_all_through_concat(obj_diff_b(ea, eb, lo, hi - 1, base), piece, base);
    }
}

proof fn lemma_arr_diff_through(ia: Seq<JNode>, ib: Seq<JNode>, lo: int, hi: int, base: Seq<KeyV>)
    ensures
        all_through(arr_diff(ia, ib, lo, hi, base), base),
    decreases ia, hi - lo,
{
    if !(lo < 0 || hi <= lo || (hi > ia.len() && hi > ib.len())) {
        let i = hi - 1;
        let s = KeyV::Index(i as usize);
        let cp = base.push(s);
        lemma_arr_diff_through(ia, ib, lo, hi - 1, base);
        let piece = if i < ia.len() && i < ib.len() {
            node_diff(ia[i], ib[i], None, Some(i as usize), cp)
        } else if i < ia.len() {
            one_sided(ia[i], DiffStatus::Removed, None, Some(i as usize), cp)
        } else {
            one_sided(ib[i], DiffStatus::Added, None, Some(i as usize), cp)
        };
        if i < ia.len() && i < ib.len() {
            lemma_node_diff_through(ia[i], ib[i], None, Some(i as usize), cp);
        } else if i < ia.len() {
            lemma_one_sided_through(ia[i], DiffStatus::Removed, None, Some(i as usize), cp);
        } else {
            lemma_one_sided_through(ib[i], DiffStatus::Added, None, Some(i as usize), cp);
        }
        lemma_all_through_step(piece, base, s);
        lemma_all_through_concat(arr_diff(ia, ib, lo, hi - 1, base), piece, base);
    }
}

/// The rows of the entries `0..hi` of the first object that run through `q`, a path below
/// the key `k` that both objects hold (at `m` and `j`), are those of that one entry; keys
/// being distinct in the first object.
proof fn lemma_obj_diff_a_at(
    ea: Seq<(String, JNode)>,
    eb: Seq<(String, JNode)>,
    hi: int,
    base: Seq<KeyV>,
    k: Seq<char>,
    m: int,
    j: int,
    q: Seq<KeyV>,
)
    requires
        keys_distinct(ea),
        0 <= hi <= ea.len(),
        find_key(ea, k) == Some(m),
        find_key(eb, k) == Some(j),
        q.len() > base.len(),
        q[base.len() as int] == KeyV::Field(k),
    ensures
        rows_through(obj_diff_a(ea, eb, 0, hi, base), q) == if m < hi {
            rows_through(node_diff(ea[m].1, eb[j].1, Some(k), None, base.push(KeyV::Field(k))), q)
        } else {
            Seq::<DiffRowV>::empty()
        },
    decreases hi,
{
    lemma_find_key(ea, k);
    if hi > 0 {
        lemma_obj_diff_a_at(ea, eb, hi - 1, base, k, m, j, q);
        let kh = ea[hi - 1].0@;
        let s = KeyV::Field(kh);
        let cp = base.push(s);
        let piece = match find_key(eb, kh) {
            Some(jj) => node_diff(ea[hi - 1].1, eb[jj].1, Some(kh), None, cp),
            None => one_sided(ea[hi - 1].1, DiffStatus::Removed, Some(kh), None, cp),
        };
        assert(obj_diff_a(ea, eb, 0, hi, base) == obj_diff_a(ea, eb, 0, hi - 1, base) + piece);
        lemma_through_concat(obj_diff_a(ea, eb, 0, hi - 1, base), piece, q);
        if kh == k {
            assert(hi - 1 == m);
        } else {
            match find_key(eb, kh) {
                Some(jj) => lemma_node_diff_through(ea[hi - 1].1, eb[jj].1, Some(kh), None, cp),
                None => lemma_one_sided_through(ea[hi - 1].1, DiffStatus::Removed, Some(kh), None, cp),
            }
            lemma_other_step_none(piece, base, s, q);
        }
        if m < hi - 1 {
            assert(rows_through(obj_diff_a(ea, eb, 0, hi, base), q) =~= rows_through(
                node_diff(ea[m].1, eb[j].1, Some(k), None, base.push(KeyV::Field(k))),
                q,
            ));
        } else if m == hi - 1 {
            assert(rows_through(obj_diff_a(ea, eb, 0, hi, base), q) =~= rows_through(piece, q));
        } else {
            assert(rows_through(obj_diff_a(ea, eb, 0, hi, base), q) =~= Seq::<DiffRowV>::empty());
        }
    } else {
        lemma_filter_none(obj_diff_a(ea, eb, 0, hi, base), through(q));
    }
}

/// The entries of the second object whose key the first one lacks give no row through a
/// path below a key that the first object holds.
proof fn lemma_obj_diff_b_at(ea: Seq<(String, JNode)>, eb: Seq<(String, JNode)>, hi: int, base: Seq<KeyV>, k: Seq<char>, q: Seq<KeyV>)
    requires
        0 <= hi <= eb.len(),
        find_key(ea, k) is Some,
        q.len() > base.len(),
        q[base.len() as int] == KeyV::Field(k),
    ensures
        rows_through(obj_diff_b(ea, eb, 0, hi, base), q) == Seq::<DiffRowV>::empty(),
    decreases hi,
{
    if hi > 0 {
        lemma_obj_diff_b_at(ea, eb, hi - 1, base, k, q);
        let kh = eb[hi - 1].0@;
        let s = KeyV::Field(kh);
        let piece = if find_key(ea, kh) is Some {
            Seq::empty()
        } else {
            one_sided(eb[hi - 1].1, DiffStatus::Added, Some(kh), None, base.push(s))
        };
        assert(obj_diff_b(ea, eb, 0, hi, base) == obj_diff_b(ea, eb, 0, hi - 1, base) + piece);
        lemma_through_concat(obj_diff_b(ea, eb, 0, hi - 1, base), piece, q);
        if find_key(ea, kh) is Some {
            lemma_filter_none(piece, through(q));
        } else {
            lemma_one_sided_through(eb[hi - 1].1, DiffStatus::Added, Some(kh), None, base.push(s));
            lemma_other_step_none(piece, base, s, q);
        }
        assert(rows_through(obj_diff_b(ea, eb, 0, hi, base), q) =~= Seq::<DiffRowV>::empty());
    } else {
        lemma_filter_none(obj_diff_b(ea, eb, 0, hi, base), through(q));
    }
}

/// The rows of the indexes `0..hi` that run through `q`, a path below index `i` of both
/// arrays, are those of that one index.
proof fn lemma_arr_diff_at(ia: Seq<JNode>, ib: Seq<JNode>, hi: int, base: Seq<KeyV>, i: usize, q: Seq<KeyV>)
    requires
        i < ia.len(),
        i < ib.len(),
        ia.len() <= usize::MAX,
        ib.len() <= usize::MAX,
        0 <= hi,
        hi <= ia.len() || hi <= ib.len(),
        q.len() > base.len(),
        q[base.len() as int] == KeyV::Index(i),
    ensures
        rows_through(arr_diff(ia, ib, 0, hi, base), q) == if i < hi {
            rows_through(node_diff(ia[i as int], ib[i as int], None, Some(i), base.push(KeyV::Index(i))), q)
        } else {
            Seq::<DiffRowV>::empty()
        },
    decreases hi,
{
    if hi > 0 {
        lemma_arr_diff_at(ia, ib, hi - 1, base, i, q);
        let h = hi - 1;
        let s = KeyV::Index(h as usize);
        let cp = base.push(s);
        let piece = if h < ia.len() && h < ib.len() {
            node_diff(ia[h], ib[h], None, Some(h as usize), cp)
        } else if h < ia.len() {
            one_sided(ia[h], DiffStatus::Removed, None, Some(h as usize), cp)
        } else {
            one_sided(ib[h], DiffStatus::Added, None, Some(h as usize), cp)
        };
        assert(arr_diff(ia, ib, 0, hi, base) == arr_diff(ia, ib, 0, hi - 1, base) + piece);
        lemma_through_concat(arr_diff(ia, ib, 0, hi - 1, base), piece, q);
        assert((h as usize) as int == h);
        if h == i {
        } else {
            if h < ia.len() && h < ib.len() {
                lemma_node_diff_through(ia[h], ib[h], None, Some(h as usize), cp);
            } else if h < ia.len() {
                lemma_one_sided_through(ia[h], DiffStatus::Removed, None, Some(h as usize), cp);
            } else {
                lemma_one_sided_through(ib[h], DiffStatus::Added, None, Some(h as usize), cp);
            }
            lemma_other_step_none(piece, base, s, q);
        }
        if i < h {
            assert(rows_through(arr_diff(ia, ib, 0, hi, base), q) =~= rows_through(
                node_diff(ia[i as int], ib[i as int], None, Some(i), base.push(KeyV::Index(i))),
                q,
            ));
        } else if i == h {
            assert(rows_through(arr_diff(ia, ib, 0, hi, base), q) =~= rows_through(piece, q));
        } else {
            assert(rows_through(arr_diff(ia, ib, 0, hi, base), q) =~= Seq::<DiffRowV>::empty());
        }
    } else {
        lemma_filter_none(arr_diff(ia, ib, 0, hi, base), through(q));
    }
}

/// One step of a path into two objects, or two arrays: the rows of their diff that run
/// through `q`, a path that takes the step `s` after `base`, are those of the two children
/// there that run through `q`.
#[verifier::rlimit(40)]
#[verifier::spinoff_prover]
proof fn lemma_node_diff_step(a: JNode, b: JNode, key: Option<Seq<char>>, index: Option<usize>, base: Seq<KeyV>, s: KeyV, q: Seq<KeyV>)
    requires
        child_at(a, s) is Some,
        child_at(b, s) is Some,
        a is Object ==> keys_distinct(a->entries@),
        a is Array ==> a->items@.len() <= usize::MAX,
        b is Array ==> b->items@.len() <= usize::MAX,
        q.len() > base.len(),
        q[base.len() as int] == s,
    ensures
        rows_through(node_diff(a, b, key, index, base), q) == rows_through(
            node_diff(child_at(a, s).unwrap(), child_at(b, s).unwrap(), step_key(s), step_index(s), base.push(s)),
            q,
        ),
{
    let ca = child_at(a, s).unwrap();
    let cb = child_at(b, s).unwrap();
    let cp = base.push(s);
    let head = seq![drow(key, index, base, node_status(a, b), type_label_spec(a), Some(summary_spec(a)),
        Some(summary_spec(b)))];
    assert(!through(q)(head[0]));
    lemma_filter_none(head, through(q));
    match s {
        KeyV::Field(k) => {
            let ea = a->entries;
            let eb = b->entries;
            lemma_find_key(ea@, k);
            lemma_find_key(eb@, k);
            let m = find_key(ea@, k).unwrap();
            let j = find_key(eb@, k).unwrap();
            let da = obj_diff_a(ea@, eb@, 0, ea@.len() as int, base);
            let db = obj_diff_b(ea@, eb@, 0, eb@.len() as int, base);
            assert(node_diff(a, b, key, index, base) == head + da + db);
            lemma_through_concat(head, da, q);
            lemma_through_concat(head + da, db, q);
            lemma_obj_diff_a_at(ea@, eb@, ea@.len() as int, base, k, m, j, q);
            lemma_obj_diff_b_at(ea@, eb@, eb@.len() as int, base, k, q);
            assert(rows_through(node_diff(a, b, key, index, base), q) =~= rows_through(
                node_diff(ca, cb, Some(k), None, cp),
                q,
            ));
        },
        KeyV::Index(i) => {
            let ia = a->items;
            let ib = b->items;
            let mx = if ia@.len() >= ib@.len() { ia@.len() } else { ib@.len() };
            let da = arr_diff(ia@, ib@, 0, mx as int, base);
            assert(node_diff(a, b, key, index, base) == head + da);
            lemma_through_concat(head, da, q);
            lemma_arr_diff_at(ia@, ib@, mx as int, base, i, q);
            assert(rows_through(node_diff(a, b, key, index, base), q) =~= rows_through(
                node_diff(ca, cb, None, Some(i), cp),
                q,
            ));
        },
    }
}

/// Where both documents reach `p` from nodes `a` and `b` met at `base`, the rows of their
/// diff that run through `base + p` are the rows of the diff of the two nodes at `p`; the
/// objects on the way having distinct keys.
#[verifier::rlimit(40)]
#[verifier::spinoff_prover]
proof fn lemma_node_diff_at(a: JNode, b: JNode, key: Option<Seq<char>>, index: Option<usize>, base: Seq<KeyV>, p: Seq<KeyV>)
    requires
        p.len() > 0,
        get_spec(a, p) is Some,
        get_spec(b, p) is Some,
        wf_along(a, p),
        wf_along(b, p),
    ensures
        rows_through(node_diff(a, b, key, index, base), base + p) == node_diff(
            get_spec(a, p).unwrap(),
            get_spec(b, p).unwrap(),
            key_at(p),
            index_at(p),
            base + p,
        ),
    decreases p.len(),
{
    let s = p[0];
    let rest = p.drop_first();
    let q = base + p;
    let cp = base.push(s);
    assert(q =~= cp + rest);
    assert(q[base.len() as int] == s);
    assert(child_at(a, s) is Some && child_at(b, s) is Some);
    let ca = child_at(a, s).unwrap();
    let cb = child_at(b, s).unwrap();
    assert(get_spec(a, p) == get_spec(ca, rest));
    assert(get_spec(b, p) == get_spec(cb, rest));
    assert(wf_along(ca, rest) && wf_along(cb, rest));
    assert(a is Object ==> keys_distinct(a->entries@));
    assert(a is Array ==> a->items@.len() <= usize::MAX);
    assert(b is Array ==> b->items@.len() <= usize::MAX);
    lemma_node_diff_step(a, b, key, index, base, s, q);
    if rest.len() == 0 {
        assert(q =~= cp);
        lemma_node_diff_through(ca, cb, step_key(s), step_index(s), cp);
        lemma_filter_all(node_diff(ca, cb, step_key(s), step_index(s), cp), through(q));
        assert(p.last() == s);
    } else {
        lemma_node_diff_at(ca, cb, step_key(s), step_index(s), cp, rest);
        assert(rest.last() == p.last());
    }
}

/// Where a path reaches a node in both documents and the two nodes differ in kind (object,
/// array or scalar), exactly one row of the diff has a path that is that path or extends
/// it: the row for the path, `Changed`, labelled with the two kinds; the objects on the
/// way having distinct keys.
pub proof fn law_kind_change_is_one_row(a: JNode, b: JNode, p: Seq<KeyV>)
    requires
        get_spec(a, p) is Some,
        get_spec(b, p) is Some,
        !same_shape_spec(get_spec(a, p).unwrap(), get_spec(b, p).unwrap()),
        wf_along(a, p),
        wf_along(b, p),
    ensures
        rows_through(diff_spec(Some(a), Some(b)), p) == seq![
            kind_change_row(get_spec(a, p).unwrap(), get_spec(b, p).unwrap(), p),
        ],
{
    if p.len() == 0 {
        assert(p =~= Seq::<KeyV>::empty());
        lemma_node_diff_through(a, b, None, None, p);
        lemma_filter_all(diff_spec(Some(a), Some(b)), through(p));
    } else {
        lemma_node_diff_at(a, b, None, None, Seq::empty(), p);
        assert(Seq::<KeyV>::empty() + p =~= p);
    }
    let x = get_spec(a, p).unwrap();
    let y = get_spec(b, p).unwrap();
    assert(diff_spec(Some(a), Some(b)) == node_diff(a, b, None, None, Seq::empty()));
    assert(node_diff(x, y, key_at(p), index_at(p), p) == seq![kind_change_row(x, y, p)]);
}

// ---------------------------------------------------------------------------
// Rows of a subtree present on one side only
// ---------------------------------------------------------------------------

/// The rows the entry `h` of the first object gives against the second.
pub open spec fn a_entry_piece(ea: Seq<(String, JNode)>, eb: Seq<(String, JNode)>, h: int, base: Seq<KeyV>) -> Seq<DiffRowV> {
    let k = ea[h].0@;
    match find_key(eb, k) {
        Some(j) => node_diff(ea[h].1, eb[j].1, Some(k), None, base.push(KeyV::Field(k))),
        None => one_sided(ea[h].1, DiffStatus::Removed, Some(k), None, base.push(KeyV::Field(k))),
    }
}

/// The rows the entry `h` of the second object gives when the first lacks its key.
pub open spec fn b_entry_piece(ea: Seq<(String, JNode)>, eb: Seq<(String, JNode)>, h: int, base: Seq<KeyV>) -> Seq<DiffRowV> {
    let k = eb[h].0@;
    if find_key(ea, k) is Some {
        Seq::empty()
    } else {
        one_sided(eb[h].1, DiffStatus::Added, Some(k), None, base.push(KeyV::Field(k)))
    }
}

/// The rows index `h` of two arrays gives.
pub open spec fn arr_piece(ia: Seq<JNode>, ib: Seq<JNode>, h: int, base: Seq<KeyV>) -> Seq<DiffRowV> {
    let cp = base.push(KeyV::Index(h as usize));
    if h < ia.len() && h < ib.len() {
        node_diff(ia[h], ib[h], None, Some(h as usize), cp)
    } else if h < ia.len() {
        one_sided(ia[h], DiffStatus::Removed, None, Some(h as usize), cp)
    } else {
        one_sided(ib[h], DiffStatus::Added, None, Some(h as usize), cp)
    }
}

proof fn lemma_a_entry_piece_through(ea: Seq<(String, JNode)>, eb: Seq<(String, JNode)>, h: int, base: Seq<KeyV>)
    requires
        0 <= h < ea.len(),
    ensures
        all_through(a_entry_piece(ea, eb, h, base), base.push(KeyV::Field(ea[h].0@))),
{
    let k = ea[h].0@;
    match find_key(eb, k) {
        Some(j) => lemma_node_diff_through(ea[h].1, eb[j].1, Some(k), None, base.push(KeyV::Field(k))),
        None => lemma_one_sided_through(ea[h].1, DiffStatus::Removed, Some(k), None, base.push(KeyV::Field(k))),
    }
}

proof fn lemma_arr_piece_through(ia: Seq<JNode>, ib: Seq<JNode>, h: int, base: Seq<KeyV>)
    requires
        0 <= h,
        h < ia.len() || h < ib.len(),
    ensures
        all_through(arr_piece(ia, ib, h, base), base.push(KeyV::Index(h as usize))),
{
    let cp = base.push(KeyV::Index(h as usize));
    if h < ia.len() && h < ib.len() {
        lemma_node_diff_through(ia[h], ib[h], None, Some(h as usize), cp);
    } else if h < ia.len() {
        lemma_one_sided_through(ia[h], DiffStatus::Removed, None, Some(h as usize), cp);
    } else {
        lemma_one_sided_through(ib[h], DiffStatus::Added, None, Some(h as usize), cp);
    }
}

proof fn lemma_arr_diff_piece_at(ia: Seq<JNode>, ib: Seq<JNode>, hi: int, base: Seq<KeyV>, i: usize, q: Seq<KeyV>)
    requires
        i < ia.len() || i < ib.len(),
        ia.len() <= usize::MAX,
        ib.len() <= usize::MAX,
        0 <= hi,
        hi <= ia.len() || hi <= ib.len(),
        q.len() > base.len(),
        q[base.len() as int] == KeyV::Index(i),
    ensures
        rows_through(arr_diff(ia, ib, 0, hi, base), q) == if i < hi {
            rows_through(arr_piece(ia, ib, i as int, base), q)
        } else {
            Seq::<DiffRowV>::empty()
        },
    decreases hi,
{
    if hi > 0 {
        lemma_arr_diff_piece_at(ia, ib, hi - 1, base, i, q);
        let h = hi - 1;
        let piece = arr_piece(ia, ib, h, base);
        assert(arr_diff(ia, ib, 0, hi, base) == arr_diff(ia, ib, 0, hi - 1, base) + piece);
        lemma_through_concat(arr_diff(ia, ib, 0, hi - 1, base), piece, q);
        assert((h as usize) as int == h);
        if h != i {
            lemma_arr_piece_through(ia, ib, h, base);
            lemma_other_step_none(piece, base, KeyV::Index(h as usize), q);
        }
        if i < h {
            assert(rows_through(arr_diff(ia, ib, 0, hi, base), q) =~= rows_through(arr_piece(ia, ib, i as int, base), q));
        } else if i == h {
            assert(rows_through(arr_diff(ia, ib, 0, hi, base), q) =~= rows_through(piece, q));
        } else {
            assert(rows_through(arr_diff(ia, ib, 0, hi, base), q) =~= Seq::<DiffRowV>::empty());
        }
    } else {
        lemma_filter_none(arr_diff(ia, ib, 0, hi, base), through(q));
    }
}

proof fn lemma_obj_diff_a_piece_at(ea: Seq<(String, JNode)>, eb: Seq<(String, JNode)>, hi: int, base: Seq<KeyV>, k: Seq<char>, m: int, q: Seq<KeyV>)
    requires
        keys_distinct(ea),
        0 <= hi <= ea.len(),
        find_key(ea, k) == Some(m),
        q.len() > base.len(),
        q[base.len() as int] == KeyV::Field(k),
    ensures
        rows_through(obj_diff_a(ea, eb, 0, hi, base), q) == if m < hi {
            rows_through(a_entry_piece(ea, eb, m, base), q)
        } else {
            Seq::<DiffRowV>::empty()
        },
    decreases hi,
{
    lemma_find_key(ea, k);
    if hi > 0 {
        lemma_obj_diff_a_piece_at(ea, eb, hi - 1, base, k, m, q);
        let h = hi - 1;
        let piece = a_entry_piece(ea, eb, h, base);
        assert(obj_diff_a(ea, eb, 0, hi, base) == obj_diff_a(ea, eb, 0, hi - 1, base) + piece);
        lemma_through_concat(obj_diff_a(ea, eb, 0, hi - 1, base), piece, q);
        if ea[h].0@ == k {
            assert(h == m);
        } else {
            lemma_a_entry_piece_through(ea, eb, h, base);
            lemma_other_step_none(piece, base, KeyV::Field(ea[h].0@), q);
        }
        if m < h {
            assert(rows_through(obj_diff_a(ea, eb, 0, hi, base), q) =~= rows_through(a_entry_piece(ea, eb, m, base), q));
        } else if m == h {
            assert(rows_through(obj_diff_a(ea, eb, 0, hi, base), q) =~= rows_through(piece, q));
        } else {
            assert(rows_through(obj_diff_a(ea, eb, 0, hi, base), q) =~= Seq::<DiffRowV>::empty());
        }
    } else {
        lemma_filter_none(obj_diff_a(ea, eb, 0, hi, base), through(q));
    }
}

proof fn lemma_obj_diff_a_missing(ea: Seq<(String, JNode)>, eb: Seq<(String, JNode)>, hi: int, base: Seq<KeyV>, k: Seq<char>, q: Seq<KeyV>)
    requires
        0 <= hi <= ea.len(),
        find_key(ea, k) is None,
        q.len() > base.len(),
        q[base.len() as int] == KeyV::Field(k),
    ensures
        rows_through(obj_diff_a(ea, eb, 0, hi, base), q) == Seq::<DiffRowV>::empty(),
    decreases hi,
{
    lemma_find_key(ea, k);
    if hi > 0 {
        lemma_obj_diff_a_missing(ea, eb, hi - 1, base, k, q);
        let h = hi - 1;
        let piece = a_entry_piece(ea, eb, h, base);
        assert(obj_diff_a(ea, eb, 0, hi, base) == obj_diff_a(ea, eb, 0, hi - 1, base) + piece);
        lemma_through_concat(obj_diff_a(ea, eb, 0, hi - 1, base), piece, q);
        lemma_a_entry_piece_through(ea, eb, h, base);
        lemma_other_step_none(piece, base, KeyV::Field(ea[h].0@), q);
        assert(rows_through(obj_diff_a(ea, eb, 0, hi, base), q) =~= Seq::<DiffRowV>::empty());
    } else {
        lemma_filter_none(obj_diff_a(ea, eb, 0, hi, base), through(q));
    }
}

proof fn lemma_obj_diff_b_piece_at(ea: Seq<(String, JNode)>, eb: Seq<(String, JNode)>, hi: int, base: Seq<KeyV>, k: Seq<char>, m: int, q: Seq<KeyV>)
    requires
        keys_distinct(eb),
        0 <= hi <= eb.len(),
        find_key(eb, k) == Some(m),
        find_key(ea, k) is None,
        q.len() > base.len(),
        q[base.len() as int] == KeyV::Field(k),
    ensures
        rows_through(obj_diff_b(ea, eb, 0, hi, base), q) == if m < hi {
            rows_through(b_entry_piece(ea, eb, m, base), q)
        } else {
            Seq::<DiffRowV>::empty()
        },
    decreases hi,
{
    lemma_find_key(eb, k);
    if hi > 0 {
        lemma_obj_diff_b_piece_at(ea, eb, hi - 1, base, k, m, q);
        let h = hi - 1;
        let kh = eb[h].0@;
        let piece = b_entry_piece(ea, eb, h, base);
        assert(obj_diff_b(ea, eb, 0, hi, base) == obj_diff_b(ea, eb, 0, hi - 1, base) + piece);
        lemma_through_concat(obj_diff_b(ea, eb, 0, hi - 1, base), piece, q);
        if kh == k {
            assert(h == m);
        } else if find_key(ea, kh) is Some {
            lemma_filter_none(piece, through(q));
        } else {
            lemma_one_sided_through(eb[h].1, DiffStatus::Added, Some(kh), None, base.push(KeyV::Field(kh)));
            lemma_other_step_none(piece, base, KeyV::Field(kh), q);
        }
        if m < h {
            assert(rows_through(obj_diff_b(ea, eb, 0, hi, base), q) =~= rows_through(b_entry_piece(ea, eb, m, base), q));
        } else if m == h {
            assert(rows_through(obj_diff_b(ea, eb, 0, hi, base), q) =~= rows_through(piece, q));
        } else {
            assert(rows_through(obj_diff_b(ea, eb, 0, hi, base), q) =~= Seq::<DiffRowV>::empty());
        }
    } else {
        lemma_filter_none(obj_diff_b(ea, eb, 0, hi, base), through(q));
    }
}

/// The last step of a path present in one document only: the rows through `base.push(s)`
/// of the diff of two nodes of one kind, of which only one has a child at `s`, are those of
/// that child alone, `Removed` (first document) or `Added` (second).
#[verifier::rlimit(40)]
#[verifier::spinoff_prover]
proof fn lemma_node_diff_side_step(a: JNode, b: JNode, key: Option<Seq<char>>, index: Option<usize>, base: Seq<KeyV>, s: KeyV, removed: bool)
    requires
        same_shape_spec(a, b),
        removed ==> child_at(a, s) is Some && child_at(b, s) is None,
        !removed ==> child_at(a, s) is None && child_at(b, s) is Some,
        a is Object ==> keys_distinct(a->entries@),
        b is Object ==> keys_distinct(b->entries@),
        a is Array ==> a->items@.len() <= usize::MAX,
        b is Array ==> b->items@.len() <= usize::MAX,
    ensures
        rows_through(node_diff(a, b, key, index, base), base.push(s)) == if removed {
            one_sided(child_at(a, s).unwrap(), DiffStatus::Removed, step_key(s), step_index(s), base.push(s))
        } else {
            one_sided(child_at(b, s).unwrap(), DiffStatus::Added, step_key(s), step_index(s), base.push(s))
        },
{
    let q = base.push(s);
    let head = seq![drow(key, index, base, node_status(a, b), type_label_spec(a), Some(summary_spec(a)),
        Some(summary_spec(b)))];
    assert(!through(q)(head[0]));
    lemma_filter_none(head, through(q));
    let st = if removed { DiffStatus::Removed } else { DiffStatus::Added };
    let c = if removed { child_at(a, s).unwrap() } else { child_at(b, s).unwrap() };
    let x = one_sided(c, st, step_key(s), step_index(s), q);
    lemma_one_sided_through(c, st, step_key(s), step_index(s), q);
    lemma_filter_all(x, through(q));
    match s {
        KeyV::Field(k) => {
            let ea = a->entries;
            let eb = b->entries;
            lemma_find_key(ea@, k);
            lemma_find_key(eb@, k);
            let da = obj_diff_a(ea@, eb@, 0, ea@.len() as int, base);
            let db = obj_diff_b(ea@, eb@, 0, eb@.len() as int, base);
            assert(node_diff(a, b, key, index, base) == head + da + db);
            lemma_through_concat(head, da, q);
            lemma_through_concat(head + da, db, q);
            if removed {
                let m = find_key(ea@, k).unwrap();
                lemma_obj_diff_a_piece_at(ea@, eb@, ea@.len() as int, base, k, m, q);
                lemma_obj_diff_b_at(ea@, eb@, eb@.len() as int, base, k, q);
                assert(a_entry_piece(ea@, eb@, m, base) == x);
            } else {
                let m = find_key(eb@, k).unwrap();
                lemma_obj_diff_a_missing(ea@, eb@, ea@.len() as int, base, k, q);
                lemma_obj_diff_b_piece_at(ea@, eb@, eb@.len() as int, base, k, m, q);
                assert(b_entry_piece(ea@, eb@, m, base) == x);
            }
            assert(rows_through(node_diff(a, b, key, index, base), q) =~= x);
        },
        KeyV::Index(i) => {
            let ia = a->items;
            let ib = b->items;
            let mx = if ia@.len() >= ib@.len() { ia@.len() } else { ib@.len() };
            let da = arr_diff(ia@, ib@, 0, mx as int, base);
            assert(node_diff(a, b, key, index, base) == head + da);
            lemma_through_concat(head, da, q);
            lemma_arr_diff_piece_at(ia@, ib@, mx as int, base, i, q);
            assert((i as int) as usize == i);
            assert(arr_piece(ia@, ib@, i as int, base) == x);
            assert(rows_through(node_diff(a, b, key, index, base), q) =~= x);
        },
    }
}

/// Where both documents reach `p`'s parent from `a` and `b` met at `base`, the parents being
/// of one kind, and only one of them has the child `p` names, the rows through `base + p`
/// are the one-sided rows of that child.
#[verifier::rlimit(40)]
#[verifier::spinoff_prover]
proof fn lemma_node_diff_side_at(a: JNode, b: JNode, key: Option<Seq<char>>, index: Option<usize>, base: Seq<KeyV>, p: Seq<KeyV>, removed: bool)
    requires
        p.len() > 0,
        get_spec(a, p.drop_last()) matches Some(pa) && get_spec(b, p.drop_last()) matches Some(pb) && same_shape_spec(pa, pb),
        removed ==> get_spec(a, p) is Some && get_spec(b, p) is None,
        !removed ==> get_spec(a, p) is None && get_spec(b, p) is Some,
        wf_along(a, p),
        wf_along(b, p),
    ensures
        rows_through(node_diff(a, b, key, index, base), base + p) == if removed {
            one_sided(get_spec(a, p).unwrap(), DiffStatus::Removed, key_at(p), index_at(p), base + p)
        } else {
            one_sided(get_spec(b, p).unwrap(), DiffStatus::Added, key_at(p), index_at(p), base + p)
        },
    decreases p.len(),
{
    let s = p[0];
    let rest = p.drop_first();
    let q = base + p;
    let cp = base.push(s);
    assert(q =~= cp + rest);
    assert(q[base.len() as int] == s);
    if rest.len() == 0 {
        assert(p.drop_last() =~= Seq::<KeyV>::empty());
        assert(q =~= cp);
        assert(p.last() == s);
        if child_at(a, s) is Some {
            assert(get_spec(child_at(a, s).unwrap(), rest) == child_at(a, s));
        }
        if child_at(b, s) is Some {
            assert(get_spec(child_at(b, s).unwrap(), rest) == child_at(b, s));
        }
        assert(get_spec(a, p) == child_at(a, s));
        assert(get_spec(b, p) == child_at(b, s));
        lemma_node_diff_side_step(a, b, key, index, base, s, removed);
    } else {
        assert(p.drop_last().len() > 0 && p.drop_last()[0] == s);
        assert(p.drop_last().drop_first() =~= rest.drop_last());
        assert(child_at(a, s) is Some && child_at(b, s) is Some);
        let ca = child_at(a, s).unwrap();
        let cb = child_at(b, s).unwrap();
        assert(get_spec(a, p) == get_spec(ca, rest));
        assert(get_spec(b, p) == get_spec(cb, rest));
        assert(get_spec(a, p.drop_last()) == get_spec(ca, rest.drop_last()));
        assert(get_spec(b, p.drop_last()) == get_spec(cb, rest.drop_last()));
        assert(wf_along(ca, rest) && wf_along(cb, rest));
        assert(a is Object ==> keys_distinct(a->entries@));
        assert(a is Array ==> a->items@.len() <= usize::MAX);
        assert(b is Array ==> b->items@.len() <= usize::MAX);
        lemma_node_diff_step(a, b, key, index, base, s, q);
        lemma_node_diff_side_at(ca, cb, step_key(s), step_index(s), cp, rest, removed);
        assert(rest.last() == p.last());
        assert(key_at(rest) == key_at(p) && index_at(rest) == index_at(p));
    }
}

/// Where a path leads to a node in the first document but not in the second, their parents
/// being of one kind, the rows of the diff through that path are exactly the rows of that
/// node's subtree, all `Removed`, beginning with the row for the path itself; the objects on
/// the way having distinct keys.
pub proof fn law_removed_subtree_rows(a: JNode, b: JNode, p: Seq<KeyV>)
    requires
        p.len() > 0,
        get_spec(a, p.drop_last()) matches Some(pa) && get_spec(b, p.drop_last()) matches Some(pb) && same_shape_spec(pa, pb),
        get_spec(a, p) is Some,
        get_spec(b, p) is None,
        wf_along(a, p),
        wf_along(b, p),
    ensures
        rows_through(diff_spec(Some(a), Some(b)), p) == one_sided(
            get_spec(a, p).unwrap(),
            DiffStatus::Removed,
            key_at(p),
            index_at(p),
            p,
        ),
        rows_through(diff_spec(Some(a), Some(b)), p).len() > 0,
        rows_through(diff_spec(Some(a), Some(b)), p)[0].path == p,
        forall|i: int| 0 <= i < rows_through(diff_spec(Some(a), Some(b)), p).len()
            ==> (#[trigger] rows_through(diff_spec(Some(a), Some(b)), p)[i]).status == DiffStatus::Removed,
{
    lemma_node_diff_side_at(a, b, None, None, Seq::empty(), p, true);
    assert(Seq::<KeyV>::empty() + p =~= p);
    lemma_one_sided_status(get_spec(a, p).unwrap(), DiffStatus::Removed, key_at(p), index_at(p), p);
}

/// Where a path leads to a node in the second document but not in the first, their parents
/// being of one kind, the rows of the diff through that path are exactly the rows of that
/// node's subtree, all `Added`, beginning with the row for the path itself; the objects on
/// the way having distinct keys.
pub proof fn law_added_subtree_rows(a: JNode, b: JNode, p: Seq<KeyV>)
    requires
        p.len() > 0,
        get_spec(a, p.drop_last()) matches Some(pa) && get_spec(b, p.drop_last()) matches Some(pb) && same_shape_spec(pa, pb),
        get_spec(a, p) is None,
        get_spec(b, p) is Some,
        wf_along(a, p),
        wf_along(b, p),
    ensures
        rows_through(diff_spec(Some(a), Some(b)), p) == one_sided(
            get_spec(b, p).unwrap(),
            DiffStatus::Added,
            key_at(p),
            index_at(p),
            p,
        ),
        rows_through(diff_spec(Some(a), Some(b)), p).len() > 0,
        rows_through(diff_spec(Some(a), Some(b)), p)[0].path == p,
        forall|i: int| 0 <= i < rows_through(diff_spec(Some(a), Some(b)), p).len()
            ==> (#[trigger] rows_through(diff_spec(Some(a), Some(b)), p)[i]).status == DiffStatus::Added,
{
    lemma_node_diff_side_at(a, b, None, None, Seq::empty(), p, false);
    assert(Seq::<KeyV>::empty() + p =~= p);
    lemma_one_sided_status(get_spec(b, p).unwrap(), DiffStatus::Added, key_at(p), index_at(p), p);
}

/// The rows of a one-sided subtree all carry its status, the first being the row for its
/// own path.
proof fn lemma_one_sided_status(n: JNode, st: DiffStatus, key: Option<Seq<char>>, index: Option<usize>, path: Seq<KeyV>)
    ensures
        one_sided(n, st, key, index, path).len() > 0,
        one_sided(n, st, key, index, path)[0].path == path,
        forall|i: int| 0 <= i < one_sided(n, st, key, index, path).len() ==> (#[trigger] one_sided(n, st, key, index, path)[i]).status == st,
    decreases n, 0int,
{
    let (o, nw) = if st == DiffStatus::Added {
        (None, Some(summary_spec(n)))
    } else {
        (Some(summary_spec(n)), None)
    };
    let head = seq![drow(key, index, path, st, type_label_spec(n), o, nw)];
    let rest = match n {
        JNode::Object { entries, .. } => obj_one_sided(entries@, 0, entries@.len() as int, st, path),
        JNode::Array { items, .. } => arr_one_sided(items@, 0, items@.len() as int, st, path),
        JNode::Scalar(_) => Seq::empty(),
    };
    match n {
        JNode::Object { entries, .. } => lemma_obj_one_sided_status(entries@, 0, entries@.len() as int, st, path),
        JNode::Array { items, .. } => lemma_arr_one_sided_status(items@, 0, items@.len() as int, st, path),
        JNode::Scalar(_) => {},
    }
    assert(one_sided(n, st, key, index, path) == head + rest);
    assert forall|i: int| 0 <= i < (head + rest).len() implies (#[trigger] (head + rest)[i]).status == st by {
        if i > 0 {
            assert((head + rest)[i] == rest[i - 1]);
        }
    }
}

proof fn lemma_obj_one_sided_status(es: Seq<(String, JNode)>, lo: int, hi: int, st: DiffStatus, base: Seq<KeyV>)
    ensures
        forall|i: int| 0 <= i < obj_one_sided(es, lo, hi, st, base).len() ==> (#[trigger] obj_one_sided(es, lo, hi, st, base)[i]).status == st,
    decreases es, hi - lo,
{
    if !(lo < 0 || hi <= lo || hi > es.len()) {
        let x = obj_one_sided(es, lo, hi - 1, st, base);
        let y = one_sided(es[hi - 1].1, st, Some(es[hi - 1].0@), None, base.push(KeyV::Field(es[hi - 1].0@)));
        lemma_obj_one_sided_status(es, lo, hi - 1, st, base);
        lemma_one_sided_status(es[hi - 1].1, st, Some(es[hi - 1].0@), None, base.push(KeyV::Field(es[hi - 1].0@)));
        assert forall|i: int| 0 <= i < (x + y).len() implies (#[trigger] (x + y)[i]).status == st by {
            if i >= x.len() {
                assert((x + y)[i] == y[i - x.len()]);
            } else {
                assert((x + y)[i] == x[i]);
            }
        }
    }
}

proof fn lemma_arr_one_sided_status(items: Seq<JNode>, lo: int, hi: int, st: DiffStatus, base: Seq<KeyV>)
    ensures
        forall|i: int| 0 <= i < arr_one_sided(items, lo, hi, st, base).len() ==> (#[trigger] arr_one_sided(items, lo, hi, st, base)[i]).status == st,
    decreases items, hi - lo,
{
    if !(lo < 0 || hi <= lo || hi > items.len()) {
        let x = arr_one_sided(items, lo, hi - 1, st, base);
        let y = one_sided(items[hi - 1], st, None, Some((hi - 1) as usize), base.push(KeyV::Index((hi - 1) as usize)));
        lemma_arr_one_sided_status(items, lo, hi - 1, st, base);
        lemma_one_sided_status(items[hi - 1], st, None, Some((hi - 1) as usize), base.push(KeyV::Index((hi - 1) as usize)));
        assert forall|i: int| 0 <= i < (x + y).len() implies (#[trigger] (x + y)[i]).status == st by {
            if i >= x.len() {
                assert((x + y)[i] == y[i - x.len()]);
            } else {
                assert((x + y)[i] == x[i]);
            }
        }
    }
}


// ---------------------------------------------------------------------------
// Reports
// ---------------------------------------------------------------------------

/// The text of an optional value, empty when there is none.
pub open spec fn opt_text(o: Option<Seq<char>>) -> Seq<char> {
    match o {
        Some(t) => t,
        None => Seq::empty(),
    }
}

/// The line of the text report for one row; an unchanged row has none.
pub open spec fn row_line(r: DiffRowV) -> Seq<char> {
    let p = path_text(r.path);
    match r.status {
        DiffStatus::Added => "+ "@ + p + ": "@ + opt_text(r.new_value) + "\n"@,
        DiffStatus::Removed => "- "@ + p + ": "@ + opt_text(r.old_value) + "\n"@,
        DiffStatus::Changed => "~ "@ + p + ": "@ + opt_text(r.old_value) + " -> "@ + opt_text(r.new_value) + "\n"@,
        DiffStatus::Unchanged => Seq::empty(),
    }
}

/// The text report: one line per row that is not `Unchanged`, in row order.
pub open spec fn text_report(rows: Seq<DiffRowV>) -> Seq<char>
    decreases rows.len(),
{
    if rows.len() == 0 {
        Seq::empty()
    } else {
        text_report(rows.drop_last()) + row_line(rows.last())
    }
}

fn append_opt(out: &mut String, o: &Option<String>)
    ensures
        final(out)@ == old(out)@ + opt_text(o.deep_view()),
{
    match o {
        Some(t) => append(out, t.as_str()),
        None => {
            assert(old(out)@ + opt_text(o.deep_view()) =~= old(out)@);
        },
    }
}

/// The text report of a diff: `+ path: new`, `- path: old` and `~ path: old -> new` lines.
pub fn render_text(rows: &[DiffRow]) -> (s: String)
    ensures
        s@ == text_report(rows.deep_view()),
{
    let ghost rv = rows.deep_view();
    let mut s = String::new();
    let mut i: usize = 0;
    while i < rows.len()
        invariant
            i <= rows@.len(),
            rv == rows.deep_view(),
            s@ == text_report(rv.subrange(0, i as int)),
        decreases rows@.len() - i,
    {
        let r = &rows[i];
        let ghost before = s@;
        match r.status {
            DiffStatus::Unchanged => {},
            DiffStatus::Added => {
                append(&mut s, "+ ");
                let p = path_to_string(&r.path);
                append(&mut s, p.as_str());
                append(&mut s, ": ");
                append_opt(&mut s, &r.new_value);
                append(&mut s, "\n");
            },
            DiffStatus::Removed => {
                append(&mut s, "- ");
                let p = path_to_string(&r.path);
                append(&mut s, p.as_str());
                append(&mut s, ": ");
                append_opt(&mut s, &r.old_value);
                append(&mut s, "\n");
            },
            DiffStatus::Changed => {
                append(&mut s, "~ ");
                let p = path_to_string(&r.path);
                append(&mut s, p.as_str());
                append(&mut s, ": ");
                append_opt(&mut s, &r.old_value);
                append(&mut s, " -> ");
                append_opt(&mut s, &r.new_value);
                append(&mut s, "\n");
            },
        }
        proof {
            let q = rv.subrange(0, i + 1);
            assert(q.drop_last() =~= rv.subrange(0, i as int));
            assert(q.last() == rows[i as int].deep_view());
            assert(s@ =~= before + row_line(q.last()));
        }
        i = i + 1;
    }
    assert(rv.subrange(0, rv.len() as int) =~= rv);
    s
}

/// The word naming a status in the JSON report.
pub open spec fn status_word(st: DiffStatus) -> Seq<char> {
    match st {
        DiffStatus::Added => "added"@,
        DiffStatus::Removed => "removed"@,
        DiffStatus::Changed => "changed"@,
        DiffStatus::Unchanged => "unchanged"@,
    }
}

fn status_word_string(st: DiffStatus) -> (r: String)
    ensures
        r@ == status_word(st),
{
    match st {
        DiffStatus::Added => lit("added"),
        DiffStatus::Removed => lit("removed"),
        DiffStatus::Changed => lit("changed"),
        DiffStatus::Unchanged => lit("unchanged"),
    }
}

/// One entry of the JSON report: dot path, status word, old and new value.
pub type ReportEntryV = (Seq<char>, Seq<char>, Option<Seq<char>>, Option<Seq<char>>);

/// The entries of the JSON report: one per row that is not `Unchanged`, in row order.
pub open spec fn report_entries(rows: Seq<DiffRowV>) -> Seq<ReportEntryV>
    decreases rows.len(),
{
    if rows.len() == 0 {
        Seq::empty()
    } else {
        let r = rows.last();
        report_entries(rows.drop_last()) + if r.status is Unchanged {
            Seq::empty()
        } else {
            seq![(path_text(r.path), status_word(r.status), r.old_value, r.new_value)]
        }
    }
}

/// The members of one report object, in order: `path`, `status`, `old`, `new`; a missing
/// value is `None` (written as `null`).
pub open spec fn report_object(e: ReportEntryV) -> Seq<(Seq<char>, Option<Seq<char>>)> {
    seq![("path"@, Some(e.0)), ("status"@, Some(e.1)), ("old"@, e.2), ("new"@, e.3)]
}

/// The report objects of the entries.
pub open spec fn report_objects(es: Seq<ReportEntryV>) -> Seq<Seq<(Seq<char>, Option<Seq<char>>)>> {
    es.map_values(|e: ReportEntryV| report_object(e))
}

/// What `serde_json::to_string_pretty` writes for an array of objects, each given as its
/// members in order (a `None` value is `null`).
pub uninterp spec fn pretty_json_objects(objs: Seq<Seq<(Seq<char>, Option<Seq<char>>)>>) -> Seq<char>;

/// The pretty JSON text of the report of these entries.
pub open spec fn pretty_json_report(entries: Seq<ReportEntryV>) -> Seq<char> {
    pretty_json_objects(report_objects(entries))
}

/// Turns each object, given as its members in order, into a `serde_json` object (a `None`
/// value becomes `null`) and writes the array with `serde_json::to_string_pretty`; the text
/// is the name applied to the objects. The writer fails only where a `Serialize` impl fails
/// or a map key is not a string; a `Value` of strings, nulls and string-keyed objects written
/// into a `Vec<u8>` meets neither, so text always comes back.
#[verifier::external_body]
fn pretty_objects(objs: &Vec<Vec<(String, Option<String>)>>) -> (r: Option<String>)
    ensures
        r is Some,
        r matches Some(t) ==> t@ == pretty_json_objects(objs.deep_view()),
{
    let arr: Vec<serde_json::Value> = objs.iter().map(|o| serde_json::Value::Object(
        o.iter().map(|(k, v)| (k.clone(), serde_json::Value::from(v.clone()))).collect(),
    )).collect();
    serde_json::to_string_pretty(&arr).ok()
}

fn member(name: &str, v: Option<String>) -> (r: (String, Option<String>))
    ensures
        r.deep_view() == (name@, v.deep_view()),
{
    (lit(name), v)
}

/// The members of a report object.
fn report_object_vec(e: (String, String, Option<String>, Option<String>)) -> (r: Vec<(String, Option<String>)>)
    ensures
        r.deep_view() == report_object(e.deep_view()),
{
    let ghost ev = e.deep_view();
    let (p, w, o, n) = e;
    let mut r: Vec<(String, Option<String>)> = Vec::new();
    r.push(member("path", Some(p)));
    r.push(member("status", Some(w)));
    r.push(member("old", o));
    r.push(member("new", n));
    assert(r.deep_view() =~= report_object(ev));
    r
}

/// The JSON report of a diff: an array with one object per row that is not `Unchanged`.
/// The writer always succeeds on these values, so the text is always there.
pub fn render_json(rows: &[DiffRow]) -> (r: Option<String>)
    ensures
        r matches Some(t) && t@ == pretty_json_report(report_entries(rows.deep_view())),
{
    let ghost rv = rows.deep_view();
    let mut objs: Vec<Vec<(String, Option<String>)>> = Vec::new();
    let mut i: usize = 0;
    while i < rows.len()
        invariant
            i <= rows@.len(),
            rv == rows.deep_view(),
            objs.deep_view() == report_objects(report_entries(rv.subrange(0, i as int))),
        decreases rows@.len() - i,
    {
        let r = &rows[i];
        let ghost before = report_entries(rv.subrange(0, i as int));
        if r.status != DiffStatus::Unchanged {
            let p = path_to_string(&r.path);
            let w = status_word_string(r.status);
            let o = match &r.old_value {
                Some(t) => Some(t.clone()),
                None => None,
            };
            let n = match &r.new_value {
                Some(t) => Some(t.clone()),
                None => None,
            };
            let ghost e = (p@, w@, o.deep_view(), n.deep_view());
            let obj = report_object_vec((p, w, o, n));
            let ghost od = objs.deep_view();
            let ghost bd = obj.deep_view();
            objs.push(obj);
            assert(objs.deep_view() =~= od.push(bd));
            assert(report_objects(before.push(e)) =~= report_objects(before).push(report_object(e)));
        }
        proof {
            let q = rv.subrange(0, i + 1);
            assert(q.drop_last() =~= rv.subrange(0, i as int));
            assert(q.last() == rows[i as int].deep_view());
            if rows[i as int].status is Unchanged {
                assert(report_entries(q) =~= before);
            } else {
                assert(report_entries(q) =~= before.push((path_text(q.last().path), status_word(q.last().status),
                    q.last().old_value, q.last().new_value)));
            }
            assert(objs.deep_view() =~= report_objects(report_entries(q)));
        }
        i = i + 1;
    }
    assert(rv.subrange(0, rv.len() as int) =~= rv);
    pretty_objects(&objs)
}

/// Why a diff report could not be produced.
#[derive(Debug, Clone, PartialEq)]
pub enum ReportError {
    /// The requested format is neither `text` nor `json`; carries the message shown.
    UnsupportedFormat(String),
    /// The JSON serializer failed.
    Serialize,
}

/// The message for a format other than `text` or `json`.
pub open spec fn unsupported_format_message(fmt: Seq<char>) -> Seq<char> {
    "--diff --to only supports 'text' or 'json' (got '"@ + fmt + "')"@
}

/// The report of a diff in the format `fmt` (`text` or `json`).
pub fn render_report(rows: &[DiffRow], fmt: &str) -> (r: Result<String, ReportError>)
    ensures
        fmt@ == "text"@ ==> (r matches Ok(t) && t@ == text_report(rows.deep_view())),
        fmt@ == "json"@ ==> (r matches Ok(t) && t@ == pretty_json_report(report_entries(rows.deep_view()))),
        fmt@ != "text"@ && fmt@ != "json"@ ==> (r matches Err(ReportError::UnsupportedFormat(m))
            && m@ == unsupported_format_message(fmt@)),
{
    proof {
        reveal_strlit("text");
        reveal_strlit("json");
        assert("text"@[0] != "json"@[0]);
    }
    let f = lit(fmt);
    let text = lit("text");
    let json = lit("json");
    if f == text {
        Ok(render_text(rows))
    } else if f == json {
        match render_json(rows) {
            Some(t) => Ok(t),
            None => Err(ReportError::Serialize),
        }
    } else {
        let mut m = lit("--diff --to only supports 'text' or 'json' (got '");
        append(&mut m, fmt);
        append(&mut m, "')");
        Err(ReportError::UnsupportedFormat(m))
    }
}

/// The value column of a diff row: `old → new` for a change, else whichever value exists.
pub open spec fn display_value_spec(r: DiffRowV) -> Seq<char> {
    if r.status is Changed {
        opt_text(r.old_value) + " → "@ + opt_text(r.new_value)
    } else {
        match r.new_value {
            Some(v) => v,
            None => opt_text(r.old_value),
        }
    }
}

/// The value column shown for a row of the diff view.
pub fn diff_display_value(row: &DiffRow) -> (s: String)
    ensures
        s@ == display_value_spec(row.deep_view()),
{
    if row.status == DiffStatus::Changed {
        let mut s = String::new();
        append_opt(&mut s, &row.old_value);
        append(&mut s, " → ");
        append_opt(&mut s, &row.new_value);
        s
    } else {
        match &row.new_value {
            Some(v) => v.clone(),
            None => {
                let mut s = String::new();
                append_opt(&mut s, &row.old_value);
                s
            },
        }
    }
}

} // verus!
