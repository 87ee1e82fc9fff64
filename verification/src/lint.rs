//! Structural checks on a document: empty object keys and excessive nesting.
use vstd::prelude::*;
use crate::text::{append, decimal, lit, push_decimal};
use crate::tree::{
    clone_path, find_key, path_eq, get_node_at_path, get_spec, is_prefix, keys_distinct, lemma_find_key,
    lemma_find_key_congruent, lemma_other_branch, lemma_prefix_push, lemma_prefix_trans, same_except,
    starts_with, wf_along, JKey, JNode, JPath, KeyV,
};

verus! {

/// Deepest nesting level that is not reported.
pub const MAX_DEPTH: usize = 20;

/// A structural problem found at `path`.
#[derive(Debug, Clone, PartialEq)]
pub struct LintWarning {
    pub path: JPath,
    pub message: String,
}

/// Abstract warning.
pub struct WarnV {
    pub path: Seq<KeyV>,
    pub message: Seq<char>,
}

impl DeepView for LintWarning {
    type V = WarnV;

    open spec fn deep_view(&self) -> WarnV {
        WarnV { path: self.path.deep_view(), message: self.message@ }
    }
}

pub open spec fn depth_message(depth: nat) -> Seq<char> {
    "excessive nesting depth ("@ + decimal(depth) + ")"@
}

/// Warning for an empty key at `path`, if the key is empty.
pub open spec fn key_warning(k: Seq<char>, path: Seq<KeyV>) -> Seq<WarnV> {
    if k.len() == 0 {
        seq![WarnV { path, message: "empty key"@ }]
    } else {
        Seq::empty()
    }
}

/// Warnings for `n` at `path`, `depth` levels below the root, in pre-order. A node deeper
/// than `MAX_DEPTH` gets one warning and is not looked into.
pub open spec fn lint_spec(n: JNode, path: Seq<KeyV>, depth: nat) -> Seq<WarnV>
    decreases n, 0int,
{
    if depth > MAX_DEPTH {
        seq![WarnV { path, message: depth_message(depth) }]
    } else {
        match n {
            JNode::Scalar(_) => Seq::empty(),
            JNode::Object { entries, .. } => obj_lint(entries@, 0, entries@.len() as int, path, depth),
            JNode::Array { items, .. } => arr_lint(items@, 0, items@.len() as int, path, depth),
        }
    }
}

pub open spec fn obj_lint(es: Seq<(String, JNode)>, lo: int, hi: int, base: Seq<KeyV>, depth: nat) -> Seq<WarnV>
    decreases es, hi - lo,
{
    if lo < 0 || hi <= lo || hi > es.len() {
        Seq::empty()
    } else {
        let cp = base.push(KeyV::Field(es[hi - 1].0@));
        obj_lint(es, lo, hi - 1, base, depth) + key_warning(es[hi - 1].0@, cp) + lint_spec(es[hi - 1].1, cp, depth + 1)
    }
}

pub open spec fn arr_lint(items: Seq<JNode>, lo: int, hi: int, base: Seq<KeyV>, depth: nat) -> Seq<WarnV>
    decreases items, hi - lo,
{
    if lo < 0 || hi <= lo || hi > items.len() {
        Seq::empty()
    } else {
        arr_lint(items, lo, hi - 1, base, depth) + lint_spec(items[hi - 1], base.push(KeyV::Index((hi - 1) as usize)), depth + 1)
    }
}

/// Every warning of a document.
pub open spec fn lint_full(root: JNode) -> Seq<WarnV> {
    lint_spec(root, Seq::empty(), 0)
}

fn lint_node(node: &JNode, path: &[JKey], depth: usize, out: &mut Vec<LintWarning>)
    ensures
        final(out).deep_view() == old(out).deep_view() + lint_spec(*node, path.deep_view(), depth as nat),
    decreases node,
{
    let ghost pv = path.deep_view();
    if depth > MAX_DEPTH {
        let mut message = lit("excessive nesting depth (");
        push_decimal(&mut message, depth);
        append(&mut message, ")");
        out.push(LintWarning { path: clone_path(path), message });
        assert(out.deep_view() =~= old(out).deep_view() + lint_spec(*node, pv, depth as nat));
        return;
    }
    match node {
        JNode::Scalar(_) => {
            assert(out.deep_view() =~= old(out).deep_view() + lint_spec(*node, pv, depth as nat));
        },
        JNode::Object { entries, collapsed } => {
            let mut i: usize = 0;
            while i < entries.len()
                invariant
                    *node == (JNode::Object { entries: *entries, collapsed: *collapsed }),
                    i <= entries@.len(),
                    depth <= MAX_DEPTH,
                    pv == path.deep_view(),
                    out.deep_view() == old(out).deep_view() + obj_lint(entries@, 0, i as int, pv, depth as nat),
                decreases entries@.len() - i,
            {
                let mut cp = clone_path(path);
                cp.push(JKey::Field(entries[i].0.clone()));
                let ghost cpv = pv.push(KeyV::Field(entries@[i as int].0@));
                assert(cp.deep_view() =~= cpv);
                let ghost before = out.deep_view();
                if entries[i].0.as_str().is_empty() {
                    out.push(LintWarning { path: clone_path(&cp), message: lit("empty key") });
                }
                assert(out.deep_view() =~= before + key_warning(entries@[i as int].0@, cpv));
                proof {
                    assert(decreases_to!(*node => node->entries));
                    assert(decreases_to!(*entries => entries@));
                    assert(decreases_to!(entries@ => entries@[i as int]));
                    assert(decreases_to!(entries@[i as int] => entries@[i as int].1));
                }
                lint_node(&entries[i].1, &cp, depth + 1, out);
                assert(out.deep_view() =~= old(out).deep_view() + obj_lint(entries@, 0, i + 1, pv, depth as nat));
                i = i + 1;
            }
            assert(out.deep_view() =~= old(out).deep_view() + lint_spec(*node, pv, depth as nat));
        },
        JNode::Array { items, collapsed } => {
            let mut i: usize = 0;
            while i < items.len()
                invariant
                    *node == (JNode::Array { items: *items, collapsed: *collapsed }),
                    i <= items@.len(),
                    depth <= MAX_DEPTH,
                    pv == path.deep_view(),
                    out.deep_view() == old(out).deep_view() + arr_lint(items@, 0, i as int, pv, depth as nat),
                decreases items@.len() - i,
            {
                let mut cp = clone_path(path);
                cp.push(JKey::Index(i));
                assert(cp.deep_view() =~= pv.push(KeyV::Index(i)));
                proof {
                    assert(decreases_to!(*node => node->items));
                    assert(decreases_to!(*items => items@));
                    assert(decreases_to!(items@ => items@[i as int]));
                }
                lint_node(&items[i], &cp, depth + 1, out);
                assert(out.deep_view() =~= old(out).deep_view() + arr_lint(items@, 0, i + 1, pv, depth as nat));
                i = i + 1;
            }
            assert(out.deep_view() =~= old(out).deep_view() + lint_spec(*node, pv, depth as nat));
        },
    }
}

/// Every warning of the document, in pre-order.
pub fn lint(root: &JNode) -> (ws: Vec<LintWarning>)
    ensures
        ws.deep_view() == lint_full(*root),
{
    let mut ws: Vec<LintWarning> = Vec::new();
    let empty: Vec<JKey> = Vec::new();
    assert(empty.deep_view() =~= Seq::<KeyV>::empty());
    lint_node(root, &empty, 0, &mut ws);
    assert(ws.deep_view() =~= lint_full(*root));
    ws
}

// ---------------------------------------------------------------------------
// Re-linting one subtree
// ---------------------------------------------------------------------------

/// Index of the first warning (from `i` on) at or below `t`.
pub open spec fn first_under_from(ws: Seq<WarnV>, t: Seq<KeyV>, i: int) -> Option<int>
    decreases ws.len() - i,
{
    if i < 0 || i >= ws.len() {
        None
    } else if is_prefix(t, ws[i].path) {
        Some(i)
    } else {
        first_under_from(ws, t, i + 1)
    }
}

/// From `e` on, the first warning not at or below `t` (or the length).
pub open spec fn warn_scan_end(ws: Seq<WarnV>, t: Seq<KeyV>, e: int) -> int
    decreases ws.len() - e,
{
    if e < 0 || e >= ws.len() {
        ws.len() as int
    } else if is_prefix(t, ws[e].path) {
        warn_scan_end(ws, t, e + 1)
    } else {
        e
    }
}

/// The warning for the empty key the path `t` ends in (none for another last step).
pub open spec fn end_key_warning(t: Seq<KeyV>) -> Seq<WarnV> {
    if t.len() > 0 && t.last() == KeyV::Field(Seq::empty()) {
        seq![WarnV { path: t, message: "empty key"@ }]
    } else {
        Seq::empty()
    }
}

/// Fresh warnings for the subtree now at `t`, none when there is none: the warning for the
/// empty key `t` ends in (where its container is within the depth limit), then those of the
/// subtree.
pub open spec fn fresh_warnings(root: JNode, t: Seq<KeyV>) -> Seq<WarnV> {
    match get_spec(root, t) {
        Some(n) => (if t.len() <= MAX_DEPTH + 1 { end_key_warning(t) } else { Seq::empty() }) + lint_spec(n, t, t.len()),
        None => Seq::empty(),
    }
}

/// What re-linting `t` does to `ws`: the first run of warnings at or below `t` is replaced by
/// the fresh ones (`true`); with no such run, nothing changes, and the answer is `true`
/// exactly when there are no fresh warnings either.
pub open spec fn lint_patch(ws: Seq<WarnV>, root: JNode, t: Seq<KeyV>) -> (bool, Seq<WarnV>) {
    let nw = fresh_warnings(root, t);
    match first_under_from(ws, t, 0) {
        Some(s) => {
            let e = warn_scan_end(ws, t, s + 1);
            (true, ws.subrange(0, s) + nw + ws.subrange(e, ws.len() as int))
        },
        None => (nw.len() == 0, ws),
    }
}

/// Re-lints only the subtree at `target`, replacing the run of warnings at or below it.
/// Returns `false`, leaving `warnings` unchanged, when that subtree had no warnings before
/// and has some now: the caller then has to run a full `lint`.
pub fn patch_lint(warnings: &mut Vec<LintWarning>, root: &JNode, target: &JPath) -> (ok: bool)
    ensures
        ok == lint_patch(old(warnings).deep_view(), *root, target.deep_view()).0,
        final(warnings).deep_view() == lint_patch(old(warnings).deep_view(), *root, target.deep_view()).1,
{
    let ghost ws = warnings.deep_view();
    let ghost t = target.deep_view();
    let mut start: usize = 0;
    while start < warnings.len() && !starts_with(&warnings[start].path, target)
        invariant
            start <= warnings@.len(),
            ws == warnings.deep_view(),
            t == target.deep_view(),
            first_under_from(ws, t, 0) == first_under_from(ws, t, start as int),
        decreases warnings@.len() - start,
    {
        start = start + 1;
    }
    let mut new_warnings: Vec<LintWarning> = Vec::new();
    if let Some(node) = get_node_at_path(root, target) {
        let n = target.len();
        if n > 0 && n <= MAX_DEPTH + 1 {
            match &target[n - 1] {
                JKey::Field(k) => {
                    if k.as_str().is_empty() {
                        new_warnings.push(LintWarning { path: clone_path(target), message: lit("empty key") });
                        assert(k@ =~= Seq::<char>::empty());
                    }
                },
                JKey::Index(_) => {},
            }
        }
        let ghost kw = new_warnings.deep_view();
        assert(kw =~= if n <= MAX_DEPTH + 1 { end_key_warning(t) } else { Seq::empty() });
        lint_node(node, target, target.len(), &mut new_warnings);
    }
    assert(new_warnings.deep_view() =~= fresh_warnings(*root, t));
    if start == warnings.len() {
        return new_warnings.len() == 0;
    }
    assert(first_under_from(ws, t, 0) == Some(start as int));
    let mut end: usize = start + 1;
    while end < warnings.len() && starts_with(&warnings[end].path, target)
        invariant
            start < end <= warnings@.len(),
            ws == warnings.deep_view(),
            t == target.deep_view(),
            warn_scan_end(ws, t, start + 1) == warn_scan_end(ws, t, end as int),
        decreases warnings@.len() - end,
    {
        end = end + 1;
    }
    let mut tail = warnings.split_off(end);
    warnings.truncate(start);
    warnings.append(&mut new_warnings);
    warnings.append(&mut tail);
    assert(warnings.deep_view() =~= ws.subrange(0, start as int) + fresh_warnings(*root, t) + ws.subrange(end as int, ws.len() as int));
    true
}


// ---------------------------------------------------------------------------
// Why re-linting one subtree agrees with a full lint
// ---------------------------------------------------------------------------

/// No warning of `ws` lies at or below `t`.
pub open spec fn avoid_w(ws: Seq<WarnV>, t: Seq<KeyV>) -> bool {
    forall|i: int| 0 <= i < ws.len() ==> !is_prefix(t, #[trigger] ws[i].path)
}

/// Warnings of `a` listed before those of the subtree at `p` (and before the warning for
/// the empty key `p` may end in).
pub open spec fn pre_w(a: JNode, base: Seq<KeyV>, d: nat, p: Seq<KeyV>) -> Seq<WarnV>
    decreases p.len(),
{
    if p.len() == 0 {
        Seq::empty()
    } else {
        match a {
            JNode::Object { entries, .. } => match p[0] {
                KeyV::Field(s) => match find_key(entries@, s) {
                    Some(j) => {
                        let cp = base.push(KeyV::Field(entries@[j].0@));
                        let kw = if p.len() == 1 { Seq::empty() } else { key_warning(entries@[j].0@, cp) };
                        obj_lint(entries@, 0, j, base, d) + kw + pre_w(entries@[j].1, cp, d + 1, p.drop_first())
                    },
                    None => Seq::empty(),
                },
                KeyV::Index(_) => Seq::empty(),
            },
            JNode::Array { items, .. } => match p[0] {
                KeyV::Index(i) => if i < items@.len() {
                    arr_lint(items@, 0, i as int, base, d) + pre_w(items@[i as int], base.push(KeyV::Index(i)), d + 1, p.drop_first())
                } else {
                    Seq::empty()
                },
                KeyV::Field(_) => Seq::empty(),
            },
            JNode::Scalar(_) => Seq::empty(),
        }
    }
}

/// Warnings of `a` listed after those of the subtree at `p`.
pub open spec fn post_w(a: JNode, base: Seq<KeyV>, d: nat, p: Seq<KeyV>) -> Seq<WarnV>
    decreases p.len(),
{
    if p.len() == 0 {
        Seq::empty()
    } else {
        match a {
            JNode::Object { entries, .. } => match p[0] {
                KeyV::Field(s) => match find_key(entries@, s) {
                    Some(j) => post_w(entries@[j].1, base.push(KeyV::Field(entries@[j].0@)), d + 1, p.drop_first())
                        + obj_lint(entries@, j + 1, entries@.len() as int, base, d),
                    None => Seq::empty(),
                },
                KeyV::Index(_) => Seq::empty(),
            },
            JNode::Array { items, .. } => match p[0] {
                KeyV::Index(i) => if i < items@.len() {
                    post_w(items@[i as int], base.push(KeyV::Index(i)), d + 1, p.drop_first())
                        + arr_lint(items@, i + 1, items@.len() as int, base, d)
                } else {
                    Seq::empty()
                },
                KeyV::Field(_) => Seq::empty(),
            },
            JNode::Scalar(_) => Seq::empty(),
        }
    }
}

pub proof fn lemma_obj_lint_split(es: Seq<(String, JNode)>, lo: int, mid: int, hi: int, base: Seq<KeyV>, d: nat)
    requires
        0 <= lo <= mid <= hi <= es.len(),
    ensures
        obj_lint(es, lo, hi, base, d) == obj_lint(es, lo, mid, base, d) + obj_lint(es, mid, hi, base, d),
    decreases hi - mid,
{
    if hi == mid {
        assert(obj_lint(es, lo, hi, base, d) =~= obj_lint(es, lo, mid, base, d) + obj_lint(es, mid, hi, base, d));
    } else {
        lemma_obj_lint_split(es, lo, mid, hi - 1, base, d);
        assert(obj_lint(es, lo, hi, base, d) =~= obj_lint(es, lo, mid, base, d) + obj_lint(es, mid, hi, base, d));
    }
}

pub proof fn lemma_arr_lint_split(items: Seq<JNode>, lo: int, mid: int, hi: int, base: Seq<KeyV>, d: nat)
    requires
        0 <= lo <= mid <= hi <= items.len(),
    ensures
        arr_lint(items, lo, hi, base, d) == arr_lint(items, lo, mid, base, d) + arr_lint(items, mid, hi, base, d),
    decreases hi - mid,
{
    if hi == mid {
        assert(arr_lint(items, lo, hi, base, d) =~= arr_lint(items, lo, mid, base, d) + arr_lint(items, mid, hi, base, d));
    } else {
        lemma_arr_lint_split(items, lo, mid, hi - 1, base, d);
        assert(arr_lint(items, lo, hi, base, d) =~= arr_lint(items, lo, mid, base, d) + arr_lint(items, mid, hi, base, d));
    }
}

pub proof fn lemma_obj_lint_congruent(e1: Seq<(String, JNode)>, e2: Seq<(String, JNode)>, lo: int, hi: int, base: Seq<KeyV>, d: nat)
    requires
        0 <= lo,
        hi <= e1.len(),
        e1.len() == e2.len(),
        forall|m: int| lo <= m < hi ==> e1[m] == e2[m],
    ensures
        obj_lint(e1, lo, hi, base, d) == obj_lint(e2, lo, hi, base, d),
    decreases hi - lo,
{
    if lo < hi {
        lemma_obj_lint_congruent(e1, e2, lo, hi - 1, base, d);
    }
}

pub proof fn lemma_arr_lint_congruent(i1: Seq<JNode>, i2: Seq<JNode>, lo: int, hi: int, base: Seq<KeyV>, d: nat)
    requires
        0 <= lo,
        hi <= i1.len(),
        i1.len() == i2.len(),
        forall|m: int| lo <= m < hi ==> i1[m] == i2[m],
    ensures
        arr_lint(i1, lo, hi, base, d) == arr_lint(i2, lo, hi, base, d),
    decreases hi - lo,
{
    if lo < hi {
        lemma_arr_lint_congruent(i1, i2, lo, hi - 1, base, d);
    }
}

/// Every warning for `n` at `base` lies at or below `base`, and, from a depth that equals
/// the path length and is at most one past the limit, no deeper than one past the limit.
pub proof fn lemma_lint_paths(n: JNode, base: Seq<KeyV>, d: nat)
    ensures
        forall|i: int| 0 <= i < lint_spec(n, base, d).len() ==> is_prefix(base, #[trigger] lint_spec(n, base, d)[i].path),
        base.len() == d && d <= MAX_DEPTH + 1 ==> forall|i: int| 0 <= i < lint_spec(n, base, d).len()
            ==> #[trigger] lint_spec(n, base, d)[i].path.len() <= MAX_DEPTH + 1,
    decreases n, 0int,
{
    assert(base.subrange(0, base.len() as int) =~= base);
    if d <= MAX_DEPTH {
        match n {
            JNode::Object { entries, .. } => {
                lemma_obj_lint_paths(entries@, 0, entries@.len() as int, base, d);
                assert(lint_spec(n, base, d) == obj_lint(entries@, 0, entries@.len() as int, base, d));
            },
            JNode::Array { items, .. } => {
                lemma_arr_lint_paths(items@, 0, items@.len() as int, base, d);
                assert(lint_spec(n, base, d) == arr_lint(items@, 0, items@.len() as int, base, d));
            },
            JNode::Scalar(_) => {
                assert(lint_spec(n, base, d) =~= Seq::<WarnV>::empty());
            },
        }
    } else {
        assert(lint_spec(n, base, d).len() == 1);
        assert(lint_spec(n, base, d)[0].path == base);
    }
}

pub proof fn lemma_obj_lint_paths(es: Seq<(String, JNode)>, lo: int, hi: int, base: Seq<KeyV>, d: nat)
    ensures
        forall|i: int| 0 <= i < obj_lint(es, lo, hi, base, d).len() ==> is_prefix(base, #[trigger] obj_lint(es, lo, hi, base, d)[i].path),
        base.len() == d && d <= MAX_DEPTH ==> forall|i: int| 0 <= i < obj_lint(es, lo, hi, base, d).len()
            ==> #[trigger] obj_lint(es, lo, hi, base, d)[i].path.len() <= MAX_DEPTH + 1,
    decreases es, hi - lo,
{
    if !(lo < 0 || hi <= lo || hi > es.len()) {
        let cp = base.push(KeyV::Field(es[hi - 1].0@));
        let left = obj_lint(es, lo, hi - 1, base, d);
        let kw = key_warning(es[hi - 1].0@, cp);
        let right = lint_spec(es[hi - 1].1, cp, d + 1);
        lemma_obj_lint_paths(es, lo, hi - 1, base, d);
        lemma_lint_paths(es[hi - 1].1, cp, d + 1);
        lemma_prefix_push(base, KeyV::Field(es[hi - 1].0@));
        let all = obj_lint(es, lo, hi, base, d);
        assert(all == left + kw + right);
        assert forall|i: int| 0 <= i < all.len() implies is_prefix(base, #[trigger] all[i].path)
            && (base.len() == d && d <= MAX_DEPTH ==> all[i].path.len() <= MAX_DEPTH + 1) by {
            if i < left.len() {
                assert(all[i] == left[i]);
            } else if i < left.len() + kw.len() {
                assert(all[i] == kw[i - left.len()]);
                assert(all[i].path == cp);
            } else {
                assert(all[i] == right[i - left.len() - kw.len()]);
                lemma_prefix_trans(base, cp, all[i].path);
            }
        }
    }
}

pub proof fn lemma_arr_lint_paths(items: Seq<JNode>, lo: int, hi: int, base: Seq<KeyV>, d: nat)
    ensures
        forall|i: int| 0 <= i < arr_lint(items, lo, hi, base, d).len() ==> is_prefix(base, #[trigger] arr_lint(items, lo, hi, base, d)[i].path),
        base.len() == d && d <= MAX_DEPTH ==> forall|i: int| 0 <= i < arr_lint(items, lo, hi, base, d).len()
            ==> #[trigger] arr_lint(items, lo, hi, base, d)[i].path.len() <= MAX_DEPTH + 1,
    decreases items, hi - lo,
{
    if !(lo < 0 || hi <= lo || hi > items.len()) {
        let cp = base.push(KeyV::Index((hi - 1) as usize));
        let left = arr_lint(items, lo, hi - 1, base, d);
        let right = lint_spec(items[hi - 1], cp, d + 1);
        lemma_arr_lint_paths(items, lo, hi - 1, base, d);
        lemma_lint_paths(items[hi - 1], cp, d + 1);
        lemma_prefix_push(base, KeyV::Index((hi - 1) as usize));
        let all = arr_lint(items, lo, hi, base, d);
        assert(all == left + right);
        assert forall|i: int| 0 <= i < all.len() implies is_prefix(base, #[trigger] all[i].path)
            && (base.len() == d && d <= MAX_DEPTH ==> all[i].path.len() <= MAX_DEPTH + 1) by {
            if i < left.len() {
                assert(all[i] == left[i]);
            } else {
                assert(all[i] == right[i - left.len()]);
                lemma_prefix_trans(base, cp, all[i].path);
            }
        }
    }
}

pub proof fn lemma_avoid_w_concat(a: Seq<WarnV>, b: Seq<WarnV>, t: Seq<KeyV>)
    requires
        avoid_w(a, t),
        avoid_w(b, t),
    ensures
        avoid_w(a + b, t),
{
    assert forall|i: int| 0 <= i < (a + b).len() implies !is_prefix(t, #[trigger] (a + b)[i].path) by {
        if i < a.len() {
            assert((a + b)[i] == a[i]);
        } else {
            assert((a + b)[i] == b[i - a.len()]);
        }
    }
}

pub proof fn lemma_obj_lint_avoid(es: Seq<(String, JNode)>, lo: int, hi: int, base: Seq<KeyV>, d: nat, t: Seq<KeyV>)
    requires
        0 <= lo,
        hi <= es.len(),
        base.len() < t.len(),
        forall|m: int| lo <= m < hi ==> KeyV::Field(es[m].0@) != t[base.len() as int],
    ensures
        avoid_w(obj_lint(es, lo, hi, base, d), t),
    decreases hi - lo,
{
    if lo < hi {
        let x = KeyV::Field(es[hi - 1].0@);
        let cp = base.push(x);
        let kw = key_warning(es[hi - 1].0@, cp);
        let right = lint_spec(es[hi - 1].1, cp, d + 1);
        lemma_obj_lint_avoid(es, lo, hi - 1, base, d, t);
        lemma_lint_paths(es[hi - 1].1, cp, d + 1);
        lemma_prefix_push(base, x);
        assert(cp.subrange(0, cp.len() as int) =~= cp);
        assert forall|i: int| 0 <= i < kw.len() implies !is_prefix(t, #[trigger] kw[i].path) by {
            lemma_other_branch(base, x, kw[i].path, t);
        }
        assert forall|i: int| 0 <= i < right.len() implies !is_prefix(t, #[trigger] right[i].path) by {
            lemma_other_branch(base, x, right[i].path, t);
        }
        lemma_avoid_w_concat(obj_lint(es, lo, hi - 1, base, d), kw, t);
        lemma_avoid_w_concat(obj_lint(es, lo, hi - 1, base, d) + kw, right, t);
    } else {
        assert(obj_lint(es, lo, hi, base, d) =~= Seq::<WarnV>::empty());
    }
}

pub proof fn lemma_arr_lint_avoid(items: Seq<JNode>, lo: int, hi: int, base: Seq<KeyV>, d: nat, t: Seq<KeyV>)
    requires
        0 <= lo,
        hi <= items.len(),
        hi <= usize::MAX + 1,
        base.len() < t.len(),
        t[base.len() as int] matches KeyV::Index(y) ==> !(lo <= y < hi),
    ensures
        avoid_w(arr_lint(items, lo, hi, base, d), t),
    decreases hi - lo,
{
    if lo < hi {
        let x = KeyV::Index((hi - 1) as usize);
        let right = lint_spec(items[hi - 1], base.push(x), d + 1);
        lemma_arr_lint_avoid(items, lo, hi - 1, base, d, t);
        lemma_lint_paths(items[hi - 1], base.push(x), d + 1);
        assert forall|i: int| 0 <= i < right.len() implies !is_prefix(t, #[trigger] right[i].path) by {
            lemma_other_branch(base, x, right[i].path, t);
        }
        lemma_avoid_w_concat(arr_lint(items, lo, hi - 1, base, d), right, t);
    } else {
        assert(arr_lint(items, lo, hi, base, d) =~= Seq::<WarnV>::empty());
    }
}

/// The warning for the empty key a non-empty `p` ends in, below `base`.
pub open spec fn end_warn(base: Seq<KeyV>, p: Seq<KeyV>) -> Seq<WarnV> {
    if p.len() > 0 { end_key_warning(base + p) } else { Seq::empty() }
}

/// The warnings of `a` split into those before the subtree at `p`, the one for the empty key
/// `p` may end in, that subtree's own, and those after, as long as no container strictly
/// above `p` is past the depth limit.
pub proof fn lemma_lint_decompose(a: JNode, base: Seq<KeyV>, d: nat, p: Seq<KeyV>)
    requires
        get_spec(a, p) is Some,
        d + p.len() <= MAX_DEPTH + 1,
    ensures
        lint_spec(a, base, d) == pre_w(a, base, d, p) + end_warn(base, p) + lint_spec(get_spec(a, p).unwrap(), base + p, d
            + p.len()) + post_w(a, base, d, p),
    decreases p.len(),
{
    if p.len() == 0 {
        assert(base + p =~= base);
        assert(lint_spec(a, base, d) =~= pre_w(a, base, d, p) + end_warn(base, p) + lint_spec(a, base, d) + post_w(a, base, d, p));
    } else {
        let rest = p.drop_first();
        match a {
            JNode::Object { entries, .. } => {
                let es = entries@;
                let s = p[0]->Field_0;
                lemma_find_key(es, s);
                let j = find_key(es, s).unwrap();
                lemma_lint_decompose(es[j].1, base.push(KeyV::Field(es[j].0@)), d + 1, rest);
                lemma_lint_decompose_obj(a, base, d, p);
            },
            JNode::Array { items, .. } => {
                let i = p[0]->Index_0;
                lemma_lint_decompose(items@[i as int], base.push(KeyV::Index(i)), d + 1, rest);
                lemma_lint_decompose_arr(a, base, d, p);
            },
            JNode::Scalar(_) => {},
        }
    }
}

#[verifier::spinoff_prover]
proof fn lemma_lint_decompose_obj(a: JNode, base: Seq<KeyV>, d: nat, p: Seq<KeyV>)
    requires
        p.len() > 0,
        get_spec(a, p) is Some,
        d + p.len() <= MAX_DEPTH + 1,
        a is Object,
        ({
            let es = a->entries@;
            let j = find_key(es, p[0]->Field_0).unwrap();
            let cp = base.push(KeyV::Field(es[j].0@));
            lint_spec(es[j].1, cp, d + 1) == pre_w(es[j].1, cp, d + 1, p.drop_first()) + end_warn(cp, p.drop_first())
                + lint_spec(get_spec(es[j].1, p.drop_first()).unwrap(), cp + p.drop_first(), d + 1 + p.drop_first().len())
                + post_w(es[j].1, cp, d + 1, p.drop_first())
        }),
    ensures
        lint_spec(a, base, d) == pre_w(a, base, d, p) + end_warn(base, p) + lint_spec(get_spec(a, p).unwrap(), base + p, d
            + p.len()) + post_w(a, base, d, p),
{
    let rest = p.drop_first();
    let es = a->entries@;
    let s = p[0]->Field_0;
    lemma_find_key(es, s);
    let j = find_key(es, s).unwrap();
    let kj = es[j].0@;
    let cp = base.push(KeyV::Field(kj));
    let child = es[j].1;
    lemma_obj_lint_split(es, 0, j, es.len() as int, base, d);
    lemma_obj_lint_split(es, j, j + 1, es.len() as int, base, d);
    assert(obj_lint(es, j, j, base, d) =~= Seq::<WarnV>::empty());
    assert(obj_lint(es, j, j + 1, base, d) =~= key_warning(kj, cp) + lint_spec(child, cp, d + 1));
    assert(cp + rest =~= base + p);
    assert(get_spec(a, p) == get_spec(child, rest));
    assert(lint_spec(a, base, d) == obj_lint(es, 0, es.len() as int, base, d));
    assert(post_w(a, base, d, p) == post_w(child, cp, d + 1, rest) + obj_lint(es, j + 1, es.len() as int, base, d));
    let r = lint_spec(get_spec(child, rest).unwrap(), cp + rest, d + 1 + rest.len());
    if rest.len() == 0 {
        assert(pre_w(a, base, d, p) == obj_lint(es, 0, j, base, d) + Seq::<WarnV>::empty() + pre_w(child, cp, d + 1, rest));
        assert((base + p).last() == KeyV::Field(kj));
        if kj.len() == 0 {
            assert(kj =~= Seq::<char>::empty());
        }
        assert(end_warn(base, p) =~= key_warning(kj, cp));
        assert(pre_w(child, cp, d + 1, rest) =~= Seq::<WarnV>::empty());
        assert(end_warn(cp, rest) =~= Seq::<WarnV>::empty());
        assert(post_w(child, cp, d + 1, rest) =~= Seq::<WarnV>::empty());
        assert(lint_spec(a, base, d) =~= pre_w(a, base, d, p) + end_warn(base, p) + r + post_w(a, base, d, p));
    } else {
        assert(pre_w(a, base, d, p) == obj_lint(es, 0, j, base, d) + key_warning(kj, cp) + pre_w(child, cp, d + 1, rest));
        assert(end_warn(base, p) == end_warn(cp, rest));
        assert(lint_spec(a, base, d) =~= pre_w(a, base, d, p) + end_warn(base, p) + r + post_w(a, base, d, p));
    }
}

#[verifier::spinoff_prover]
proof fn lemma_lint_decompose_arr(a: JNode, base: Seq<KeyV>, d: nat, p: Seq<KeyV>)
    requires
        p.len() > 0,
        get_spec(a, p) is Some,
        d + p.len() <= MAX_DEPTH + 1,
        a is Array,
        ({
            let its = a->items@;
            let i = p[0]->Index_0;
            let cp = base.push(KeyV::Index(i));
            lint_spec(its[i as int], cp, d + 1) == pre_w(its[i as int], cp, d + 1, p.drop_first()) + end_warn(cp, p.drop_first())
                + lint_spec(get_spec(its[i as int], p.drop_first()).unwrap(), cp + p.drop_first(), d + 1 + p.drop_first().len())
                + post_w(its[i as int], cp, d + 1, p.drop_first())
        }),
    ensures
        lint_spec(a, base, d) == pre_w(a, base, d, p) + end_warn(base, p) + lint_spec(get_spec(a, p).unwrap(), base + p, d
            + p.len()) + post_w(a, base, d, p),
{
    let rest = p.drop_first();
    let its = a->items@;
    let i = p[0]->Index_0;
    let cp = base.push(KeyV::Index(i));
    let child = its[i as int];
    lemma_arr_lint_split(its, 0, i as int, its.len() as int, base, d);
    lemma_arr_lint_split(its, i as int, i + 1, its.len() as int, base, d);
    assert(arr_lint(its, i as int, i as int, base, d) =~= Seq::<WarnV>::empty());
    assert(arr_lint(its, i as int, i + 1, base, d) =~= lint_spec(child, cp, d + 1));
    assert(cp + rest =~= base + p);
    assert(get_spec(a, p) == get_spec(child, rest));
    assert(lint_spec(a, base, d) == arr_lint(its, 0, its.len() as int, base, d));
    assert(pre_w(a, base, d, p) == arr_lint(its, 0, i as int, base, d) + pre_w(child, cp, d + 1, rest));
    assert(post_w(a, base, d, p) == post_w(child, cp, d + 1, rest) + arr_lint(its, i + 1, its.len() as int, base, d));
    let r = lint_spec(get_spec(child, rest).unwrap(), cp + rest, d + 1 + rest.len());
    if rest.len() == 0 {
        assert((base + p).last() == KeyV::Index(i));
        assert(end_warn(base, p) =~= Seq::<WarnV>::empty());
        assert(end_warn(cp, rest) =~= Seq::<WarnV>::empty());
    } else {
        assert(end_warn(base, p) == end_warn(cp, rest));
    }
    assert(lint_spec(a, base, d) =~= pre_w(a, base, d, p) + end_warn(base, p) + r + post_w(a, base, d, p));
}

/// Two documents that agree off the path to `p` have the same warnings around the subtree.
pub proof fn lemma_lint_same_except_parts(a: JNode, b: JNode, base: Seq<KeyV>, d: nat, p: Seq<KeyV>)
    requires
        same_except(a, b, p),
        get_spec(a, p) is Some,
    ensures
        get_spec(b, p) is Some,
        pre_w(a, base, d, p) == pre_w(b, base, d, p),
        post_w(a, base, d, p) == post_w(b, base, d, p),
    decreases p.len(),
{
    if p.len() > 0 {
        let rest = p.drop_first();
        match a {
            JNode::Object { entries: ea, .. } => {
                let eb = b->entries;
                let s = p[0]->Field_0;
                lemma_find_key(ea@, s);
                let j = find_key(ea@, s).unwrap();
                assert forall|m: int| 0 <= m < ea@.len() implies ea@[m].0@ == eb@[m].0@ by {
                    if m != j {
                        assert(ea@[m] == eb@[m]);
                    }
                }
                lemma_find_key_congruent(ea@, eb@, s, 0);
                let cp = base.push(KeyV::Field(ea@[j].0@));
                lemma_lint_same_except_parts(ea@[j].1, eb@[j].1, cp, d + 1, rest);
                lemma_obj_lint_congruent(ea@, eb@, 0, j, base, d);
                lemma_obj_lint_congruent(ea@, eb@, j + 1, ea@.len() as int, base, d);
            },
            JNode::Array { items: ia, .. } => {
                let ib = b->items;
                let i = p[0]->Index_0;
                let cp = base.push(KeyV::Index(i));
                lemma_lint_same_except_parts(ia@[i as int], ib@[i as int], cp, d + 1, rest);
                lemma_arr_lint_congruent(ia@, ib@, 0, i as int, base, d);
                lemma_arr_lint_congruent(ia@, ib@, i + 1, ia@.len() as int, base, d);
            },
            JNode::Scalar(_) => {},
        }
    }
}

/// No warning around the subtree at `p` lies at or below `base + p`.
pub proof fn lemma_lint_parts_avoid(a: JNode, base: Seq<KeyV>, d: nat, p: Seq<KeyV>)
    requires
        get_spec(a, p) is Some,
        wf_along(a, p),
    ensures
        avoid_w(pre_w(a, base, d, p), base + p),
        avoid_w(post_w(a, base, d, p), base + p),
    decreases p.len(),
{
    let t = base + p;
    if p.len() == 0 {
        assert(pre_w(a, base, d, p) =~= Seq::<WarnV>::empty());
        assert(post_w(a, base, d, p) =~= Seq::<WarnV>::empty());
    } else {
        let rest = p.drop_first();
        assert(t[base.len() as int] == p[0]);
        if rest.len() > 0 {
            assert(rest.last() == p.last());
        }
        match a {
            JNode::Object { entries, .. } => {
                let es = entries@;
                let s = p[0]->Field_0;
                lemma_find_key(es, s);
                let j = find_key(es, s).unwrap();
                let kj = es[j].0@;
                let cp = base.push(KeyV::Field(kj));
                assert(cp + rest =~= t);
                lemma_lint_parts_avoid(es[j].1, cp, d + 1, rest);
                lemma_obj_lint_avoid(es, 0, j, base, d, t);
                lemma_obj_lint_avoid(es, j + 1, es.len() as int, base, d, t);
                let kw = if p.len() == 1 { Seq::<WarnV>::empty() } else { key_warning(kj, cp) };
                assert forall|i: int| 0 <= i < kw.len() implies !is_prefix(t, #[trigger] kw[i].path) by {
                    assert(kw[i].path == cp);
                }
                lemma_avoid_w_concat(obj_lint(es, 0, j, base, d), kw, t);
                lemma_avoid_w_concat(obj_lint(es, 0, j, base, d) + kw, pre_w(es[j].1, cp, d + 1, rest), t);
                lemma_avoid_w_concat(post_w(es[j].1, cp, d + 1, rest), obj_lint(es, j + 1, es.len() as int, base, d), t);
            },
            JNode::Array { items, .. } => {
                let its = items@;
                let i = p[0]->Index_0;
                let cp = base.push(KeyV::Index(i));
                assert(cp + rest =~= t);
                lemma_lint_parts_avoid(its[i as int], cp, d + 1, rest);
                lemma_arr_lint_avoid(its, 0, i as int, base, d, t);
                lemma_arr_lint_avoid(its, i + 1, its.len() as int, base, d, t);
                lemma_avoid_w_concat(arr_lint(its, 0, i as int, base, d), pre_w(its[i as int], cp, d + 1, rest), t);
                lemma_avoid_w_concat(post_w(its[i as int], cp, d + 1, rest), arr_lint(its, i + 1, its.len() as int, base, d), t);
            },
            JNode::Scalar(_) => {},
        }
    }
}

pub proof fn lemma_first_under(ws: Seq<WarnV>, t: Seq<KeyV>, i: int, s: int)
    requires
        0 <= i <= s <= ws.len(),
        s < ws.len() ==> is_prefix(t, ws[s].path),
        forall|m: int| i <= m < s ==> !is_prefix(t, #[trigger] ws[m].path),
    ensures
        first_under_from(ws, t, i) == if s < ws.len() { Some(s) } else { None::<int> },
    decreases s - i,
{
    if i < s {
        lemma_first_under(ws, t, i + 1, s);
    }
}

pub proof fn lemma_warn_scan_end(ws: Seq<WarnV>, t: Seq<KeyV>, e: int, f: int)
    requires
        0 <= e <= f <= ws.len(),
        forall|m: int| e <= m < f ==> is_prefix(t, #[trigger] ws[m].path),
        f == ws.len() || !is_prefix(t, ws[f].path),
    ensures
        warn_scan_end(ws, t, e) == f,
    decreases f - e,
{
    if e < f {
        lemma_warn_scan_end(ws, t, e + 1, f);
    }
}

/// When re-linting `target` in a listing that was the full lint of the old document reports
/// success, the listing becomes the full lint of the new document; it reports failure only
/// when the old listing had no warning at or below `target`. This holds whenever the two
/// documents differ only at or below `target`, `target` exists in the old one, and the
/// containers on the way are well formed.
pub proof fn law_patch_lint_matches_lint(old_root: JNode, new_root: JNode, target: Seq<KeyV>)
    requires
        same_except(old_root, new_root, target),
        get_spec(old_root, target) is Some,
        wf_along(old_root, target),
    ensures
        lint_patch(lint_full(old_root), new_root, target).0 ==> lint_patch(lint_full(old_root), new_root, target).1
            == lint_full(new_root),
        !lint_patch(lint_full(old_root), new_root, target).0 ==> avoid_w(lint_full(old_root), target),
{
    let e: Seq<KeyV> = Seq::empty();
    let old_ws = lint_full(old_root);
    assert(e + target =~= target);
    assert(target.subrange(0, target.len() as int) =~= target);
    lemma_lint_same_except_parts(old_root, new_root, e, 0, target);
    if target.len() > MAX_DEPTH + 1 {
        lemma_lint_paths(old_root, e, 0);
        assert forall|m: int| 0 <= m < old_ws.len() implies !is_prefix(target, #[trigger] old_ws[m].path) by {}
        lemma_first_under(old_ws, target, 0, old_ws.len() as int);
        let sn = get_spec(new_root, target).unwrap();
        assert(fresh_warnings(new_root, target).len() > 0);
    } else {
        lemma_lint_decompose(old_root, e, 0, target);
        lemma_lint_decompose(new_root, e, 0, target);
        lemma_lint_parts_avoid(old_root, e, 0, target);
        let pre = pre_w(old_root, e, 0, target);
        let post = post_w(old_root, e, 0, target);
        let so = get_spec(old_root, target).unwrap();
        let sn = get_spec(new_root, target).unwrap();
        let kw = end_warn(e, target);
        assert(kw == end_key_warning(target) || target.len() == 0);
        let bo = kw + lint_spec(so, target, target.len());
        let bn = kw + lint_spec(sn, target, target.len());
        assert(old_ws =~= pre + bo + post);
        assert(lint_full(new_root) =~= pre + bn + post);
        assert(fresh_warnings(new_root, target) =~= bn);
        lemma_lint_paths(so, target, target.len());
        assert forall|m: int| 0 <= m < bo.len() implies is_prefix(target, #[trigger] bo[m].path) by {
            if m < kw.len() {
                assert(bo[m] == kw[m]);
                assert(kw[m].path == target);
            } else {
                assert(bo[m] == lint_spec(so, target, target.len())[m - kw.len()]);
            }
        }
        if bo.len() > 0 {
            assert forall|m: int| 0 <= m < pre.len() implies !is_prefix(target, #[trigger] old_ws[m].path) by {
                assert(old_ws[m] == pre[m]);
            }
            assert(old_ws[pre.len() as int] == bo[0]);
            lemma_first_under(old_ws, target, 0, pre.len() as int);
            let f: int = (pre.len() + bo.len()) as int;
            assert forall|m: int| pre.len() + 1 <= m < f implies is_prefix(target, #[trigger] old_ws[m].path) by {
                assert(old_ws[m] == bo[m - pre.len()]);
            }
            if f < old_ws.len() {
                assert(old_ws[f] == post[0]);
            }
            lemma_warn_scan_end(old_ws, target, pre.len() + 1int, f);
            assert(old_ws.subrange(0, pre.len() as int) =~= pre);
            assert(old_ws.subrange(f, old_ws.len() as int) =~= post);
            assert(lint_patch(old_ws, new_root, target).1 =~= lint_full(new_root));
        } else {
            assert(old_ws =~= pre + post);
            lemma_avoid_w_concat(pre, post, target);
            lemma_first_under(old_ws, target, 0, old_ws.len() as int);
            assert(kw.len() == 0);
            if bn.len() == 0 {
                assert(lint_full(new_root) =~= pre + post);
            }
        }
    }
}

// ---------------------------------------------------------------------------
// Looking warnings up by path
// ---------------------------------------------------------------------------

/// The index of the first of the warnings `ws[i..]` at `p`.
pub open spec fn first_warning_from(ws: Seq<WarnV>, p: Seq<KeyV>, i: int) -> Option<int>
    decreases ws.len() - i,
{
    if i < 0 || i >= ws.len() {
        None
    } else if ws[i].path == p {
        Some(i)
    } else {
        first_warning_from(ws, p, i + 1)
    }
}

/// The message of the first warning at `p`, if there is one.
pub open spec fn first_message_at(ws: Seq<WarnV>, p: Seq<KeyV>) -> Option<Seq<char>> {
    match first_warning_from(ws, p, 0) {
        Some(i) => Some(ws[i].message),
        None => None,
    }
}

proof fn lemma_first_warning_from(ws: Seq<WarnV>, p: Seq<KeyV>, i: int)
    requires
        0 <= i,
    ensures
        match first_warning_from(ws, p, i) {
            Some(j) => i <= j < ws.len() && ws[j].path == p,
            None => forall|m: int| i <= m < ws.len() ==> ws[m].path != p,
        },
    decreases ws.len() - i,
{
    if i < ws.len() && ws[i].path != p {
        lemma_first_warning_from(ws, p, i + 1);
    }
}

/// Index of the first warning at `path`, if there is one.
pub fn warning_index_at(ws: &Vec<LintWarning>, path: &[JKey]) -> (r: Option<usize>)
    ensures
        match r {
            Some(i) => first_warning_from(ws.deep_view(), path.deep_view(), 0) == Some(i as int),
            None => first_warning_from(ws.deep_view(), path.deep_view(), 0) is None,
        },
{
    let ghost wv = ws.deep_view();
    let mut i: usize = 0;
    while i < ws.len()
        invariant
            wv == ws.deep_view(),
            i <= ws@.len(),
            first_warning_from(wv, path.deep_view(), 0) == first_warning_from(wv, path.deep_view(), i as int),
        decreases ws@.len() - i,
    {
        assert(wv[i as int] == ws@[i as int].deep_view());
        if path_eq(ws[i].path.as_slice(), path) {
            return Some(i);
        }
        i = i + 1;
    }
    None
}

/// Whether some warning is at `path` (its explorer row is shown as a warning).
pub fn is_lint_path(ws: &Vec<LintWarning>, path: &[JKey]) -> (r: bool)
    ensures
        r == (first_warning_from(ws.deep_view(), path.deep_view(), 0) is Some),
{
    warning_index_at(ws, path).is_some()
}

/// The message of the first warning at `path`, if there is one.
pub fn lint_message_at(ws: &Vec<LintWarning>, path: &[JKey]) -> (r: Option<String>)
    ensures
        match r {
            Some(m) => first_message_at(ws.deep_view(), path.deep_view()) == Some(m@),
            None => first_message_at(ws.deep_view(), path.deep_view()) is None,
        },
{
    proof { lemma_first_warning_from(ws.deep_view(), path.deep_view(), 0); }
    match warning_index_at(ws, path) {
        Some(i) => {
            assert(ws.deep_view()[i as int] == ws@[i as int].deep_view());
            Some(ws[i].message.clone())
        },
        None => None,
    }
}

} // verus!

