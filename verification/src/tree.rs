//! The editable document tree, paths into it, and its flat row listing.
use vstd::prelude::*;
use crate::text::{append, decimal, push_decimal};

verus! {

/// A JSON scalar. Numbers keep their source text so that `1.0` and `1` stay distinct.
#[derive(Debug, Clone, PartialEq)]
pub enum JScalar {
    Null,
    Bool(bool),
    Number(String),
    String(String),
}

/// The mutable document tree. Object entries keep their insertion order; the type's
/// invariant (see `keys_distinct`) is that no key occurs twice in one object.
#[derive(Debug, PartialEq)]
pub enum JNode {
    Object { entries: Vec<(String, JNode)>, collapsed: bool },
    Array { items: Vec<JNode>, collapsed: bool },
    Scalar(JScalar),
}

/// One step of a path into the tree.
#[derive(Debug, Clone, PartialEq)]
pub enum JKey {
    Field(String),
    Index(usize),
}

/// Path from the root to a node.
pub type JPath = Vec<JKey>;

/// Abstract path step.
pub enum KeyV {
    Field(Seq<char>),
    Index(usize),
}

/// Abstract scalar.
pub enum ScalarV {
    Null,
    Bool(bool),
    Number(Seq<char>),
    Str(Seq<char>),
}

impl DeepView for JKey {
    type V = KeyV;

    open spec fn deep_view(&self) -> KeyV {
        match self {
            JKey::Field(s) => KeyV::Field(s@),
            JKey::Index(i) => KeyV::Index(*i),
        }
    }
}

impl DeepView for JScalar {
    type V = ScalarV;

    open spec fn deep_view(&self) -> ScalarV {
        match self {
            JScalar::Null => ScalarV::Null,
            JScalar::Bool(b) => ScalarV::Bool(*b),
            JScalar::Number(s) => ScalarV::Number(s@),
            JScalar::String(s) => ScalarV::Str(s@),
        }
    }
}

/// Row produced by walking the tree for the explorer table.
#[derive(Debug, Clone, PartialEq)]
pub struct FlatRow {
    pub depth: usize,
    pub key: Option<String>,
    pub index: Option<usize>,
    pub path: JPath,
}

/// Abstract flat row.
pub struct RowV {
    pub depth: nat,
    pub key: Option<Seq<char>>,
    pub index: Option<usize>,
    pub path: Seq<KeyV>,
}

impl DeepView for FlatRow {
    type V = RowV;

    open spec fn deep_view(&self) -> RowV {
        RowV {
            depth: self.depth as nat,
            key: self.key.deep_view(),
            index: self.index,
            path: self.path.deep_view(),
        }
    }
}

/// The contiguous range replaced by a patch call: it starts at `start` and now holds
/// `new_len` elements.
#[derive(Debug, Clone, Copy)]
pub struct PatchSpan {
    pub start: usize,
    pub new_len: usize,
}

impl PatchSpan {
    /// One past the last replaced element.
    pub fn new_end(&self) -> (r: usize)
        requires
            self.start + self.new_len <= usize::MAX,
        ensures
            r == self.start + self.new_len,
    {
        self.start + self.new_len
    }
}

// ---------------------------------------------------------------------------
// Specification of the tree
// ---------------------------------------------------------------------------

pub open spec fn is_collapsed_spec(n: JNode) -> bool {
    match n {
        JNode::Object { collapsed, .. } => collapsed,
        JNode::Array { collapsed, .. } => collapsed,
        JNode::Scalar(_) => false,
    }
}

/// Index of the first entry whose key is `k`, searching from `i`.
pub open spec fn find_key_from(es: Seq<(String, JNode)>, k: Seq<char>, i: int) -> Option<int>
    decreases es.len() - i,
{
    if i < 0 || i >= es.len() {
        None
    } else if es[i].0@ == k {
        Some(i)
    } else {
        find_key_from(es, k, i + 1)
    }
}

/// Index of the first entry whose key is `k`.
pub open spec fn find_key(es: Seq<(String, JNode)>, k: Seq<char>) -> Option<int> {
    find_key_from(es, k, 0)
}

/// No key occurs twice among the entries.
pub open spec fn keys_distinct(es: Seq<(String, JNode)>) -> bool {
    forall|i: int, j: int| 0 <= i < es.len() && 0 <= j < es.len() && i != j ==> es[i].0@ != es[j].0@
}

/// The invariant of a whole document: no object anywhere in it repeats a key.
pub open spec fn wf_tree(n: JNode) -> bool
    decreases n,
{
    match n {
        JNode::Object { entries, .. } => keys_distinct(entries@) && forall|i: int|
            0 <= i < entries@.len() ==> wf_tree(#[trigger] entries@[i].1),
        JNode::Array { items, .. } => forall|i: int| 0 <= i < items@.len() ==> wf_tree(#[trigger] items@[i]),
        JNode::Scalar(_) => true,
    }
}

/// The child reached from `n` by one path step.
pub open spec fn child_at(n: JNode, k: KeyV) -> Option<JNode> {
    match n {
        JNode::Object { entries, .. } => match k {
            KeyV::Field(s) => match find_key(entries@, s) {
                Some(j) => Some(entries@[j].1),
                None => None,
            },
            KeyV::Index(_) => None,
        },
        JNode::Array { items, .. } => match k {
            KeyV::Index(i) => if i < items@.len() { Some(items@[i as int]) } else { None },
            KeyV::Field(_) => None,
        },
        JNode::Scalar(_) => None,
    }
}

/// The node at path `p` below `n`.
pub open spec fn get_spec(n: JNode, p: Seq<KeyV>) -> Option<JNode>
    decreases p.len(),
{
    if p.len() == 0 {
        Some(n)
    } else {
        match child_at(n, p[0]) {
            Some(c) => get_spec(c, p.drop_first()),
            None => None,
        }
    }
}

/// Every container met along `p` (from `n` on) is well formed: an object has distinct keys,
/// an array holds at most `usize::MAX` items.
pub open spec fn wf_along(n: JNode, p: Seq<KeyV>) -> bool
    decreases p.len(),
{
    if p.len() == 0 {
        true
    } else {
        (match n {
            JNode::Object { entries, .. } => keys_distinct(entries@),
            JNode::Array { items, .. } => items@.len() <= usize::MAX,
            JNode::Scalar(_) => true,
        }) && match child_at(n, p[0]) {
            Some(c) => wf_along(c, p.drop_first()),
            None => true,
        }
    }
}

/// `b` is `a` with at most the subtree at `p` replaced: every node off the path is the same
/// value, and every node on the path keeps its kind, its folding state and its key.
pub open spec fn same_except(a: JNode, b: JNode, p: Seq<KeyV>) -> bool
    decreases p.len(),
{
    if p.len() == 0 {
        true
    } else {
        match a {
            JNode::Object { entries: ea, collapsed: ca } => match b {
                JNode::Object { entries: eb, collapsed: cb } => match p[0] {
                    KeyV::Field(k) => match find_key(ea@, k) {
                        Some(j) => {
                            &&& ca == cb
                            &&& ea@.len() == eb@.len()
                            &&& forall|i: int| 0 <= i < ea@.len() && i != j ==> ea@[i] == eb@[i]
                            &&& ea@[j].0 == eb@[j].0
                            &&& same_except(ea@[j].1, eb@[j].1, p.drop_first())
                        },
                        None => a == b,
                    },
                    KeyV::Index(_) => a == b,
                },
                _ => a == b,
            },
            JNode::Array { items: ia, collapsed: ca } => match b {
                JNode::Array { items: ib, collapsed: cb } => match p[0] {
                    KeyV::Index(i) => if i < ia@.len() {
                        &&& ca == cb
                        &&& ia@.len() == ib@.len()
                        &&& forall|m: int| 0 <= m < ia@.len() && m != i ==> ia@[m] == ib@[m]
                        &&& same_except(ia@[i as int], ib@[i as int], p.drop_first())
                    } else {
                        a == b
                    },
                    KeyV::Field(_) => a == b,
                },
                _ => a == b,
            },
            JNode::Scalar(_) => a == b,
        }
    }
}

pub proof fn lemma_find_key_from(es: Seq<(String, JNode)>, k: Seq<char>, i: int)
    requires
        0 <= i,
    ensures
        match find_key_from(es, k, i) {
            Some(j) => i <= j < es.len() && es[j].0@ == k && forall|m: int| i <= m < j ==> es[m].0@ != k,
            None => forall|m: int| i <= m < es.len() ==> es[m].0@ != k,
        },
    decreases es.len() - i,
{
    if i < es.len() && es[i].0@ != k {
        lemma_find_key_from(es, k, i + 1);
    }
}

/// What `find_key` finds is the first entry with that key.
pub proof fn lemma_find_key(es: Seq<(String, JNode)>, k: Seq<char>)
    ensures
        match find_key(es, k) {
            Some(j) => 0 <= j < es.len() && es[j].0@ == k && forall|m: int| 0 <= m < j ==> es[m].0@ != k,
            None => forall|m: int| 0 <= m < es.len() ==> es[m].0@ != k,
        },
{
    lemma_find_key_from(es, k, 0);
}

// ---------------------------------------------------------------------------
// Executable basics
// ---------------------------------------------------------------------------

impl JNode {
    pub fn is_collapsed(&self) -> (r: bool)
        ensures
            r == is_collapsed_spec(*self),
    {
        match self {
            JNode::Object { collapsed, .. } => *collapsed,
            JNode::Array { collapsed, .. } => *collapsed,
            JNode::Scalar(_) => false,
        }
    }
}

/// `b` is a copy of `a`: the same kinds, keys, order, folding and scalars all the way down.
pub open spec fn deep_same(a: JNode, b: JNode) -> bool
    decreases a,
{
    match a {
        JNode::Object { entries: ea, collapsed: ca } => match b {
            JNode::Object { entries: eb, collapsed: cb } => {
                &&& ca == cb
                &&& eb@.len() == ea@.len()
                &&& forall|i: int| 0 <= i < ea@.len() ==> (#[trigger] eb@[i]).0@ == ea@[i].0@
                &&& forall|i: int| 0 <= i < ea@.len() ==> deep_same((#[trigger] ea@[i]).1, eb@[i].1)
            },
            _ => false,
        },
        JNode::Array { items: ia, collapsed: ca } => match b {
            JNode::Array { items: ib, collapsed: cb } => {
                &&& ca == cb
                &&& ib@.len() == ia@.len()
                &&& forall|i: int| 0 <= i < ia@.len() ==> deep_same(#[trigger] ia@[i], ib@[i])
            },
            _ => false,
        },
        JNode::Scalar(x) => match b {
            JNode::Scalar(y) => y.deep_view() == x.deep_view(),
            _ => false,
        },
    }
}

/// A deep copy of a node.
pub fn clone_node(n: &JNode) -> (r: JNode)
    ensures
        deep_same(*n, r),
    decreases n,
{
    match n {
        JNode::Scalar(JScalar::Null) => JNode::Scalar(JScalar::Null),
        JNode::Scalar(JScalar::Bool(b)) => JNode::Scalar(JScalar::Bool(*b)),
        JNode::Scalar(JScalar::Number(s)) => JNode::Scalar(JScalar::Number(s.clone())),
        JNode::Scalar(JScalar::String(s)) => JNode::Scalar(JScalar::String(s.clone())),
        JNode::Array { items, collapsed } => {
            let mut out: Vec<JNode> = Vec::new();
            let mut i: usize = 0;
            while i < items.len()
                invariant
                    *n == (JNode::Array { items: *items, collapsed: *collapsed }),
                    i <= items@.len(),
                    out@.len() == i,
                    forall|k: int| 0 <= k < i ==> deep_same(#[trigger] items@[k], out@[k]),
                decreases items@.len() - i,
            {
                proof {
                    assert(decreases_to!(*n => n->items));
                    assert(decreases_to!(*items => items@));
                    assert(decreases_to!(items@ => items@[i as int]));
                }
                let c = clone_node(&items[i]);
                out.push(c);
                i = i + 1;
            }
            JNode::Array { items: out, collapsed: *collapsed }
        },
        JNode::Object { entries, collapsed } => {
            let mut out: Vec<(String, JNode)> = Vec::new();
            let mut i: usize = 0;
            while i < entries.len()
                invariant
                    *n == (JNode::Object { entries: *entries, collapsed: *collapsed }),
                    i <= entries@.len(),
                    out@.len() == i,
                    forall|k: int| 0 <= k < i ==> (#[trigger] out@[k]).0@ == entries@[k].0@,
                    forall|k: int| 0 <= k < i ==> deep_same((#[trigger] entries@[k]).1, out@[k].1),
                decreases entries@.len() - i,
            {
                proof {
                    assert(decreases_to!(*n => n->entries));
                    assert(decreases_to!(*entries => entries@));
                    assert(decreases_to!(entries@ => entries@[i as int]));
                    assert(decreases_to!(entries@[i as int] => entries@[i as int].1));
                }
                let c = clone_node(&entries[i].1);
                out.push((entries[i].0.clone(), c));
                i = i + 1;
            }
            JNode::Object { entries: out, collapsed: *collapsed }
        },
    }
}

/// `b` is a copy of `a` with every container in it folded (`flag`) or unfolded.
pub open spec fn refolded(a: JNode, b: JNode, flag: bool) -> bool
    decreases a,
{
    match a {
        JNode::Object { entries: ea, .. } => match b {
            JNode::Object { entries: eb, collapsed: cb } => {
                &&& cb == flag
                &&& eb@.len() == ea@.len()
                &&& forall|i: int| 0 <= i < ea@.len() ==> (#[trigger] eb@[i]).0@ == ea@[i].0@
                &&& forall|i: int| 0 <= i < ea@.len() ==> refolded((#[trigger] ea@[i]).1, eb@[i].1, flag)
            },
            _ => false,
        },
        JNode::Array { items: ia, .. } => match b {
            JNode::Array { items: ib, collapsed: cb } => {
                &&& cb == flag
                &&& ib@.len() == ia@.len()
                &&& forall|i: int| 0 <= i < ia@.len() ==> refolded(#[trigger] ia@[i], ib@[i], flag)
            },
            _ => false,
        },
        JNode::Scalar(x) => match b {
            JNode::Scalar(y) => y.deep_view() == x.deep_view(),
            _ => false,
        },
    }
}

/// A copy of `n` with every container in it folded (`flag`) or unfolded.
pub fn refold(n: &JNode, flag: bool) -> (r: JNode)
    ensures
        refolded(*n, r, flag),
    decreases n,
{
    match n {
        JNode::Scalar(JScalar::Null) => JNode::Scalar(JScalar::Null),
        JNode::Scalar(JScalar::Bool(b)) => JNode::Scalar(JScalar::Bool(*b)),
        JNode::Scalar(JScalar::Number(s)) => JNode::Scalar(JScalar::Number(s.clone())),
        JNode::Scalar(JScalar::String(s)) => JNode::Scalar(JScalar::String(s.clone())),
        JNode::Array { items, collapsed } => {
            let mut out: Vec<JNode> = Vec::new();
            let mut i: usize = 0;
            while i < items.len()
                invariant
                    *n == (JNode::Array { items: *items, collapsed: *collapsed }),
                    i <= items@.len(),
                    out@.len() == i,
                    forall|k: int| 0 <= k < i ==> refolded(#[trigger] items@[k], out@[k], flag),
                decreases items@.len() - i,
            {
                proof {
                    assert(decreases_to!(*n => n->items));
                    assert(decreases_to!(*items => items@));
                    assert(decreases_to!(items@ => items@[i as int]));
                }
                let c = refold(&items[i], flag);
                out.push(c);
                i = i + 1;
            }
            JNode::Array { items: out, collapsed: flag }
        },
        JNode::Object { entries, collapsed } => {
            let mut out: Vec<(String, JNode)> = Vec::new();
            let mut i: usize = 0;
            while i < entries.len()
                invariant
                    *n == (JNode::Object { entries: *entries, collapsed: *collapsed }),
                    i <= entries@.len(),
                    out@.len() == i,
                    forall|k: int| 0 <= k < i ==> (#[trigger] out@[k]).0@ == entries@[k].0@,
                    forall|k: int| 0 <= k < i ==> refolded((#[trigger] entries@[k]).1, out@[k].1, flag),
                decreases entries@.len() - i,
            {
                proof {
                    assert(decreases_to!(*n => n->entries));
                    assert(decreases_to!(*entries => entries@));
                    assert(decreases_to!(entries@ => entries@[i as int]));
                    assert(decreases_to!(entries@[i as int] => entries@[i as int].1));
                }
                let c = refold(&entries[i].1, flag);
                out.push((entries[i].0.clone(), c));
                i = i + 1;
            }
            JNode::Object { entries: out, collapsed: flag }
        },
    }
}

/// A copy of a path step.
pub fn clone_key(k: &JKey) -> (r: JKey)
    ensures
        r == *k,
        r.deep_view() == k.deep_view(),
{
    match k {
        JKey::Field(s) => JKey::Field(s.clone()),
        JKey::Index(i) => JKey::Index(*i),
    }
}

/// A copy of a path.
pub fn clone_path(p: &[JKey]) -> (r: Vec<JKey>)
    ensures
        r@ == p@,
        r.deep_view() == p.deep_view(),
{
    let mut r: Vec<JKey> = Vec::new();
    let mut i: usize = 0;
    while i < p.len()
        invariant
            i <= p@.len(),
            r@ == p@.subrange(0, i as int),
        decreases p@.len() - i,
    {
        let k = clone_key(&p[i]);
        r.push(k);
        i = i + 1;
        assert(r@ =~= p@.subrange(0, i as int));
    }
    assert(r@ =~= p@);
    assert(r.deep_view() =~= p.deep_view());
    r
}

/// Equality of path steps.
pub fn key_eq(a: &JKey, b: &JKey) -> (r: bool)
    ensures
        r == (a.deep_view() == b.deep_view()),
{
    match a {
        JKey::Field(x) => match b {
            JKey::Field(y) => *x == *y,
            JKey::Index(_) => false,
        },
        JKey::Index(i) => match b {
            JKey::Index(j) => *i == *j,
            JKey::Field(_) => false,
        },
    }
}

/// `t` is a prefix of `p`.
pub open spec fn is_prefix(t: Seq<KeyV>, p: Seq<KeyV>) -> bool {
    t.len() <= p.len() && p.subrange(0, t.len() as int) == t
}

/// Equality of paths.
pub fn path_eq(a: &[JKey], b: &[JKey]) -> (r: bool)
    ensures
        r == (a.deep_view() == b.deep_view()),
{
    if a.len() != b.len() {
        assert(a.deep_view().len() != b.deep_view().len());
        return false;
    }
    let mut i: usize = 0;
    while i < a.len()
        invariant
            a@.len() == b@.len(),
            i <= a@.len(),
            forall|m: int| 0 <= m < i ==> a.deep_view()[m] == b.deep_view()[m],
        decreases a@.len() - i,
    {
        if !key_eq(&a[i], &b[i]) {
            assert(a.deep_view()[i as int] != b.deep_view()[i as int]);
            return false;
        }
        i = i + 1;
    }
    assert(a.deep_view() =~= b.deep_view());
    true
}

/// `p` starts with `t`.
pub fn starts_with(p: &[JKey], t: &[JKey]) -> (r: bool)
    ensures
        r == is_prefix(t.deep_view(), p.deep_view()),
{
    if t.len() > p.len() {
        return false;
    }
    let mut i: usize = 0;
    while i < t.len()
        invariant
            t@.len() <= p@.len(),
            i <= t@.len(),
            forall|m: int| 0 <= m < i ==> p.deep_view()[m] == t.deep_view()[m],
        decreases t@.len() - i,
    {
        if !key_eq(&p[i], &t[i]) {
            assert(p.deep_view().subrange(0, t@.len() as int)[i as int] != t.deep_view()[i as int]);
            return false;
        }
        i = i + 1;
    }
    assert(p.deep_view().subrange(0, t@.len() as int) =~= t.deep_view());
    true
}

/// Index of the first entry whose key is `k`.
pub fn find_entry(entries: &Vec<(String, JNode)>, k: &String) -> (r: Option<usize>)
    ensures
        match r {
            Some(j) => j < entries@.len() && find_key(entries@, k@) == Some(j as int),
            None => find_key(entries@, k@) is None,
        },
{
    let mut i: usize = 0;
    while i < entries.len()
        invariant
            i <= entries@.len(),
            find_key(entries@, k@) == find_key_from(entries@, k@, i as int),
        decreases entries@.len() - i,
    {
        if entries[i].0 == *k {
            return Some(i);
        }
        i = i + 1;
    }
    None
}

/// The child reached from `n` by the step `k`.
pub fn child_step<'a>(n: &'a JNode, k: &JKey) -> (r: Option<&'a JNode>)
    ensures
        match r {
            Some(c) => child_at(*n, k.deep_view()) == Some(*c),
            None => child_at(*n, k.deep_view()) is None,
        },
{
    match n {
        JNode::Object { entries, .. } => match k {
            JKey::Field(s) => match find_entry(entries, s) {
                Some(j) => Some(&entries[j].1),
                None => None,
            },
            JKey::Index(_) => None,
        },
        JNode::Array { items, .. } => match k {
            JKey::Index(i) => if *i < items.len() {
                Some(&items[*i])
            } else {
                None
            },
            JKey::Field(_) => None,
        },
        JNode::Scalar(_) => None,
    }
}

/// The node at `path` below `root`, if there is one.
pub fn get_node_at_path<'a>(root: &'a JNode, path: &[JKey]) -> (r: Option<&'a JNode>)
    ensures
        match r {
            Some(c) => get_spec(*root, path.deep_view()) == Some(*c),
            None => get_spec(*root, path.deep_view()) is None,
        },
{
    let ghost pv = path.deep_view();
    let mut cur: &JNode = root;
    let mut i: usize = 0;
    assert(pv.subrange(0, pv.len() as int) =~= pv);
    while i < path.len()
        invariant
            i <= path@.len(),
            pv == path.deep_view(),
            get_spec(*root, pv) == get_spec(*cur, pv.subrange(i as int, pv.len() as int)),
        decreases path@.len() - i,
    {
        let ghost rest = pv.subrange(i as int, pv.len() as int);
        assert(rest[0] == path[i as int].deep_view());
        assert(rest.drop_first() =~= pv.subrange(i + 1, pv.len() as int));
        match child_step(cur, &path[i]) {
            Some(c) => {
                cur = c;
            },
            None => {
                return None;
            },
        }
        i = i + 1;
    }
    assert(pv.subrange(i as int, pv.len() as int).len() == 0);
    Some(cur)
}

/// Text of one path step.
pub open spec fn key_text(k: KeyV) -> Seq<char> {
    match k {
        KeyV::Field(s) => s,
        KeyV::Index(i) => decimal(i as nat),
    }
}

/// Path steps joined by `.`; the root path gives the empty string.
pub open spec fn path_text(p: Seq<KeyV>) -> Seq<char>
    decreases p.len(),
{
    if p.len() == 0 {
        Seq::empty()
    } else if p.len() == 1 {
        key_text(p[0])
    } else {
        path_text(p.drop_last()) + "."@ + key_text(p.last())
    }
}

/// Dot notation of a path, e.g. `items.0.name`.
pub fn path_to_string(path: &[JKey]) -> (s: String)
    ensures
        s@ == path_text(path.deep_view()),
{
    let ghost pv = path.deep_view();
    let mut s = String::new();
    let mut i: usize = 0;
    while i < path.len()
        invariant
            i <= path@.len(),
            pv == path.deep_view(),
            s@ == path_text(pv.subrange(0, i as int)),
        decreases path@.len() - i,
    {
        if i > 0 {
            append(&mut s, ".");
        }
        match &path[i] {
            JKey::Field(f) => append(&mut s, f.as_str()),
            JKey::Index(n) => push_decimal(&mut s, *n),
        }
        proof {
            let q = pv.subrange(0, i + 1);
            assert(q.drop_last() =~= pv.subrange(0, i as int));
            assert(q.last() == pv[i as int]);
            if i == 0 {
                assert(s@ =~= path_text(q));
            }
        }
        i = i + 1;
    }
    assert(pv.subrange(0, pv.len() as int) =~= pv);
    s
}


/// Replaces the node at `path` with `new_node`; does nothing when `path` leads nowhere.
pub fn set_node_at_path(root: &mut JNode, path: &[JKey], new_node: JNode)
    ensures
        get_spec(*old(root), path.deep_view()) is Some ==> same_except(*old(root), *final(root), path.deep_view())
            && get_spec(*final(root), path.deep_view()) == Some(new_node),
        get_spec(*old(root), path.deep_view()) is None ==> *final(root) == *old(root),
{
    if get_node_at_path(root, path).is_none() {
        return;
    }
    assert(path.deep_view().subrange(0, path@.len() as int) =~= path.deep_view());
    set_from(root, path, 0, new_node);
}

fn set_from(node: &mut JNode, path: &[JKey], i: usize, new_node: JNode)
    requires
        i <= path@.len(),
        get_spec(*old(node), path.deep_view().subrange(i as int, path@.len() as int)) is Some,
    ensures
        ({
            let p = path.deep_view().subrange(i as int, path@.len() as int);
            same_except(*old(node), *final(node), p) && get_spec(*final(node), p) == Some(new_node)
        }),
    decreases path@.len() - i,
{
    let ghost p = path.deep_view().subrange(i as int, path@.len() as int);
    if i == path.len() {
        *node = new_node;
        return;
    }
    let ghost rest = path.deep_view().subrange(i + 1, path@.len() as int);
    assert(p.drop_first() =~= rest);
    assert(p[0] == path@[i as int].deep_view());
    match node {
        JNode::Object { entries, .. } => {
            if let JKey::Field(k) = &path[i] {
                if let Some(j) = find_entry(entries, k) {
                    let ghost old_es = entries@;
                    proof {
                        lemma_find_key(entries@, k@);
                    }
                    set_from(&mut entries[j].1, path, i + 1, new_node);
                    proof {
                        assert forall|m: int| 0 <= m < old_es.len() implies old_es[m].0@ == entries@[m].0@ by {
                            if m != j {
                                assert(entries@[m] == old_es[m]);
                            }
                        }
                        lemma_find_key_congruent(old_es, entries@, k@, 0);
                    }
                }
            }
        },
        JNode::Array { items, .. } => {
            if let JKey::Index(ix) = &path[i] {
                if *ix < items.len() {
                    set_from(&mut items[*ix], path, i + 1, new_node);
                }
            }
        },
        JNode::Scalar(_) => {},
    }
}

/// Mutable access to the node at `path`; `None`, touching nothing, when `path` leads nowhere.
/// Whatever is written through the returned reference ends up at `path`, and nothing else in
/// the tree changes.
pub fn get_node_at_path_mut<'a>(root: &'a mut JNode, path: &[JKey]) -> (r: Option<&'a mut JNode>)
    ensures
        get_spec(*old(root), path.deep_view()) is None ==> r is None && *final(root) == *old(root),
        get_spec(*old(root), path.deep_view()) is Some ==> (r matches Some(c) && Some(*c) == get_spec(*old(root), path.deep_view())
            && same_except(*old(root), *final(root), path.deep_view())
            && get_spec(*final(root), path.deep_view()) == Some(*final(c))),
{
    if get_node_at_path(root, path).is_none() {
        return None;
    }
    assert(path.deep_view().subrange(0, path@.len() as int) =~= path.deep_view());
    Some(descend_mut(root, path, 0))
}

fn descend_mut<'a>(node: &'a mut JNode, path: &[JKey], i: usize) -> (r: &'a mut JNode)
    requires
        i <= path@.len(),
        get_spec(*old(node), path.deep_view().subrange(i as int, path@.len() as int)) is Some,
    ensures
        ({
            let p = path.deep_view().subrange(i as int, path@.len() as int);
            &&& Some(*r) == get_spec(*old(node), p)
            &&& same_except(*old(node), *final(node), p)
            &&& get_spec(*final(node), p) == Some(*final(r))
        }),
    decreases path@.len() - i,
{
    let ghost p = path.deep_view().subrange(i as int, path@.len() as int);
    if i == path.len() {
        return node;
    }
    let ghost rest = path.deep_view().subrange(i + 1, path@.len() as int);
    assert(p.drop_first() =~= rest);
    assert(p[0] == path@[i as int].deep_view());
    let step: usize = match (&*node, &path[i]) {
        (JNode::Object { entries, .. }, JKey::Field(k)) => {
            proof { lemma_find_key(entries@, k@); }
            match find_entry(entries, k) {
                Some(j) => j,
                None => vstd::pervasive::unreached(),
            }
        },
        (JNode::Array { .. }, JKey::Index(ix)) => *ix,
        _ => vstd::pervasive::unreached(),
    };
    match node {
        JNode::Object { entries, .. } => {
            let ghost es = entries@;
            proof {
                assert forall|x: JNode| #[trigger] find_key(es.update(step as int, (es[step as int].0, x)), p[0]->Field_0)
                    == find_key(es, p[0]->Field_0) by {
                    let e2 = es.update(step as int, (es[step as int].0, x));
                    assert forall|m: int| 0 <= m < es.len() implies es[m].0@ == e2[m].0@ by {}
                    lemma_find_key_congruent(es, e2, p[0]->Field_0, 0);
                }
            }
            descend_mut(&mut entries[step].1, path, i + 1)
        },
        JNode::Array { items, .. } => descend_mut(&mut items[step], path, i + 1),
        JNode::Scalar(_) => vstd::pervasive::unreached(),
    }
}

// ---------------------------------------------------------------------------
// Flat row listing
// ---------------------------------------------------------------------------

pub open spec fn row_spec(key: Option<Seq<char>>, index: Option<usize>, path: Seq<KeyV>) -> RowV {
    RowV { depth: path.len(), key, index, path }
}

/// Rows of `n` and of every descendant not hidden by a folded container, in pre-order.
pub open spec fn flat_rows(n: JNode, key: Option<Seq<char>>, index: Option<usize>, path: Seq<KeyV>) -> Seq<RowV>
    decreases n, 0int,
{
    seq![row_spec(key, index, path)] + if is_collapsed_spec(n) {
        Seq::empty()
    } else {
        match n {
            JNode::Object { entries, .. } => obj_rows(entries@, 0, entries@.len() as int, path),
            JNode::Array { items, .. } => arr_rows(items@, 0, items@.len() as int, path),
            JNode::Scalar(_) => Seq::empty(),
        }
    }
}

/// Rows of the object entries `lo..hi` below `base`.
pub open spec fn obj_rows(es: Seq<(String, JNode)>, lo: int, hi: int, base: Seq<KeyV>) -> Seq<RowV>
    decreases es, hi - lo,
{
    if lo < 0 || hi <= lo || hi > es.len() {
        Seq::empty()
    } else {
        obj_rows(es, lo, hi - 1, base) + flat_rows(
            es[hi - 1].1,
            Some(es[hi - 1].0@),
            None,
            base.push(KeyV::Field(es[hi - 1].0@)),
        )
    }
}

/// Rows of the array items `lo..hi` below `base`.
pub open spec fn arr_rows(items: Seq<JNode>, lo: int, hi: int, base: Seq<KeyV>) -> Seq<RowV>
    decreases items, hi - lo,
{
    if lo < 0 || hi <= lo || hi > items.len() {
        Seq::empty()
    } else {
        arr_rows(items, lo, hi - 1, base) + flat_rows(
            items[hi - 1],
            None,
            Some((hi - 1) as usize),
            base.push(KeyV::Index((hi - 1) as usize)),
        )
    }
}

/// The full flat listing of a document.
pub open spec fn flatten_spec(root: JNode) -> Seq<RowV> {
    flat_rows(root, None, None, Seq::empty())
}

fn flatten_node(
    node: &JNode,
    depth: usize,
    key: Option<String>,
    index: Option<usize>,
    path: &[JKey],
    out: &mut Vec<FlatRow>,
)
    requires
        depth == path@.len(),
    ensures
        final(out).deep_view() == old(out).deep_view() + flat_rows(*node, key.deep_view(), index, path.deep_view()),
    decreases node,
{
    let ghost pv = path.deep_view();
    let ghost kv = key.deep_view();
    let row = FlatRow { depth, key, index, path: clone_path(path) };
    out.push(row);
    let ghost start = old(out).deep_view().push(row_spec(kv, index, pv));
    assert(out.deep_view() =~= start);
    if node.is_collapsed() {
        assert(out.deep_view() =~= old(out).deep_view() + flat_rows(*node, kv, index, pv));
        return;
    }
    match node {
        JNode::Object { entries, collapsed } => {
            let mut i: usize = 0;
            while i < entries.len()
                invariant
                    *node == (JNode::Object { entries: *entries, collapsed: *collapsed }),
                    i <= entries@.len(),
                    pv == path.deep_view(),
                    out.deep_view() == start + obj_rows(entries@, 0, i as int, pv),
                decreases entries@.len() - i,
            {
                let mut child_path = clone_path(path);
                child_path.push(JKey::Field(entries[i].0.clone()));
                assert(child_path.deep_view() =~= pv.push(KeyV::Field(entries@[i as int].0@)));
                proof {
                    assert(decreases_to!(*node => node->entries));
                    assert(decreases_to!(*entries => entries@));
                    assert(decreases_to!(entries@ => entries@[i as int]));
                    assert(decreases_to!(entries@[i as int] => entries@[i as int].1));
                }
                flatten_node(&entries[i].1, child_path.len(), Some(entries[i].0.clone()), None, &child_path, out);
                assert(obj_rows(entries@, 0, i + 1, pv) == obj_rows(entries@, 0, i as int, pv) + flat_rows(
                    entries@[i as int].1, Some(entries@[i as int].0@), None, pv.push(KeyV::Field(entries@[i as int].0@))));
                assert(out.deep_view() =~= start + obj_rows(entries@, 0, i + 1, pv));
                i = i + 1;
            }
            assert(out.deep_view() =~= old(out).deep_view() + flat_rows(*node, kv, index, pv));
        },
        JNode::Array { items, collapsed } => {
            let mut i: usize = 0;
            while i < items.len()
                invariant
                    *node == (JNode::Array { items: *items, collapsed: *collapsed }),
                    i <= items@.len(),
                    pv == path.deep_view(),
                    out.deep_view() == start + arr_rows(items@, 0, i as int, pv),
                decreases items@.len() - i,
            {
                let mut child_path = clone_path(path);
                child_path.push(JKey::Index(i));
                assert(child_path.deep_view() =~= pv.push(KeyV::Index(i)));
                proof {
                    assert(decreases_to!(*node => node->items));
                    assert(decreases_to!(*items => items@));
                    assert(decreases_to!(items@ => items@[i as int]));
                }
                flatten_node(&items[i], child_path.len(), None, Some(i), &child_path, out);
                assert(arr_rows(items@, 0, i + 1, pv) == arr_rows(items@, 0, i as int, pv) + flat_rows(
                    items@[i as int], None, Some(i), pv.push(KeyV::Index(i))));
                assert(out.deep_view() =~= start + arr_rows(items@, 0, i + 1, pv));
                i = i + 1;
            }
            assert(out.deep_view() =~= old(out).deep_view() + flat_rows(*node, kv, index, pv));
        },
        JNode::Scalar(_) => {
            assert(out.deep_view() =~= old(out).deep_view() + flat_rows(*node, kv, index, pv));
        },
    }
}

/// Every visible node of the document as one row, in pre-order.
pub fn flatten(root: &JNode) -> (rows: Vec<FlatRow>)
    ensures
        rows.deep_view() == flatten_spec(*root),
{
    let mut rows: Vec<FlatRow> = Vec::new();
    let empty: Vec<JKey> = Vec::new();
    assert(empty.deep_view() =~= Seq::<KeyV>::empty());
    flatten_node(root, 0, None, None, &empty, &mut rows);
    assert(rows.deep_view() =~= flatten_spec(*root));
    rows
}


// ---------------------------------------------------------------------------
// Patching a flat listing in place
// ---------------------------------------------------------------------------

/// Index of the first row (from `i` on) whose path is `t`.
pub open spec fn first_path_from(rows: Seq<RowV>, t: Seq<KeyV>, i: int) -> Option<int>
    decreases rows.len() - i,
{
    if i < 0 || i >= rows.len() {
        None
    } else if rows[i].path == t {
        Some(i)
    } else {
        first_path_from(rows, t, i + 1)
    }
}

/// From `e` on, the first row whose path does not start with `t` (or the length).
pub open spec fn scan_end(rows: Seq<RowV>, t: Seq<KeyV>, e: int) -> int
    decreases rows.len() - e,
{
    if e < 0 || e >= rows.len() {
        rows.len() as int
    } else if is_prefix(t, rows[e].path) {
        scan_end(rows, t, e + 1)
    } else {
        e
    }
}

/// The key a parent passes for the node at `t`.
pub open spec fn ident_key(t: Seq<KeyV>) -> Option<Seq<char>> {
    if t.len() == 0 {
        None
    } else {
        match t.last() {
            KeyV::Field(k) => Some(k),
            KeyV::Index(_) => None,
        }
    }
}

/// The index a parent passes for the node at `t`.
pub open spec fn ident_index(t: Seq<KeyV>) -> Option<usize> {
    if t.len() == 0 {
        None
    } else {
        match t.last() {
            KeyV::Index(i) => Some(i),
            KeyV::Field(_) => None,
        }
    }
}

/// What patching `rows` for `t` against `root` gives: the start of the replaced block, the
/// number of new rows, and the new listing; `None` when `t` has no row or no node.
pub open spec fn flat_patch(rows: Seq<RowV>, root: JNode, t: Seq<KeyV>) -> Option<(int, int, Seq<RowV>)> {
    match first_path_from(rows, t, 0) {
        None => None,
        Some(s) => match get_spec(root, t) {
            None => None,
            Some(node) => {
                let e = scan_end(rows, t, s + 1);
                let new_rows = flat_rows(node, ident_key(t), ident_index(t), t);
                Some((s, new_rows.len() as int, rows.subrange(0, s) + new_rows + rows.subrange(e, rows.len() as int)))
            },
        },
    }
}

/// The (depth, key, index) that a parent passes when it descends to the node at `target`.
pub fn target_identity(target: &JPath) -> (r: (usize, Option<String>, Option<usize>))
    ensures
        r.0 == target@.len(),
        r.1.deep_view() == ident_key(target.deep_view()),
        r.2 == ident_index(target.deep_view()),
{
    if target.len() == 0 {
        return (0, None, None);
    }
    let last = target.len() - 1;
    assert(target.deep_view().last() == target@[last as int].deep_view());
    match &target[last] {
        JKey::Field(k) => (target.len(), Some(k.clone()), None),
        JKey::Index(i) => (target.len(), None, Some(*i)),
    }
}

/// Replaces the block of `flat` that belongs to `target` (its own row and every row below it)
/// with a fresh listing of the subtree now at `target` in `root`; rows outside the block are
/// left alone. `None`, with `flat` unchanged, when `target` has no row or no node.
pub fn patch_flat(flat: &mut Vec<FlatRow>, root: &JNode, target: &JPath) -> (r: Option<PatchSpan>)
    ensures
        match flat_patch(old(flat).deep_view(), *root, target.deep_view()) {
            Some((s, n, rows)) => r matches Some(span) && span.start == s && span.new_len == n
                && final(flat).deep_view() == rows,
            None => r is None && *final(flat) == *old(flat),
        },
{
    let ghost rows = flat.deep_view();
    let ghost t = target.deep_view();
    let mut start: usize = 0;
    while start < flat.len() && !path_eq(&flat[start].path, target)
        invariant
            start <= flat@.len(),
            rows == flat.deep_view(),
            t == target.deep_view(),
            first_path_from(rows, t, 0) == first_path_from(rows, t, start as int),
        decreases flat@.len() - start,
    {
        start = start + 1;
    }
    if start == flat.len() {
        return None;
    }
    assert(first_path_from(rows, t, 0) == Some(start as int));
    let mut end: usize = start + 1;
    while end < flat.len() && starts_with(&flat[end].path, target)
        invariant
            start < end <= flat@.len(),
            rows == flat.deep_view(),
            t == target.deep_view(),
            scan_end(rows, t, start + 1) == scan_end(rows, t, end as int),
        decreases flat@.len() - end,
    {
        end = end + 1;
    }
    let node = match get_node_at_path(root, target) {
        Some(n) => n,
        None => {
            return None;
        },
    };
    let (depth, key, index) = target_identity(target);
    let mut new_rows: Vec<FlatRow> = Vec::new();
    flatten_node(node, depth, key, index, target, &mut new_rows);
    assert(new_rows.deep_view() =~= flat_rows(*node, ident_key(t), ident_index(t), t));
    let new_len = new_rows.len();
    let mut tail = flat.split_off(end);
    flat.truncate(start);
    flat.append(&mut new_rows);
    flat.append(&mut tail);
    proof {
        let e = scan_end(rows, t, start + 1);
        assert(e == end);
        assert(flat.deep_view() =~= rows.subrange(0, start as int) + flat_rows(*node, ident_key(t), ident_index(t), t)
            + rows.subrange(e, rows.len() as int));
    }
    Some(PatchSpan { start, new_len })
}


// ---------------------------------------------------------------------------
// Why patching agrees with a full rebuild
// ---------------------------------------------------------------------------

/// The node at `p` is shown: no container strictly above it (from `n` down) is folded.
pub open spec fn visible(n: JNode, p: Seq<KeyV>) -> bool
    decreases p.len(),
{
    if p.len() == 0 {
        true
    } else {
        !is_collapsed_spec(n) && match child_at(n, p[0]) {
            Some(c) => visible(c, p.drop_first()),
            None => false,
        }
    }
}

/// No row of `rows` lies at or below `t`.
pub open spec fn avoid(rows: Seq<RowV>, t: Seq<KeyV>) -> bool {
    forall|i: int| 0 <= i < rows.len() ==> !is_prefix(t, #[trigger] rows[i].path)
}

pub open spec fn sub_key(k: Option<Seq<char>>, p: Seq<KeyV>) -> Option<Seq<char>> {
    if p.len() == 0 { k } else { ident_key(p) }
}

pub open spec fn sub_index(ix: Option<usize>, p: Seq<KeyV>) -> Option<usize> {
    if p.len() == 0 { ix } else { ident_index(p) }
}

/// Rows of `a` listed before the block of the node at `p`.
pub open spec fn pre_rows(a: JNode, k: Option<Seq<char>>, ix: Option<usize>, base: Seq<KeyV>, p: Seq<KeyV>) -> Seq<RowV>
    decreases p.len(),
{
    if p.len() == 0 {
        Seq::empty()
    } else {
        let head = seq![row_spec(k, ix, base)];
        match a {
            JNode::Object { entries, .. } => match p[0] {
                KeyV::Field(s) => match find_key(entries@, s) {
                    Some(j) => head + obj_rows(entries@, 0, j, base) + pre_rows(
                        entries@[j].1,
                        Some(entries@[j].0@),
                        None,
                        base.push(KeyV::Field(entries@[j].0@)),
                        p.drop_first(),
                    ),
                    None => Seq::empty(),
                },
                KeyV::Index(_) => Seq::empty(),
            },
            JNode::Array { items, .. } => match p[0] {
                KeyV::Index(i) => if i < items@.len() {
                    head + arr_rows(items@, 0, i as int, base) + pre_rows(
                        items@[i as int],
                        None,
                        Some(i),
                        base.push(KeyV::Index(i)),
                        p.drop_first(),
                    )
                } else {
                    Seq::empty()
                },
                KeyV::Field(_) => Seq::empty(),
            },
            JNode::Scalar(_) => Seq::empty(),
        }
    }
}

/// Rows of `a` listed after the block of the node at `p`.
pub open spec fn post_rows(a: JNode, k: Option<Seq<char>>, ix: Option<usize>, base: Seq<KeyV>, p: Seq<KeyV>) -> Seq<RowV>
    decreases p.len(),
{
    if p.len() == 0 {
        Seq::empty()
    } else {
        match a {
            JNode::Object { entries, .. } => match p[0] {
                KeyV::Field(s) => match find_key(entries@, s) {
                    Some(j) => post_rows(
                        entries@[j].1,
                        Some(entries@[j].0@),
                        None,
                        base.push(KeyV::Field(entries@[j].0@)),
                        p.drop_first(),
                    ) + obj_rows(entries@, j + 1, entries@.len() as int, base),
                    None => Seq::empty(),
                },
                KeyV::Index(_) => Seq::empty(),
            },
            JNode::Array { items, .. } => match p[0] {
                KeyV::Index(i) => if i < items@.len() {
                    post_rows(
                        items@[i as int],
                        None,
                        Some(i),
                        base.push(KeyV::Index(i)),
                        p.drop_first(),
                    ) + arr_rows(items@, i + 1, items@.len() as int, base)
                } else {
                    Seq::empty()
                },
                KeyV::Field(_) => Seq::empty(),
            },
            JNode::Scalar(_) => Seq::empty(),
        }
    }
}

pub proof fn lemma_obj_rows_split(es: Seq<(String, JNode)>, lo: int, mid: int, hi: int, base: Seq<KeyV>)
    requires
        0 <= lo <= mid <= hi <= es.len(),
    ensures
        obj_rows(es, lo, hi, base) == obj_rows(es, lo, mid, base) + obj_rows(es, mid, hi, base),
    decreases hi - mid,
{
    if hi == mid {
        assert(obj_rows(es, lo, hi, base) =~= obj_rows(es, lo, mid, base) + obj_rows(es, mid, hi, base));
    } else {
        lemma_obj_rows_split(es, lo, mid, hi - 1, base);
        assert(obj_rows(es, lo, hi, base) =~= obj_rows(es, lo, mid, base) + obj_rows(es, mid, hi, base));
    }
}

pub proof fn lemma_arr_rows_split(items: Seq<JNode>, lo: int, mid: int, hi: int, base: Seq<KeyV>)
    requires
        0 <= lo <= mid <= hi <= items.len(),
    ensures
        arr_rows(items, lo, hi, base) == arr_rows(items, lo, mid, base) + arr_rows(items, mid, hi, base),
    decreases hi - mid,
{
    if hi == mid {
        assert(arr_rows(items, lo, hi, base) =~= arr_rows(items, lo, mid, base) + arr_rows(items, mid, hi, base));
    } else {
        lemma_arr_rows_split(items, lo, mid, hi - 1, base);
        assert(arr_rows(items, lo, hi, base) =~= arr_rows(items, lo, mid, base) + arr_rows(items, mid, hi, base));
    }
}

pub proof fn lemma_obj_rows_congruent(e1: Seq<(String, JNode)>, e2: Seq<(String, JNode)>, lo: int, hi: int, base: Seq<KeyV>)
    requires
        0 <= lo,
        hi <= e1.len(),
        hi <= e2.len(),
        forall|m: int| lo <= m < hi ==> e1[m] == e2[m],
    ensures
        obj_rows(e1, lo, hi, base) == obj_rows(e2, lo, hi, base),
    decreases hi - lo,
{
    if lo < hi {
        lemma_obj_rows_congruent(e1, e2, lo, hi - 1, base);
    }
}

pub proof fn lemma_arr_rows_congruent(i1: Seq<JNode>, i2: Seq<JNode>, lo: int, hi: int, base: Seq<KeyV>)
    requires
        0 <= lo,
        hi <= i1.len(),
        hi <= i2.len(),
        forall|m: int| lo <= m < hi ==> i1[m] == i2[m],
    ensures
        arr_rows(i1, lo, hi, base) == arr_rows(i2, lo, hi, base),
    decreases hi - lo,
{
    if lo < hi {
        lemma_arr_rows_congruent(i1, i2, lo, hi - 1, base);
    }
}

pub proof fn lemma_prefix_trans(a: Seq<KeyV>, b: Seq<KeyV>, c: Seq<KeyV>)
    requires
        is_prefix(a, b),
        is_prefix(b, c),
    ensures
        is_prefix(a, c),
{
    assert(c.subrange(0, a.len() as int) =~= c.subrange(0, b.len() as int).subrange(0, a.len() as int));
}

pub proof fn lemma_prefix_push(base: Seq<KeyV>, x: KeyV)
    ensures
        is_prefix(base, base.push(x)),
{
    assert(base.push(x).subrange(0, base.len() as int) =~= base);
}

/// Every row of `flat_rows(n, .., base)` lies at or below `base`.
pub proof fn lemma_rows_prefix(n: JNode, k: Option<Seq<char>>, ix: Option<usize>, base: Seq<KeyV>)
    ensures
        forall|i: int| 0 <= i < flat_rows(n, k, ix, base).len() ==> is_prefix(base, #[trigger] flat_rows(n, k, ix, base)[i].path),
    decreases n, 0int,
{
    let rows = flat_rows(n, k, ix, base);
    assert(base.subrange(0, base.len() as int) =~= base);
    if !is_collapsed_spec(n) {
        match n {
            JNode::Object { entries, .. } => {
                lemma_obj_rows_prefix(entries@, 0, entries@.len() as int, base);
            },
            JNode::Array { items, .. } => {
                lemma_arr_rows_prefix(items@, 0, items@.len() as int, base);
            },
            JNode::Scalar(_) => {},
        }
    }
    assert forall|i: int| 0 <= i < rows.len() implies is_prefix(base, #[trigger] rows[i].path) by {
        if i > 0 && !is_collapsed_spec(n) {
            match n {
                JNode::Object { entries, .. } => {
                    assert(rows[i] == obj_rows(entries@, 0, entries@.len() as int, base)[i - 1]);
                },
                JNode::Array { items, .. } => {
                    assert(rows[i] == arr_rows(items@, 0, items@.len() as int, base)[i - 1]);
                },
                JNode::Scalar(_) => {},
            }
        }
    }
}

pub proof fn lemma_obj_rows_prefix(es: Seq<(String, JNode)>, lo: int, hi: int, base: Seq<KeyV>)
    ensures
        forall|i: int| 0 <= i < obj_rows(es, lo, hi, base).len() ==> is_prefix(base, #[trigger] obj_rows(es, lo, hi, base)[i].path),
    decreases es, hi - lo,
{
    if !(lo < 0 || hi <= lo || hi > es.len()) {
        let left = obj_rows(es, lo, hi - 1, base);
        let b2 = base.push(KeyV::Field(es[hi - 1].0@));
        let right = flat_rows(es[hi - 1].1, Some(es[hi - 1].0@), None, b2);
        lemma_obj_rows_prefix(es, lo, hi - 1, base);
        lemma_rows_prefix(es[hi - 1].1, Some(es[hi - 1].0@), None, b2);
        lemma_prefix_push(base, KeyV::Field(es[hi - 1].0@));
        assert forall|i: int| 0 <= i < obj_rows(es, lo, hi, base).len() implies is_prefix(base, #[trigger] obj_rows(es, lo, hi, base)[i].path) by {
            if i >= left.len() {
                assert(obj_rows(es, lo, hi, base)[i] == right[i - left.len()]);
                lemma_prefix_trans(base, b2, right[i - left.len()].path);
            } else {
                assert(obj_rows(es, lo, hi, base)[i] == left[i]);
            }
        }
    }
}

pub proof fn lemma_arr_rows_prefix(items: Seq<JNode>, lo: int, hi: int, base: Seq<KeyV>)
    ensures
        forall|i: int| 0 <= i < arr_rows(items, lo, hi, base).len() ==> is_prefix(base, #[trigger] arr_rows(items, lo, hi, base)[i].path),
    decreases items, hi - lo,
{
    if !(lo < 0 || hi <= lo || hi > items.len()) {
        let left = arr_rows(items, lo, hi - 1, base);
        let b2 = base.push(KeyV::Index((hi - 1) as usize));
        let right = flat_rows(items[hi - 1], None, Some((hi - 1) as usize), b2);
        lemma_arr_rows_prefix(items, lo, hi - 1, base);
        lemma_rows_prefix(items[hi - 1], None, Some((hi - 1) as usize), b2);
        lemma_prefix_push(base, KeyV::Index((hi - 1) as usize));
        assert forall|i: int| 0 <= i < arr_rows(items, lo, hi, base).len() implies is_prefix(base, #[trigger] arr_rows(items, lo, hi, base)[i].path) by {
            if i >= left.len() {
                assert(arr_rows(items, lo, hi, base)[i] == right[i - left.len()]);
                lemma_prefix_trans(base, b2, right[i - left.len()].path);
            } else {
                assert(arr_rows(items, lo, hi, base)[i] == left[i]);
            }
        }
    }
}

/// A path below `base.push(x)` is not below a target that leaves `base` by another step.
pub proof fn lemma_other_branch(base: Seq<KeyV>, x: KeyV, q: Seq<KeyV>, t: Seq<KeyV>)
    requires
        is_prefix(base.push(x), q),
        base.len() < t.len(),
        t[base.len() as int] != x,
    ensures
        !is_prefix(t, q),
{
    if is_prefix(t, q) {
        assert(q.subrange(0, base.len() + 1int)[base.len() as int] == x);
        assert(q.subrange(0, t.len() as int)[base.len() as int] == t[base.len() as int]);
    }
}

pub proof fn lemma_avoid_concat(a: Seq<RowV>, b: Seq<RowV>, t: Seq<KeyV>)
    requires
        avoid(a, t),
        avoid(b, t),
    ensures
        avoid(a + b, t),
{
    assert forall|i: int| 0 <= i < (a + b).len() implies !is_prefix(t, #[trigger] (a + b)[i].path) by {
        if i < a.len() {
            assert((a + b)[i] == a[i]);
        } else {
            assert((a + b)[i] == b[i - a.len()]);
        }
    }
}

pub proof fn lemma_obj_rows_avoid(es: Seq<(String, JNode)>, lo: int, hi: int, base: Seq<KeyV>, t: Seq<KeyV>)
    requires
        0 <= lo,
        hi <= es.len(),
        base.len() < t.len(),
        forall|m: int| lo <= m < hi ==> KeyV::Field(es[m].0@) != t[base.len() as int],
    ensures
        avoid(obj_rows(es, lo, hi, base), t),
    decreases hi - lo,
{
    if lo < hi {
        let x = KeyV::Field(es[hi - 1].0@);
        let right = flat_rows(es[hi - 1].1, Some(es[hi - 1].0@), None, base.push(x));
        lemma_obj_rows_avoid(es, lo, hi - 1, base, t);
        lemma_rows_prefix(es[hi - 1].1, Some(es[hi - 1].0@), None, base.push(x));
        assert forall|i: int| 0 <= i < right.len() implies !is_prefix(t, #[trigger] right[i].path) by {
            lemma_other_branch(base, x, right[i].path, t);
        }
        lemma_avoid_concat(obj_rows(es, lo, hi - 1, base), right, t);
    } else {
        assert(obj_rows(es, lo, hi, base) =~= Seq::<RowV>::empty());
    }
}

pub proof fn lemma_arr_rows_avoid(items: Seq<JNode>, lo: int, hi: int, base: Seq<KeyV>, t: Seq<KeyV>)
    requires
        0 <= lo,
        hi <= items.len(),
        base.len() < t.len(),
        hi <= usize::MAX + 1,
        t[base.len() as int] matches KeyV::Index(y) ==> !(lo <= y < hi),
    ensures
        avoid(arr_rows(items, lo, hi, base), t),
    decreases hi - lo,
{
    if lo < hi {
        let x = KeyV::Index((hi - 1) as usize);
        let right = flat_rows(items[hi - 1], None, Some((hi - 1) as usize), base.push(x));
        lemma_arr_rows_avoid(items, lo, hi - 1, base, t);
        lemma_rows_prefix(items[hi - 1], None, Some((hi - 1) as usize), base.push(x));
        assert forall|i: int| 0 <= i < right.len() implies !is_prefix(t, #[trigger] right[i].path) by {
            lemma_other_branch(base, x, right[i].path, t);
        }
        lemma_avoid_concat(arr_rows(items, lo, hi - 1, base), right, t);
    } else {
        assert(arr_rows(items, lo, hi, base) =~= Seq::<RowV>::empty());
    }
}

pub proof fn lemma_find_key_congruent(e1: Seq<(String, JNode)>, e2: Seq<(String, JNode)>, k: Seq<char>, i: int)
    requires
        0 <= i,
        e1.len() == e2.len(),
        forall|m: int| 0 <= m < e1.len() ==> e1[m].0@ == e2[m].0@,
    ensures
        find_key_from(e1, k, i) == find_key_from(e2, k, i),
    decreases e1.len() - i,
{
    if i < e1.len() {
        lemma_find_key_congruent(e1, e2, k, i + 1);
    }
}

/// The listing of `a` splits into rows before the node at `p`, that node's own block, and
/// rows after it.
pub proof fn lemma_flat_decompose(a: JNode, k: Option<Seq<char>>, ix: Option<usize>, base: Seq<KeyV>, p: Seq<KeyV>)
    requires
        visible(a, p),
    ensures
        get_spec(a, p) is Some,
        flat_rows(a, k, ix, base) == pre_rows(a, k, ix, base, p) + flat_rows(
            get_spec(a, p).unwrap(),
            sub_key(k, p),
            sub_index(ix, p),
            base + p,
        ) + post_rows(a, k, ix, base, p),
    decreases p.len(),
{
    if p.len() == 0 {
        assert(base + p =~= base);
        assert(flat_rows(a, k, ix, base) =~= pre_rows(a, k, ix, base, p) + flat_rows(a, k, ix, base) + post_rows(a, k, ix, base, p));
    } else {
        match a {
            JNode::Object { entries, .. } => {
                let es = entries@;
                let s = p[0]->Field_0;
                lemma_find_key(es, s);
                let j = find_key(es, s).unwrap();
                let kj = es[j].0@;
                let b2 = base.push(KeyV::Field(kj));
                lemma_flat_decompose(es[j].1, Some(kj), None, b2, p.drop_first());
                lemma_flat_decompose_obj(a, k, ix, base, p);
            },
            JNode::Array { items, .. } => {
                let i = p[0]->Index_0;
                lemma_flat_decompose(items@[i as int], None, Some(i), base.push(KeyV::Index(i)), p.drop_first());
                lemma_flat_decompose_arr(a, k, ix, base, p);
            },
            JNode::Scalar(_) => {},
        }
    }
}

/// One step of `lemma_flat_decompose` through an object.
pub proof fn lemma_flat_decompose_obj(a: JNode, k: Option<Seq<char>>, ix: Option<usize>, base: Seq<KeyV>, p: Seq<KeyV>)
    requires
        p.len() > 0,
        visible(a, p),
        a is Object,
        ({
            let es = a->entries@;
            let j = find_key(es, p[0]->Field_0).unwrap();
            let b2 = base.push(KeyV::Field(es[j].0@));
            flat_rows(es[j].1, Some(es[j].0@), None, b2) == pre_rows(es[j].1, Some(es[j].0@), None, b2, p.drop_first())
                + flat_rows(get_spec(es[j].1, p.drop_first()).unwrap(), sub_key(Some(es[j].0@), p.drop_first()),
                    sub_index(None, p.drop_first()), b2 + p.drop_first())
                + post_rows(es[j].1, Some(es[j].0@), None, b2, p.drop_first())
            && get_spec(es[j].1, p.drop_first()) is Some
        }),
    ensures
        get_spec(a, p) is Some,
        flat_rows(a, k, ix, base) == pre_rows(a, k, ix, base, p) + flat_rows(
            get_spec(a, p).unwrap(),
            sub_key(k, p),
            sub_index(ix, p),
            base + p,
        ) + post_rows(a, k, ix, base, p),
{
    let es = a->entries@;
    let s = p[0]->Field_0;
    let rest = p.drop_first();
    lemma_find_key(es, s);
    let j = find_key(es, s).unwrap();
    let kj = es[j].0@;
    let b2 = base.push(KeyV::Field(kj));
    let child = es[j].1;
    let head = seq![row_spec(k, ix, base)];
    lemma_obj_rows_split(es, 0, j, es.len() as int, base);
    lemma_obj_rows_split(es, j, j + 1, es.len() as int, base);
    assert(obj_rows(es, j, j, base) =~= Seq::<RowV>::empty());
    assert(obj_rows(es, j, j + 1, base) =~= flat_rows(child, Some(kj), None, b2));
    assert(b2 + rest =~= base + p);
    if rest.len() > 0 {
        assert(rest.last() == p.last());
    }
    assert(sub_key(k, p) == sub_key(Some(kj), rest));
    assert(sub_index(ix, p) == sub_index(None, rest));
    assert(get_spec(a, p) == get_spec(child, rest));
    assert(flat_rows(a, k, ix, base) == head + obj_rows(es, 0, es.len() as int, base));
    assert(pre_rows(a, k, ix, base, p) == head + obj_rows(es, 0, j, base) + pre_rows(child, Some(kj), None, b2, rest));
    assert(post_rows(a, k, ix, base, p) == post_rows(child, Some(kj), None, b2, rest) + obj_rows(es, j + 1, es.len() as int, base));
    let r = flat_rows(get_spec(child, rest).unwrap(), sub_key(Some(kj), rest), sub_index(None, rest), b2 + rest);
    assert(flat_rows(a, k, ix, base) =~= pre_rows(a, k, ix, base, p) + r + post_rows(a, k, ix, base, p));
}

/// One step of `lemma_flat_decompose` through an array.
pub proof fn lemma_flat_decompose_arr(a: JNode, k: Option<Seq<char>>, ix: Option<usize>, base: Seq<KeyV>, p: Seq<KeyV>)
    requires
        p.len() > 0,
        visible(a, p),
        a is Array,
        ({
            let its = a->items@;
            let i = p[0]->Index_0;
            let b2 = base.push(KeyV::Index(i));
            flat_rows(its[i as int], None, Some(i), b2) == pre_rows(its[i as int], None, Some(i), b2, p.drop_first())
                + flat_rows(get_spec(its[i as int], p.drop_first()).unwrap(), sub_key(None, p.drop_first()),
                    sub_index(Some(i), p.drop_first()), b2 + p.drop_first())
                + post_rows(its[i as int], None, Some(i), b2, p.drop_first())
            && get_spec(its[i as int], p.drop_first()) is Some
        }),
    ensures
        get_spec(a, p) is Some,
        flat_rows(a, k, ix, base) == pre_rows(a, k, ix, base, p) + flat_rows(
            get_spec(a, p).unwrap(),
            sub_key(k, p),
            sub_index(ix, p),
            base + p,
        ) + post_rows(a, k, ix, base, p),
{
    let its = a->items@;
    let i = p[0]->Index_0;
    let rest = p.drop_first();
    let b2 = base.push(KeyV::Index(i));
    let child = its[i as int];
    let head = seq![row_spec(k, ix, base)];
    lemma_arr_rows_split(its, 0, i as int, its.len() as int, base);
    lemma_arr_rows_split(its, i as int, i + 1, its.len() as int, base);
    assert(arr_rows(its, i as int, i as int, base) =~= Seq::<RowV>::empty());
    assert(arr_rows(its, i as int, i + 1, base) =~= flat_rows(child, None, Some(i), b2));
    assert(b2 + rest =~= base + p);
    if rest.len() > 0 {
        assert(rest.last() == p.last());
    }
    assert(sub_key(k, p) == sub_key(None, rest));
    assert(sub_index(ix, p) == sub_index(Some(i), rest));
    assert(get_spec(a, p) == get_spec(child, rest));
    assert(flat_rows(a, k, ix, base) == head + arr_rows(its, 0, its.len() as int, base));
    assert(pre_rows(a, k, ix, base, p) == head + arr_rows(its, 0, i as int, base) + pre_rows(child, None, Some(i), b2, rest));
    assert(post_rows(a, k, ix, base, p) == post_rows(child, None, Some(i), b2, rest) + arr_rows(its, i + 1, its.len() as int, base));
    let r = flat_rows(get_spec(child, rest).unwrap(), sub_key(None, rest), sub_index(Some(i), rest), b2 + rest);
    assert(flat_rows(a, k, ix, base) =~= pre_rows(a, k, ix, base, p) + r + post_rows(a, k, ix, base, p));
}


/// Two documents that agree off the path to `p` have the same rows before and after the
/// block of `p`.
pub proof fn lemma_same_except_parts(a: JNode, b: JNode, k: Option<Seq<char>>, ix: Option<usize>, base: Seq<KeyV>, p: Seq<KeyV>)
    requires
        same_except(a, b, p),
        visible(a, p),
    ensures
        visible(b, p),
        pre_rows(a, k, ix, base, p) == pre_rows(b, k, ix, base, p),
        post_rows(a, k, ix, base, p) == post_rows(b, k, ix, base, p),
    decreases p.len(),
{
    if p.len() > 0 {
        let rest = p.drop_first();
        match a {
            JNode::Object { entries: ea, .. } => {
                let eb = b->entries;
                let s = p[0]->Field_0;
                lemma_find_key(ea@, s);
                let j = find_key(ea@, s).unwrap();
                assert forall|m: int| 0 <= m < ea@.len() implies ea@[m].0@ == eb@[m].0@ by {
                    if m != j {
                        assert(ea@[m] == eb@[m]);
                    }
                }
                lemma_find_key_congruent(ea@, eb@, s, 0);
                let b2 = base.push(KeyV::Field(ea@[j].0@));
                lemma_same_except_parts(ea@[j].1, eb@[j].1, Some(ea@[j].0@), None, b2, rest);
                lemma_obj_rows_congruent(ea@, eb@, 0, j, base);
                lemma_obj_rows_congruent(ea@, eb@, j + 1, ea@.len() as int, base);
            },
            JNode::Array { items: ia, .. } => {
                let ib = b->items;
                let i = p[0]->Index_0;
                let b2 = base.push(KeyV::Index(i));
                lemma_same_except_parts(ia@[i as int], ib@[i as int], None, Some(i), b2, rest);
                lemma_arr_rows_congruent(ia@, ib@, 0, i as int, base);
                lemma_arr_rows_congruent(ia@, ib@, i + 1, ia@.len() as int, base);
            },
            JNode::Scalar(_) => {},
        }
    }
}

/// No row before or after the block of `p` lies at or below `base + p`.
pub proof fn lemma_parts_avoid(a: JNode, k: Option<Seq<char>>, ix: Option<usize>, base: Seq<KeyV>, p: Seq<KeyV>)
    requires
        visible(a, p),
        wf_along(a, p),
    ensures
        avoid(pre_rows(a, k, ix, base, p), base + p),
        avoid(post_rows(a, k, ix, base, p), base + p),
    decreases p.len(),
{
    let t = base + p;
    if p.len() == 0 {
        assert(pre_rows(a, k, ix, base, p) =~= Seq::<RowV>::empty());
        assert(post_rows(a, k, ix, base, p) =~= Seq::<RowV>::empty());
    } else {
        let rest = p.drop_first();
        let head = seq![row_spec(k, ix, base)];
        assert(avoid(head, t));
        assert(t[base.len() as int] == p[0]);
        match a {
            JNode::Object { entries, .. } => {
                let es = entries@;
                let s = p[0]->Field_0;
                lemma_find_key(es, s);
                let j = find_key(es, s).unwrap();
                let kj = es[j].0@;
                let b2 = base.push(KeyV::Field(kj));
                assert(b2 + rest =~= t);
                lemma_parts_avoid(es[j].1, Some(kj), None, b2, rest);
                lemma_obj_rows_avoid(es, 0, j, base, t);
                lemma_obj_rows_avoid(es, j + 1, es.len() as int, base, t);
                lemma_avoid_concat(head, obj_rows(es, 0, j, base), t);
                lemma_avoid_concat(head + obj_rows(es, 0, j, base), pre_rows(es[j].1, Some(kj), None, b2, rest), t);
                lemma_avoid_concat(post_rows(es[j].1, Some(kj), None, b2, rest), obj_rows(es, j + 1, es.len() as int, base), t);
            },
            JNode::Array { items, .. } => {
                let its = items@;
                let i = p[0]->Index_0;
                let b2 = base.push(KeyV::Index(i));
                assert(b2 + rest =~= t);
                lemma_parts_avoid(its[i as int], None, Some(i), b2, rest);
                lemma_arr_rows_avoid(its, 0, i as int, base, t);
                lemma_arr_rows_avoid(its, i + 1, its.len() as int, base, t);
                lemma_avoid_concat(head, arr_rows(its, 0, i as int, base), t);
                lemma_avoid_concat(head + arr_rows(its, 0, i as int, base), pre_rows(its[i as int], None, Some(i), b2, rest), t);
                lemma_avoid_concat(post_rows(its[i as int], None, Some(i), b2, rest), arr_rows(its, i + 1, its.len() as int, base), t);
            },
            JNode::Scalar(_) => {},
        }
    }
}

pub proof fn lemma_first_path(rows: Seq<RowV>, t: Seq<KeyV>, i: int, s: int)
    requires
        0 <= i <= s < rows.len(),
        rows[s].path == t,
        forall|m: int| i <= m < s ==> rows[m].path != t,
    ensures
        first_path_from(rows, t, i) == Some(s),
    decreases s - i,
{
    if i < s {
        lemma_first_path(rows, t, i + 1, s);
    }
}

pub proof fn lemma_scan_end(rows: Seq<RowV>, t: Seq<KeyV>, e: int, f: int)
    requires
        0 <= e <= f <= rows.len(),
        forall|m: int| e <= m < f ==> is_prefix(t, #[trigger] rows[m].path),
        f == rows.len() || !is_prefix(t, rows[f].path),
    ensures
        scan_end(rows, t, e) == f,
    decreases f - e,
{
    if e < f {
        lemma_scan_end(rows, t, e + 1, f);
    }
}

/// Patching the listing of the old document for `target` gives exactly the listing of the new
/// document, whenever the two documents differ only at or below `target`, `target` is shown
/// in the old listing (no folded container above it) and the containers on the way to it are
/// well formed. The block for `target` starts with `target`'s own row.
pub proof fn law_patch_flat_matches_flatten(old_root: JNode, new_root: JNode, target: Seq<KeyV>)
    requires
        same_except(old_root, new_root, target),
        visible(old_root, target),
        wf_along(old_root, target),
    ensures
        flat_patch(flatten_spec(old_root), new_root, target) matches Some((s, n, rows)) && rows == flatten_spec(new_root)
            && 0 <= s < rows.len() && rows[s].path == target,
{
    let e: Seq<KeyV> = Seq::empty();
    assert(e + target =~= target);
    lemma_flat_decompose(old_root, None, None, e, target);
    lemma_same_except_parts(old_root, new_root, None, None, e, target);
    lemma_flat_decompose(new_root, None, None, e, target);
    lemma_parts_avoid(old_root, None, None, e, target);
    let pre = pre_rows(old_root, None, None, e, target);
    let post = post_rows(old_root, None, None, e, target);
    let so = get_spec(old_root, target).unwrap();
    let sn = get_spec(new_root, target).unwrap();
    let ro = flat_rows(so, ident_key(target), ident_index(target), target);
    let rn = flat_rows(sn, ident_key(target), ident_index(target), target);
    let old_rows = flatten_spec(old_root);
    assert(old_rows == pre + ro + post);
    assert(flatten_spec(new_root) == pre + rn + post);
    assert(target.subrange(0, target.len() as int) =~= target);
    assert forall|m: int| 0 <= m < pre.len() implies old_rows[m].path != target by {
        assert(old_rows[m] == pre[m]);
        assert(!is_prefix(target, pre[m].path));
    }
    assert(old_rows[pre.len() as int] == ro[0]);
    lemma_first_path(old_rows, target, 0, pre.len() as int);
    lemma_rows_prefix(so, ident_key(target), ident_index(target), target);
    let f: int = (pre.len() + ro.len()) as int;
    assert forall|m: int| pre.len() + 1 <= m < f implies is_prefix(target, #[trigger] old_rows[m].path) by {
        assert(old_rows[m] == ro[m - pre.len()]);
    }
    if f < old_rows.len() {
        assert(old_rows[f] == post[0]);
    }
    lemma_scan_end(old_rows, target, pre.len() + 1int, f);
    assert(old_rows.subrange(0, pre.len() as int) =~= pre);
    assert(old_rows.subrange(f, old_rows.len() as int) =~= post);
    let rows = flat_patch(old_rows, new_root, target).unwrap().2;
    assert(rows =~= flatten_spec(new_root));
    assert(rows[pre.len() as int] == rn[0]);
}

/// Looking up along a path made of two parts is looking up the first part, then the second
/// part from the node found there.
pub proof fn law_lookup_concat(root: JNode, p: Seq<KeyV>, q: Seq<KeyV>)
    ensures
        get_spec(root, p + q) == match get_spec(root, p) {
            Some(n) => get_spec(n, q),
            None => None,
        },
    decreases p.len(),
{
    if p.len() == 0 {
        assert(p + q =~= q);
    } else {
        assert((p + q)[0] == p[0]);
        assert((p + q).drop_first() =~= p.drop_first() + q);
        match child_at(root, p[0]) {
            Some(c) => {
                law_lookup_concat(c, p.drop_first(), q);
            },
            None => {},
        }
    }
}

/// Every node is the same as itself.
pub proof fn lemma_deep_same_refl(n: JNode)
    ensures
        deep_same(n, n),
    decreases n,
{
    match n {
        JNode::Object { entries, .. } => {
            assert forall|i: int| 0 <= i < entries@.len() implies deep_same((#[trigger] entries@[i]).1, entries@[i].1) by {
                assert(decreases_to!(n => entries));
                assert(decreases_to!(entries => entries@));
                assert(decreases_to!(entries@ => entries@[i]));
                assert(decreases_to!(entries@[i] => entries@[i].1));
                lemma_deep_same_refl(entries@[i].1);
            }
        },
        JNode::Array { items, .. } => {
            assert forall|i: int| 0 <= i < items@.len() implies deep_same(#[trigger] items@[i], items@[i]) by {
                assert(decreases_to!(n => items));
                assert(decreases_to!(items => items@));
                assert(decreases_to!(items@ => items@[i]));
                lemma_deep_same_refl(items@[i]);
            }
        },
        JNode::Scalar(_) => {},
    }
}

/// Two documents each differing from a third only at or below `p`, with the same node
/// there, are the same.
pub proof fn lemma_same_except_back(a: JNode, b: JNode, c: JNode, p: Seq<KeyV>)
    requires
        same_except(a, b, p),
        same_except(b, c, p),
        get_spec(a, p) is Some,
        get_spec(c, p) is Some,
        deep_same(get_spec(a, p).unwrap(), get_spec(c, p).unwrap()),
    ensures
        deep_same(a, c),
    decreases p.len(),
{
    if p.len() == 0 {
    } else {
        let rest = p.drop_first();
        match a {
            JNode::Object { entries: ea, .. } => {
                let eb = b->entries;
                let ec = c->entries;
                let k = p[0]->Field_0;
                lemma_find_key(ea@, k);
                let j = find_key(ea@, k).unwrap();
                assert forall|m: int| 0 <= m < ea@.len() implies ea@[m].0@ == eb@[m].0@ by {
                    if m != j {
                        assert(ea@[m] == eb@[m]);
                    }
                }
                lemma_find_key_congruent(ea@, eb@, k, 0);
                assert forall|m: int| 0 <= m < eb@.len() implies eb@[m].0@ == ec@[m].0@ by {
                    if m != j {
                        assert(eb@[m] == ec@[m]);
                    }
                }
                lemma_find_key_congruent(eb@, ec@, k, 0);
                assert forall|m: int| 0 <= m < ea@.len() implies deep_same((#[trigger] ea@[m]).1, ec@[m].1) by {
                    if m != j {
                        assert(ea@[m] == eb@[m]);
                        assert(eb@[m] == ec@[m]);
                        lemma_deep_same_refl(ea@[m].1);
                    } else {
                        lemma_same_except_back(ea@[j].1, eb@[j].1, ec@[j].1, rest);
                    }
                }
                assert forall|m: int| 0 <= m < ea@.len() implies (#[trigger] ec@[m]).0@ == ea@[m].0@ by {
                    if m != j {
                        assert(ea@[m] == eb@[m]);
                        assert(eb@[m] == ec@[m]);
                    }
                }
            },
            JNode::Array { items: ia, .. } => {
                let ib = b->items;
                let ic = c->items;
                let i = p[0]->Index_0;
                assert forall|m: int| 0 <= m < ia@.len() implies deep_same(#[trigger] ia@[m], ic@[m]) by {
                    if m != i {
                        assert(ia@[m] == ib@[m]);
                        assert(ib@[m] == ic@[m]);
                        lemma_deep_same_refl(ia@[m]);
                    } else {
                        lemma_same_except_back(ia@[m], ib@[m], ic@[m], rest);
                    }
                }
            },
            JNode::Scalar(_) => {},
        }
    }
}

/// A shown node's container is shown and unfolded, and holds it.
pub proof fn lemma_visible_parent(n: JNode, p: Seq<KeyV>)
    requires
        visible(n, p),
        p.len() > 0,
    ensures
        visible(n, p.drop_last()),
        get_spec(n, p.drop_last()) matches Some(x) && !is_collapsed_spec(x) && child_at(x, p.last()) == get_spec(n, p),
        get_spec(n, p) is Some,
    decreases p.len(),
{
    let c = child_at(n, p[0]).unwrap();
    let rest = p.drop_first();
    if p.len() == 1 {
        assert(p.drop_last() =~= Seq::<KeyV>::empty());
        assert(rest =~= Seq::<KeyV>::empty());
    } else {
        lemma_visible_parent(c, rest);
        assert(p.drop_last().drop_first() =~= rest.drop_last());
        assert(p.drop_last()[0] == p[0]);
        assert(rest.last() == p.last());
    }
}

/// A child of a shown, unfolded node is shown.
pub proof fn lemma_visible_child(n: JNode, pp: Seq<KeyV>, k: KeyV)
    requires
        visible(n, pp),
        get_spec(n, pp) matches Some(x) && !is_collapsed_spec(x) && child_at(x, k) is Some,
    ensures
        visible(n, pp.push(k)),
    decreases pp.len(),
{
    let q = pp.push(k);
    if pp.len() == 0 {
        assert(q.drop_first() =~= Seq::<KeyV>::empty());
        assert(q[0] == k);
        let c = child_at(n, k).unwrap();
        assert(visible(c, q.drop_first()));
    } else {
        let c = child_at(n, pp[0]).unwrap();
        lemma_visible_child(c, pp.drop_first(), k);
        assert(q.drop_first() =~= pp.drop_first().push(k));
        assert(q[0] == pp[0]);
        assert(visible(c, q.drop_first()));
    }
}

/// A document that differs from another only at or below `p` shows `p` as the other does.
pub proof fn lemma_visible_same_except(a: JNode, b: JNode, p: Seq<KeyV>)
    requires
        same_except(a, b, p),
        visible(a, p),
    ensures
        visible(b, p),
    decreases p.len(),
{
    if p.len() > 0 {
        let rest = p.drop_first();
        match a {
            JNode::Object { entries: ea, .. } => {
                let eb = b->entries;
                let k = p[0]->Field_0;
                lemma_find_key(ea@, k);
                let j = find_key(ea@, k).unwrap();
                assert forall|m: int| 0 <= m < ea@.len() implies ea@[m].0@ == eb@[m].0@ by {
                    if m != j {
                        assert(ea@[m] == eb@[m]);
                    }
                }
                lemma_find_key_congruent(ea@, eb@, k, 0);
                lemma_visible_same_except(ea@[j].1, eb@[j].1, rest);
            },
            JNode::Array { items: ia, .. } => {
                let ib = b->items;
                let i = p[0]->Index_0;
                lemma_visible_same_except(ia@[i as int], ib@[i as int], rest);
            },
            JNode::Scalar(_) => {},
        }
    }
}

/// A row with path `t` at `s` or later (from `i` on) makes the search for `t` find a row with
/// that path.
pub proof fn lemma_first_path_found(rows: Seq<RowV>, t: Seq<KeyV>, i: int, s: int)
    requires
        0 <= i <= s < rows.len(),
        rows[s].path == t,
    ensures
        first_path_from(rows, t, i) matches Some(pos) && 0 <= pos < rows.len() && rows[pos].path == t,
    decreases s - i,
{
    if rows[i].path != t {
        lemma_first_path_found(rows, t, i + 1, s);
    }
}

/// A shown node has a row in the listing, which the search for its path finds.
pub proof fn lemma_visible_row(root: JNode, t: Seq<KeyV>)
    requires
        visible(root, t),
    ensures
        first_path_from(flatten_spec(root), t, 0) matches Some(pos) && 0 <= pos < flatten_spec(root).len()
            && flatten_spec(root)[pos].path == t,
{
    let e: Seq<KeyV> = Seq::empty();
    lemma_flat_decompose(root, None, None, e, t);
    let pre = pre_rows(root, None, None, e, t);
    let node = get_spec(root, t).unwrap();
    let block = flat_rows(node, sub_key(None, t), sub_index(None, t), e + t);
    let rows = flatten_spec(root);
    assert(e + t =~= t);
    assert(block[0].path == t);
    assert(rows[pre.len() as int] == block[0]);
    lemma_first_path_found(rows, t, 0, pre.len() as int);
}

/// The containers along a path with distinct keys include the one holding its last step.
pub proof fn lemma_wf_along_parent(n: JNode, p: Seq<KeyV>)
    requires
        wf_along(n, p),
        p.len() > 0,
    ensures
        get_spec(n, p.drop_last()) matches Some(JNode::Object { entries, .. }) ==> keys_distinct(entries@),
    decreases p.len(),
{
    if p.len() == 1 {
        assert(p.drop_last() =~= Seq::<KeyV>::empty());
    } else {
        match child_at(n, p[0]) {
            Some(c) => {
                lemma_wf_along_parent(c, p.drop_first());
                assert(p.drop_last().drop_first() =~= p.drop_first().drop_last());
                assert(p.drop_last()[0] == p[0]);
            },
            None => {
                assert(p.drop_last()[0] == p[0]);
            },
        }
    }
}

} // verus!
