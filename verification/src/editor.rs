//! The editor: the document, its flat listing and pretty lines, the cursor, the edit dialog,
//! the clipboard, and how each key changes them.
use vstd::prelude::*;
use crate::text::{append, bool_text, bool_to_string, chars_of, push_char, push_decimal, string_of, text_eq, trim, trim_spec};
use crate::pretty::{annotate, annotate_spec, AnnotatedLine, LineV};
use crate::tree::{
    clone_node, clone_path, deep_same, find_entry, find_key, first_path_from, flatten, flatten_spec, get_node_at_path,
    get_node_at_path_mut, get_spec, is_collapsed_spec, is_prefix, refold, refolded, lemma_find_key, path_eq, same_except, set_node_at_path, starts_with, visible, wf_along, FlatRow,
    JKey, JNode, JPath, JScalar, KeyV, RowV,
};
use crate::keys::{Key, KeyPress};
use crate::lint::{lint, lint_full, LintWarning, WarnV};
use crate::search::{lemma_search_hits, search_hits, search_matches};

verus! {

// ---------------------------------------------------------------------------
// Edits of the tree
// ---------------------------------------------------------------------------

/// `new` is `old` with the node at `p` replaced by `y`.
pub open spec fn replaced_at(old: JNode, new: JNode, p: Seq<KeyV>, y: JNode) -> bool {
    same_except(old, new, p) && get_spec(new, p) == Some(y)
}

/// `y` is the container `x` with its folding flipped.
pub open spec fn flipped(x: JNode, y: JNode) -> bool {
    match x {
        JNode::Object { entries, collapsed } => y == (JNode::Object { entries, collapsed: !collapsed }),
        JNode::Array { items, collapsed } => y == (JNode::Array { items, collapsed: !collapsed }),
        JNode::Scalar(_) => y == x,
    }
}

/// `new` is `old` with the folding of the container at `p` flipped; the same tree when `p`
/// leads nowhere or to a scalar.
pub open spec fn toggled(old: JNode, new: JNode, p: Seq<KeyV>) -> bool {
    match get_spec(old, p) {
        Some(x) => if x is Scalar {
            new == old
        } else {
            exists|y: JNode| flipped(x, y) && #[trigger] replaced_at(old, new, p, y)
        },
        None => new == old,
    }
}

/// Flips the folding of the container at `path`; nothing happens when `path` leads nowhere or
/// to a scalar.
pub fn toggle_node_collapse(node: &mut JNode, path: &[JKey])
    ensures
        toggled(*old(node), *final(node), path.deep_view()),
{
    match get_node_at_path(node, path) {
        None => {
            return;
        },
        Some(JNode::Scalar(_)) => {
            return;
        },
        _ => {},
    }
    let ghost y: JNode;
    match get_node_at_path_mut(node, path) {
        Some(target) => {
            let ghost x = *target;
            match target {
                JNode::Object { collapsed, .. } => {
                    *collapsed = !*collapsed;
                },
                JNode::Array { collapsed, .. } => {
                    *collapsed = !*collapsed;
                },
                JNode::Scalar(_) => {},
            }
            proof {
                y = *target;
            }
            assert(flipped(x, y));
        },
        None => {},
    }
    assert(replaced_at(*old(node), *node, path.deep_view(), y));
}

/// `base` with a suffix.
fn suffixed(base: &str, suffix: &str) -> (r: String)
    ensures
        r@ == base@ + suffix@,
{
    let mut r = String::from_str(base);
    append(&mut r, suffix);
    r
}

/// Some entry has the key `k`.
pub open spec fn has_key(es: Seq<(String, JNode)>, k: Seq<char>) -> bool {
    find_key(es, k) is Some
}

/// `base_n` for a number `n`.
pub open spec fn numbered(base: Seq<char>, n: nat) -> Seq<char> {
    base + "_"@ + crate::text::decimal(n)
}

/// The first of `base_i` for `i` in `from..=99` that no entry has, if any.
pub open spec fn free_numbered(es: Seq<(String, JNode)>, base: Seq<char>, from: nat) -> Option<Seq<char>>
    decreases 100 - from,
{
    if from > 99 {
        None
    } else if !has_key(es, numbered(base, from)) {
        Some(numbered(base, from))
    } else {
        free_numbered(es, base, from + 1)
    }
}

/// A key for a copy of `base`: `base_copy`, else the first free `base_2` ... `base_99`, else
/// `base_copy` after all.
pub open spec fn unique_key_spec(es: Seq<(String, JNode)>, base: Seq<char>) -> Seq<char> {
    let candidate = base + "_copy"@;
    if !has_key(es, candidate) {
        candidate
    } else {
        match free_numbered(es, base, 2) {
            Some(k) => k,
            None => candidate,
        }
    }
}

/// A key for a copy of the entry `base` that the object does not have yet (see
/// `unique_key_spec`).
pub fn unique_key(entries: &Vec<(String, JNode)>, base: &str) -> (r: String)
    ensures
        r@ == unique_key_spec(entries@, base@),
{
    let candidate = suffixed(base, "_copy");
    if find_entry(entries, &candidate).is_none() {
        return candidate;
    }
    let mut i: usize = 2;
    while i <= 99
        invariant
            2 <= i <= 100,
            has_key(entries@, base@ + "_copy"@),
            candidate@ == base@ + "_copy"@,
            free_numbered(entries@, base@, 2) == free_numbered(entries@, base@, i as nat),
        decreases 100 - i,
    {
        let mut c = suffixed(base, "_");
        push_decimal(&mut c, i);
        assert(c@ == numbered(base@, i as nat));
        if find_entry(entries, &c).is_none() {
            return c;
        }
        i = i + 1;
    }
    candidate
}


/// The object `x` with the entry of key `k` removed (unchanged when it has none).
pub open spec fn obj_without(x: JNode, y: JNode, k: Seq<char>) -> bool {
    match (x, y) {
        (JNode::Object { entries: ea, collapsed: ca }, JNode::Object { entries: eb, collapsed: cb }) => {
            &&& cb == ca
            &&& eb@ == match find_key(ea@, k) {
                Some(j) => ea@.remove(j),
                None => ea@,
            }
        },
        _ => false,
    }
}

/// The array `x` with the item at `i` removed.
pub open spec fn arr_without(x: JNode, y: JNode, i: usize) -> bool {
    match (x, y) {
        (JNode::Array { items: ia, collapsed: ca }, JNode::Array { items: ib, collapsed: cb }) => {
            cb == ca && ib@ == ia@.remove(i as int)
        },
        _ => false,
    }
}

// ---------------------------------------------------------------------------
// The editor's state
// ---------------------------------------------------------------------------

/// The names of the node types offered by the edit dialog, in its order.
pub const EDIT_TYPES: [&'static str; 6] = ["Object", "Array", "String", "Number", "Boolean", "Null"];

/// Whether the dialog edits an existing node, adds a child to a container, or adds a
/// sibling right after a scalar.
#[derive(Debug, Clone, Copy, PartialEq, Eq, Structural)]
pub enum EditMode {
    Edit,
    AddChild,
    AddSibling,
}

/// The step of the dialog: choosing a type, typing a key, typing a value. The text steps
/// hold the text typed so far.
#[derive(Debug, PartialEq)]
pub enum EditPhase {
    TypeSelect,
    KeyEdit(String),
    ValueEdit(String),
}

/// The edit dialog. `path` is the node edited, the container a child is added to, or the
/// scalar a sibling is added after.
#[derive(Debug)]
pub struct EditState {
    pub path: JPath,
    pub mode: EditMode,
    pub original: Option<JNode>,
    pub phase: EditPhase,
    pub type_cursor: usize,
    pub pending_key: Option<String>,
}

/// The editor.
pub struct App {
    pub root: JNode,
    pub flat: Vec<FlatRow>,
    pub annotated: Vec<AnnotatedLine>,
    pub cursor: usize,
    pub scroll: usize,
    pub left_scroll: usize,
    pub file: Option<String>,
    pub modified: bool,
    pub status: String,
    pub quit: bool,
    pub confirm_quit: bool,
    pub edit: Option<EditState>,
    pub clipboard: Option<JNode>,
    pub show_left: bool,
    pub show_preview: bool,
    pub save_dialog: bool,
    pub history: Vec<JNode>,
    pub future: Vec<JNode>,
    pub rename_input: Option<String>,
    pub lint_warnings: Vec<LintWarning>,
    pub lint_cursor: usize,
    pub search_active: bool,
    pub search_query: String,
    pub search_match_cursor: usize,
    pub pending_g: bool,
}

/// The most documents kept for undo.
pub const UNDO_LEVELS: usize = 50;

/// The cursor kept within `len` rows.
pub open spec fn clamp_cursor(c: usize, len: nat) -> usize {
    if c >= len {
        if len == 0 { 0 } else { (len - 1) as usize }
    } else {
        c
    }
}

impl App {
    /// The listing, the pretty lines and the lint warnings are those of the document.
    pub open spec fn views_fresh(&self) -> bool {
        &&& self.flat.deep_view() == flatten_spec(self.root)
        &&& self.annotated.deep_view() == annotate_spec(self.root)
        &&& self.lint_warnings.deep_view() == lint_full(self.root)
    }

    /// Every field but the document, its views, the cursor and the modified flag is as in `o`.
    pub open spec fn same_but_doc(&self, o: &App) -> bool {
        &&& self.scroll == o.scroll
        &&& self.left_scroll == o.left_scroll
        &&& self.file == o.file
        &&& self.status == o.status
        &&& self.quit == o.quit
        &&& self.confirm_quit == o.confirm_quit
        &&& self.edit == o.edit
        &&& self.clipboard == o.clipboard
        &&& self.show_left == o.show_left
        &&& self.show_preview == o.show_preview
        &&& self.save_dialog == o.save_dialog
        &&& self.history == o.history
        &&& self.future == o.future
        &&& self.rename_input == o.rename_input
        &&& self.lint_cursor == o.lint_cursor
        &&& self.search_active == o.search_active
        &&& self.search_query == o.search_query
        &&& self.search_match_cursor == o.search_match_cursor
        &&& self.pending_g == o.pending_g
    }

    /// The path of the cursor row (the root when there is none).
    pub open spec fn cursor_path(&self) -> Seq<KeyV> {
        if self.cursor < self.flat@.len() {
            self.flat@[self.cursor as int].deep_view().path
        } else {
            Seq::empty()
        }
    }

    /// The views were rebuilt from the document and the cursor kept within them.
    pub open spec fn refreshed_from(&self, o: &App) -> bool {
        &&& self.views_fresh()
        &&& self.cursor == clamp_cursor(o.cursor, flatten_spec(self.root).len())
    }

    /// The views were rebuilt, the cursor put on the first row at `p` when there is one (else
    /// kept within the rows).
    pub open spec fn refreshed_at(&self, o: &App, p: Option<Seq<KeyV>>) -> bool {
        &&& self.views_fresh()
        &&& self.cursor == match p {
            Some(q) => match first_path_from(flatten_spec(self.root), q, 0) {
                Some(pos) => pos as usize,
                None => clamp_cursor(o.cursor, flatten_spec(self.root).len()),
            },
            None => clamp_cursor(o.cursor, flatten_spec(self.root).len()),
        }
    }

    /// A new editor on a document, with the status line shown first.
    pub fn new(root: JNode, file: Option<String>, status: String) -> (app: App)
        ensures
            app.root == root,
            app.views_fresh(),
            app.cursor == 0 && app.scroll == 0 && app.left_scroll == 0,
            app.file == file,
            app.status == status,
            !app.modified && !app.quit && !app.confirm_quit,
            app.edit is None && app.clipboard is None,
            app.show_left && app.show_preview,
            !app.save_dialog && app.history@.len() == 0 && app.future@.len() == 0,
            app.lint_cursor == 0 && !app.search_active && app.search_query@.len() == 0,
            app.search_match_cursor == 0 && !app.pending_g && app.rename_input is None,
    {
        let flat = flatten(&root);
        let annotated = annotate(&root);
        let lint_warnings = lint(&root);
        App {
            root,
            flat,
            annotated,
            cursor: 0,
            scroll: 0,
            left_scroll: 0,
            file,
            modified: false,
            status,
            quit: false,
            confirm_quit: false,
            edit: None,
            clipboard: None,
            show_left: true,
            show_preview: true,
            save_dialog: false,
            history: Vec::new(),
            future: Vec::new(),
            rename_input: None,
            lint_warnings,
            lint_cursor: 0,
            search_active: false,
            search_query: String::new(),
            search_match_cursor: 0,
            pending_g: false,
        }
    }

    /// Rebuilds the listing and the pretty lines, keeping the cursor within the rows.
    pub fn refresh_flat(&mut self)
        ensures
            final(self).root == old(self).root,
            final(self).modified == old(self).modified,
            final(self).same_but_doc(old(self)),
            final(self).refreshed_from(old(self)),
    {
        self.flat = flatten(&self.root);
        self.annotated = annotate(&self.root);
        self.lint_warnings = lint(&self.root);
        if self.cursor >= self.flat.len() {
            self.cursor = if self.flat.len() == 0 { 0 } else { self.flat.len() - 1 };
        }
    }

    /// Rebuilds the views and puts the cursor on the first row at `p`, if there is one.
    fn refresh_at(&mut self, p: Option<JPath>)
        ensures
            final(self).root == old(self).root,
            final(self).modified == old(self).modified,
            final(self).same_but_doc(old(self)),
            final(self).refreshed_at(old(self), p.deep_view()),
    {
        self.refresh_flat();
        let ghost pv = p.deep_view();
        match p {
            Some(np) => {
                let mut i: usize = 0;
                while i < self.flat.len()
                    invariant
                        i <= self.flat@.len(),
                        self.root == old(self).root,
                        self.modified == old(self).modified,
                        self.same_but_doc(old(self)),
                        self.refreshed_from(old(self)),
                        self.flat.deep_view() == flatten_spec(self.root),
                        pv == Some(np.deep_view()),
                        pv == p.deep_view(),
                        first_path_from(flatten_spec(self.root), np.deep_view(), 0) == first_path_from(
                            flatten_spec(self.root),
                            np.deep_view(),
                            i as int,
                        ),
                    decreases self.flat@.len() - i,
                {
                    assert(self.flat.deep_view()[i as int] == self.flat@[i as int].deep_view());
                    if path_eq(&self.flat[i].path, &np) {
                        assert(flatten_spec(self.root)[i as int].path == np.deep_view());
                        assert(first_path_from(flatten_spec(self.root), np.deep_view(), i as int) == Some(i as int));
                        self.cursor = i;
                        return;
                    }
                    i = i + 1;
                }
            },
            None => {},
        }
    }

    /// The path of the cursor row (the root when there is none).
    pub fn current_path(&self) -> (p: JPath)
        ensures
            p.deep_view() == self.cursor_path(),
    {
        if self.cursor < self.flat.len() {
            clone_path(&self.flat[self.cursor].path)
        } else {
            let p: Vec<JKey> = Vec::new();
            assert(p.deep_view() =~= Seq::<KeyV>::empty());
            p
        }
    }
}


/// The first `n` steps of a path.
fn path_prefix(p: &[JKey], n: usize) -> (r: Vec<JKey>)
    requires
        n <= p@.len(),
    ensures
        r.deep_view() == p.deep_view().subrange(0, n as int),
{
    let mut r: Vec<JKey> = Vec::new();
    let mut i: usize = 0;
    while i < n
        invariant
            i <= n <= p@.len(),
            r@ == p@.subrange(0, i as int),
        decreases n - i,
    {
        r.push(crate::tree::clone_key(&p[i]));
        i = i + 1;
        assert(r@ =~= p@.subrange(0, i as int));
    }
    assert(r.deep_view() =~= p.deep_view().subrange(0, n as int));
    r
}

/// The document changed: views rebuilt (cursor kept within them), marked modified, nothing
/// else touched.
pub open spec fn doc_touched(o: App, f: App) -> bool {
    &&& f.refreshed_from(&o)
    &&& f == (App { root: f.root, flat: f.flat, annotated: f.annotated, lint_warnings: f.lint_warnings, cursor: f.cursor, modified: true, ..o })
}

/// The document changed and the cursor went to the first row at `p`.
pub open spec fn doc_touched_at(o: App, f: App, p: Option<Seq<KeyV>>) -> bool {
    &&& f.refreshed_at(&o, p)
    &&& f == (App { root: f.root, flat: f.flat, annotated: f.annotated, lint_warnings: f.lint_warnings, cursor: f.cursor, modified: true, ..o })
}

/// Only the status line changed, to `msg`.
pub open spec fn status_set(o: App, f: App, msg: Seq<char>) -> bool {
    f.status@ == msg && f == (App { status: f.status, ..o })
}

/// What deleting the cursor's node does: nothing without a cursor row, a message for the
/// root, else its container (found by the row's path) loses it; a step that does not fit
/// the container changes nothing.
pub open spec fn delete_spec(o: App, f: App) -> bool {
    if o.cursor >= o.flat@.len() {
        f == o
    } else {
        let p = o.cursor_path();
        if p.len() == 0 {
            status_set(o, f, "cannot delete root"@)
        } else {
            let pp = p.drop_last();
            match get_spec(o.root, pp) {
                None => f.root == o.root && doc_touched(o, f),
                Some(x) => match (x, p.last()) {
                    (JNode::Object { .. }, KeyV::Field(k)) => doc_touched(o, f) && exists|y: JNode|
                        obj_without(x, y, k) && #[trigger] replaced_at(o.root, f.root, pp, y),
                    (JNode::Array { items, .. }, KeyV::Index(i)) => doc_touched(o, f) && if i < items@.len() {
                        exists|y: JNode| arr_without(x, y, i) && #[trigger] replaced_at(o.root, f.root, pp, y)
                    } else {
                        f.root == o.root
                    },
                    _ => f == o,
                },
            }
        }
    }
}

impl App {
    /// Deletes the cursor's node from its container (see `delete_spec`).
    pub fn delete_node(&mut self)
        ensures
            delete_spec(*old(self), *final(self)),
    {
        if self.cursor >= self.flat.len() {
            return;
        }
        let path = clone_path(&self.flat[self.cursor].path);
        assert(path.deep_view() == self.cursor_path());
        if path.len() == 0 {
            self.status = String::from_str("cannot delete root");
            proof { reveal_strlit("cannot delete root"); }
            return;
        }
        let n = path.len();
        let parent_path = path_prefix(path.as_slice(), n - 1);
        let last = crate::tree::clone_key(&path[n - 1]);
        proof {
            assert(parent_path.deep_view() =~= path.deep_view().drop_last());
            assert(last.deep_view() == path.deep_view().last());
        }
        let mutate: bool = match get_node_at_path(&self.root, &parent_path) {
            None => false,
            Some(JNode::Object { .. }) => match &last {
                JKey::Field(_) => true,
                _ => {
                    return;
                },
            },
            Some(JNode::Array { items, .. }) => match &last {
                JKey::Index(i) => *i < items.len(),
                _ => {
                    return;
                },
            },
            Some(JNode::Scalar(_)) => {
                return;
            },
        };
        let ghost o = *old(self);
        let ghost y: JNode;
        if mutate {
            match get_node_at_path_mut(&mut self.root, &parent_path) {
                Some(parent) => {
                    let ghost x = *parent;
                    match parent {
                        JNode::Object { entries, .. } => match &last {
                            JKey::Field(k) => {
                                proof { lemma_find_key(entries@, k@); }
                                match find_entry(entries, k) {
                                    Some(j) => {
                                        entries.remove(j);
                                    },
                                    None => {},
                                }
                            },
                            _ => {},
                        },
                        JNode::Array { items, .. } => match &last {
                            JKey::Index(i) => {
                                if *i < items.len() {
                                    items.remove(*i);
                                }
                            },
                            _ => {},
                        },
                        JNode::Scalar(_) => {},
                    }
                    proof {
                        y = *parent;
                    }
                },
                None => {},
            }
            assert(replaced_at(o.root, self.root, parent_path.deep_view(), y));
        }
        self.refresh_flat();
        self.modified = true;
    }
}


/// The container `x` with its children at `a` and `b` exchanged.
pub open spec fn swapped(x: JNode, y: JNode, a: int, b: int) -> bool {
    match (x, y) {
        (JNode::Array { items: ia, collapsed: ca }, JNode::Array { items: ib, collapsed: cb }) => {
            cb == ca && ib@ == ia@.update(a, ia@[b]).update(b, ia@[a])
        },
        (JNode::Object { entries: ea, collapsed: ca }, JNode::Object { entries: eb, collapsed: cb }) => {
            cb == ca && eb@ == ea@.update(a, ea@[b]).update(b, ea@[a])
        },
        _ => false,
    }
}

/// What moving the cursor's node up (or down) among its siblings does: it trades places with
/// its neighbour and the cursor follows it; nothing happens at either end, for the root, or
/// without a cursor row.
pub open spec fn move_spec(o: App, f: App, up: bool) -> bool {
    let p = o.cursor_path();
    if o.cursor >= o.flat@.len() || p.len() == 0 {
        f == o
    } else {
        let pp = p.drop_last();
        match get_spec(o.root, pp) {
            Some(x) => match (x, p.last()) {
                (JNode::Array { items, .. }, KeyV::Index(i)) => if i < items@.len() && up && i > 0 {
                    doc_touched_at(o, f, Some(pp.push(KeyV::Index((i - 1) as usize)))) && exists|y: JNode|
                        swapped(x, y, i as int, i - 1) && #[trigger] replaced_at(o.root, f.root, pp, y)
                } else if i < items@.len() && !up && i + 1 < items@.len() {
                    doc_touched_at(o, f, Some(pp.push(KeyV::Index((i + 1) as usize)))) && exists|y: JNode|
                        swapped(x, y, i as int, i + 1) && #[trigger] replaced_at(o.root, f.root, pp, y)
                } else {
                    f == o
                },
                (JNode::Object { entries, .. }, KeyV::Field(k)) => match find_key(entries@, k) {
                    Some(idx) => if up && idx > 0 {
                        doc_touched_at(o, f, Some(p)) && exists|y: JNode| swapped(x, y, idx, idx - 1)
                            && #[trigger] replaced_at(o.root, f.root, pp, y)
                    } else if !up && idx + 1 < entries@.len() {
                        doc_touched_at(o, f, Some(p)) && exists|y: JNode| swapped(x, y, idx, idx + 1)
                            && #[trigger] replaced_at(o.root, f.root, pp, y)
                    } else {
                        f == o
                    },
                    None => f == o,
                },
                _ => f == o,
            },
            None => f == o,
        }
    }
}

/// Exchanges the items at `a` and `b = a - 1` or `a + 1`.
fn swap_adjacent<T>(v: &mut Vec<T>, a: usize, b: usize)
    requires
        a < old(v)@.len(),
        b < old(v)@.len(),
        b + 1 == a || a + 1 == b,
    ensures
        final(v)@ == old(v)@.update(a as int, old(v)@[b as int]).update(b as int, old(v)@[a as int]),
{
    let x = v.remove(a);
    v.insert(b, x);
    assert(v@ =~= old(v)@.update(a as int, old(v)@[b as int]).update(b as int, old(v)@[a as int]));
}

// ---------------------------------------------------------------------------
// Sorting an object by key
// ---------------------------------------------------------------------------

/// `a` comes before `b` or equals it, comparing characters by their code points (the order
/// of `String`).
pub open spec fn key_le(a: Seq<char>, b: Seq<char>) -> bool
    decreases a.len(),
{
    if a.len() == 0 {
        true
    } else if b.len() == 0 {
        false
    } else if a[0] != b[0] {
        a[0] < b[0]
    } else {
        key_le(a.drop_first(), b.drop_first())
    }
}

proof fn lemma_key_le_total(a: Seq<char>, b: Seq<char>)
    ensures
        key_le(a, b) || key_le(b, a),
    decreases a.len(),
{
    if a.len() > 0 && b.len() > 0 && a[0] == b[0] {
        lemma_key_le_total(a.drop_first(), b.drop_first());
    }
}

proof fn lemma_key_le_trans(a: Seq<char>, b: Seq<char>, c: Seq<char>)
    requires
        key_le(a, b),
        key_le(b, c),
    ensures
        key_le(a, c),
    decreases a.len(),
{
    if a.len() > 0 && b.len() > 0 && c.len() > 0 && a[0] == b[0] && b[0] == c[0] {
        lemma_key_le_trans(a.drop_first(), b.drop_first(), c.drop_first());
    }
}

/// Whether `a` comes before `b` or equals it (see `key_le`).
fn key_le_text(a: &str, b: &str) -> (r: bool)
    ensures
        r == key_le(a@, b@),
{
    let x = chars_of(a);
    let y = chars_of(b);
    let mut i: usize = 0;
    assert(a@.skip(0) =~= a@ && b@.skip(0) =~= b@);
    while i < x.len() && i < y.len() && x[i] == y[i]
        invariant
            x@ == a@,
            y@ == b@,
            i <= x@.len(),
            i <= y@.len(),
            key_le(a@, b@) == key_le(a@.skip(i as int), b@.skip(i as int)),
        decreases x@.len() - i,
    {
        assert(a@.skip(i as int).drop_first() =~= a@.skip(i + 1));
        assert(b@.skip(i as int).drop_first() =~= b@.skip(i + 1));
        i = i + 1;
    }
    let ghost sa = a@.skip(i as int);
    let ghost sb = b@.skip(i as int);
    if i == x.len() {
        assert(sa.len() == 0);
        true
    } else if i == y.len() {
        assert(sa.len() > 0 && sb.len() == 0);
        false
    } else {
        assert(sa[0] == x@[i as int] && sb[0] == y@[i as int]);
        assert(x@[i as int] != y@[i as int]);
        let c = x[i];
        let d = y[i];
        c < d
    }
}

/// `perm` lists each index below `n` once.
pub open spec fn is_perm(perm: Seq<int>, n: int) -> bool {
    &&& perm.len() == n
    &&& forall|k: int| 0 <= k < n ==> 0 <= #[trigger] perm[k] < n
    &&& forall|a: int, b: int| 0 <= a < b < n ==> perm[a] != perm[b]
}

/// `res` holds the entries of `orig` in order of their keys.
pub open spec fn sorted_by_key(orig: Seq<(String, JNode)>, res: Seq<(String, JNode)>) -> bool {
    &&& res.len() == orig.len()
    &&& exists|perm: Seq<int>| #[trigger] is_perm(perm, orig.len() as int) && forall|k: int|
        0 <= k < orig.len() ==> res[k] == orig[#[trigger] perm[k]]
    &&& forall|a: int, b: int| 0 <= a < b < res.len() ==> key_le(res[a].0@, res[b].0@)
}

/// Puts the entries in order of their keys (insertion sort).
fn sort_entries(v: &mut Vec<(String, JNode)>)
    ensures
        sorted_by_key(old(v)@, final(v)@),
{
    let ghost orig = v@;
    let ghost mut perm: Seq<int> = Seq::new(orig.len(), |k: int| k);
    let n = v.len();
    let mut i: usize = 0;
    while i < n
        invariant
            n == v@.len(),
            n == orig.len(),
            i <= n,
            is_perm(perm, n as int),
            forall|k: int| 0 <= k < n ==> v@[k] == orig[#[trigger] perm[k]],
            forall|a: int, b: int| 0 <= a < b < i ==> key_le(v@[a].0@, v@[b].0@),
        decreases n - i,
    {
        let mut j: usize = i;
        while j > 0 && !key_le_text(v[j - 1].0.as_str(), v[j].0.as_str())
            invariant
                n == v@.len(),
                n == orig.len(),
                j <= i < n,
                is_perm(perm, n as int),
                forall|k: int| 0 <= k < n ==> v@[k] == orig[#[trigger] perm[k]],
                forall|a: int, b: int| 0 <= a < b <= i && a != j && b != j ==> key_le(v@[a].0@, v@[b].0@),
                forall|b: int| j < b <= i ==> key_le(v@[j as int].0@, v@[b].0@),
            decreases j,
        {
            let ghost w = v@;
            proof {
                lemma_key_le_total(w[j - 1].0@, w[j as int].0@);
            }
            swap_adjacent(v, j - 1, j);
            proof {
                let p0 = perm;
                perm = perm.update(j - 1, p0[j as int]).update(j as int, p0[j - 1]);
                assert forall|k: int| 0 <= k < n implies v@[k] == orig[#[trigger] perm[k]] by {
                    if k == j - 1 {
                    } else if k == j as int {
                    } else {
                        assert(v@[k] == w[k]);
                    }
                }
                assert forall|a: int, b: int| 0 <= a < b < n implies perm[a] != perm[b] by {
                    assert(p0[a] != p0[b]);
                    if a == j - 1 && b == j as int {
                    } else if a == j - 1 {
                        assert(p0[j as int] != p0[b]);
                    } else if a == j as int {
                        assert(p0[j - 1] != p0[b]);
                    } else if b == j - 1 {
                        assert(p0[a] != p0[j as int]);
                    } else if b == j as int {
                        assert(p0[a] != p0[j - 1]);
                    }
                }
            }
            j = j - 1;
        }
        proof {
            let w = v@;
            assert forall|a: int, b: int| #![trigger w[a], w[b]] 0 <= a < b <= i implies key_le(w[a].0@, w[b].0@) by {
                if b == j as int {
                    if a < j - 1 {
                        lemma_key_le_trans(w[a].0@, w[j - 1].0@, w[j as int].0@);
                    }
                } else if a == j as int {
                } else {
                }
            }
        }
        i = i + 1;
    }
    assert(is_perm(perm, orig.len() as int));
}

/// `new` is `old` with the entries of the object at `p` put in order of their keys; the
/// same tree when `p` leads nowhere or to no object.
pub open spec fn sorted_at(old: JNode, new: JNode, p: Seq<KeyV>) -> bool {
    match get_spec(old, p) {
        Some(JNode::Object { entries: ex, collapsed: c }) => exists|y: JNode|
            (y matches JNode::Object { entries: ey, collapsed: cy } && cy == c && sorted_by_key(ex@, ey@))
                && #[trigger] replaced_at(old, new, p, y),
        _ => new == old,
    }
}

/// Puts the entries of the object at `path` in order of their keys (see `sorted_at`).
fn sort_node_at(root: &mut JNode, path: &[JKey])
    ensures
        sorted_at(*old(root), *final(root), path.deep_view()),
{
    match get_node_at_path(root, path) {
        Some(JNode::Object { .. }) => {},
        _ => {
            return;
        },
    }
    let ghost y: JNode;
    match get_node_at_path_mut(root, path) {
        Some(target) => {
            let ghost x = *target;
            match target {
                JNode::Object { entries, .. } => {
                    sort_entries(entries);
                },
                _ => {},
            }
            proof {
                y = *target;
            }
        },
        None => {},
    }
    assert(replaced_at(*old(root), *root, path.deep_view(), y));
}

/// What `S` does: the entries of the object under the cursor are put in order of their keys,
/// the views rebuilt with the cursor on it, and the document marked modified; on another node
/// nothing happens.
pub open spec fn sort_spec(o: App, f: App) -> bool {
    let p = o.cursor_path();
    if get_spec(o.root, p) matches Some(JNode::Object { .. }) {
        sorted_at(o.root, f.root, p) && doc_touched_at(o, f, Some(p))
    } else {
        f == o
    }
}

impl App {
    /// Sorts the object under the cursor by key (see `sort_spec`).
    pub fn sort_children(&mut self)
        ensures
            sort_spec(*old(self), *final(self)),
    {
        let path = self.current_path();
        match get_node_at_path(&self.root, path.as_slice()) {
            Some(JNode::Object { .. }) => {},
            _ => {
                return;
            },
        }
        sort_node_at(&mut self.root, path.as_slice());
        self.modified = true;
        self.refresh_at(Some(path));
    }
}

impl App {
    /// Moves the cursor's node up or down among its siblings (see `move_spec`).
    pub fn move_node(&mut self, up: bool)
        ensures
            move_spec(*old(self), *final(self), up),
    {
        if self.cursor >= self.flat.len() {
            return;
        }
        let path = clone_path(&self.flat[self.cursor].path);
        assert(path.deep_view() == self.cursor_path());
        if path.len() == 0 {
            return;
        }
        let n = path.len();
        let parent_path = path_prefix(path.as_slice(), n - 1);
        let last = crate::tree::clone_key(&path[n - 1]);
        proof {
            assert(parent_path.deep_view() =~= path.deep_view().drop_last());
            assert(last.deep_view() == path.deep_view().last());
        }
        // The two positions to exchange, decided before anything changes.
        let plan: Option<(usize, usize)> = match get_node_at_path(&self.root, &parent_path) {
            Some(JNode::Array { items, .. }) => match &last {
                JKey::Index(i) => if *i < items.len() && up && *i > 0 {
                    Some((*i, *i - 1))
                } else if *i < items.len() && !up && *i + 1 < items.len() {
                    Some((*i, *i + 1))
                } else {
                    None
                },
                _ => None,
            },
            Some(JNode::Object { entries, .. }) => match &last {
                JKey::Field(k) => match find_entry(entries, k) {
                    Some(idx) => if up && idx > 0 {
                        Some((idx, idx - 1))
                    } else if !up && idx < entries.len() - 1 {
                        Some((idx, idx + 1))
                    } else {
                        None
                    },
                    None => None,
                },
                _ => None,
            },
            _ => None,
        };
        let (a, b) = match plan {
            Some(ab) => ab,
            None => {
                return;
            },
        };
        let ghost o = *old(self);
        let ghost y: JNode;
        match get_node_at_path_mut(&mut self.root, &parent_path) {
            Some(parent) => {
                match parent {
                    JNode::Array { items, .. } => swap_adjacent(items, a, b),
                    JNode::Object { entries, .. } => swap_adjacent(entries, a, b),
                    JNode::Scalar(_) => {},
                }
                proof {
                    y = *parent;
                }
            },
            None => {},
        }
        assert(replaced_at(o.root, self.root, parent_path.deep_view(), y));
        let mut new_path = parent_path;
        match &last {
            JKey::Index(_) => new_path.push(JKey::Index(b)),
            JKey::Field(k) => new_path.push(JKey::Field(k.clone())),
        }
        proof {
            assert(new_path.deep_view() =~= path.deep_view().drop_last().push(new_path@.last().deep_view()));
            if last is Field {
                assert(new_path.deep_view() =~= path.deep_view());
            }
        }
        self.refresh_at(Some(new_path));
        self.modified = true;
    }
}

/// `y` is the container `x`, unfolded, with `v` added: pushed onto an array; set under `k` in
/// an object (in place when the key exists, else at the end).
pub open spec fn child_added(x: JNode, y: JNode, k: Option<Seq<char>>, v: JNode) -> bool {
    match (x, y) {
        (JNode::Array { items: ia, .. }, JNode::Array { items: ib, collapsed: cb }) => !cb && ib@ == ia@.push(v),
        (JNode::Object { entries: ea, .. }, JNode::Object { entries: eb, collapsed: cb }) => !cb && k is Some
            && match find_key(ea@, k->0) {
            Some(j) => eb@ == ea@.update(j, (ea@[j].0, v)),
            None => eb@.len() == ea@.len() + 1 && eb@.drop_last() == ea@ && eb@.last().0@ == k->0 && eb@.last().1 == v,
        },
        _ => false,
    }
}

/// What adding `v` to the container at `cp` does (see `child_added`); the cursor goes to the
/// new child. Without such a container, or with no key for an object, the document stays but
/// is still marked modified.
pub open spec fn insert_child_spec(o: App, f: App, cp: Seq<KeyV>, k: Option<Seq<char>>, v: JNode) -> bool {
    match get_spec(o.root, cp) {
        Some(x) => match x {
            JNode::Array { items, .. } => doc_touched_at(o, f, Some(cp.push(KeyV::Index(items@.len() as usize))))
                && exists|y: JNode| child_added(x, y, k, v) && #[trigger] replaced_at(o.root, f.root, cp, y),
            JNode::Object { .. } => match k {
                Some(key) => doc_touched_at(o, f, Some(cp.push(KeyV::Field(key)))) && exists|y: JNode|
                    child_added(x, y, k, v) && #[trigger] replaced_at(o.root, f.root, cp, y),
                None => f.root == o.root && doc_touched(o, f),
            },
            JNode::Scalar(_) => f.root == o.root && doc_touched(o, f),
        },
        None => f.root == o.root && doc_touched(o, f),
    }
}

impl App {
    /// Adds `new_node` to the container at `container_path` (see `insert_child_spec`).
    pub fn insert_child(&mut self, container_path: &JPath, key: Option<&str>, new_node: JNode)
        ensures
            insert_child_spec(*old(self), *final(self), container_path.deep_view(), match key {
                Some(s) => Some(s@),
                None => None,
            }, new_node),
    {
        let ghost kv = match key {
            Some(s) => Some(s@),
            None => None::<Seq<char>>,
        };
        let kind: u8 = match get_node_at_path(&self.root, container_path) {
            Some(JNode::Array { .. }) => 1,
            Some(JNode::Object { .. }) => if key.is_some() { 2 } else { 0 },
            _ => 0,
        };
        if kind == 0 {
            self.refresh_flat();
            self.modified = true;
            return;
        }
        let ghost o = *old(self);
        let ghost y: JNode;
        let ghost nv = new_node;
        let ghost x0: JNode;
        let mut new_path: Vec<JKey> = clone_path(container_path.as_slice());
        match get_node_at_path_mut(&mut self.root, container_path) {
            Some(container) => {
                let ghost x = *container;
                match container {
                    JNode::Array { items, collapsed } => {
                        *collapsed = false;
                        let new_idx = items.len();
                        items.push(new_node);
                        new_path.push(JKey::Index(new_idx));
                    },
                    JNode::Object { entries, collapsed } => {
                        let k = match key {
                            Some(s) => String::from_str(s),
                            None => String::new(),
                        };
                        *collapsed = false;
                        let ghost ea = entries@;
                        proof { lemma_find_key(entries@, k@); }
                        match find_entry(entries, &k) {
                            Some(j) => {
                                entries[j].1 = new_node;
                                assert(entries@ =~= ea.update(j as int, (ea[j as int].0, nv)));
                            },
                            None => {
                                entries.push((k.clone(), new_node));
                                assert(entries@.drop_last() =~= ea);
                            },
                        }
                        new_path.push(JKey::Field(k));
                    },
                    JNode::Scalar(_) => {},
                }
                proof {
                    y = *container;
                    x0 = x;
                }
            },
            None => {},
        }
        assert(replaced_at(o.root, self.root, container_path.deep_view(), y));
        assert(child_added(x0, y, kv, nv));
        assert(new_path.deep_view() =~= container_path.deep_view().push(new_path@.last().deep_view()));
        self.refresh_at(Some(new_path));
        self.modified = true;
    }
}


/// `eb` is `ea` after `IndexMap::shift_insert(index, key, v)`: a new key is inserted at
/// `index`; an existing key's entry moves to `index` and takes the value `v`.
pub open spec fn shift_inserted(ea: Seq<(String, JNode)>, eb: Seq<(String, JNode)>, index: int, key: Seq<char>, v: JNode) -> bool {
    match find_key(ea, key) {
        Some(q) => eb == ea.remove(q).insert(index, (ea[q].0, v)),
        None => eb.len() == ea.len() + 1 && eb[index].0@ == key && eb[index].1 == v && eb.remove(index) == ea,
    }
}

/// Where `IndexMap::shift_insert` accepts the index (it panics elsewhere): up to the length
/// for a new key, below it for an existing one.
pub open spec fn shift_insert_ok(ea: Seq<(String, JNode)>, index: int, key: Seq<char>) -> bool {
    match find_key(ea, key) {
        Some(_) => 0 <= index < ea.len(),
        None => 0 <= index <= ea.len(),
    }
}

fn shift_insert(entries: &mut Vec<(String, JNode)>, index: usize, key: String, value: JNode)
    requires
        shift_insert_ok(old(entries)@, index as int, key@),
    ensures
        shift_inserted(old(entries)@, final(entries)@, index as int, key@, value),
{
    proof { lemma_find_key(entries@, key@); }
    match find_entry(entries, &key) {
        Some(q) => {
            let (k0, _) = entries.remove(q);
            entries.insert(index, (k0, value));
        },
        None => {
            let ghost ea = entries@;
            entries.insert(index, (key, value));
            assert(entries@.remove(index as int) =~= ea);
        },
    }
}

/// `y` is the container `x` with a copy of a node inserted: into an array at `at`, or into
/// an object under `key` at `at` (see `shift_inserted`).
pub open spec fn copy_inserted(x: JNode, y: JNode, at: int, key: Seq<char>, v: JNode) -> bool {
    match (x, y) {
        (JNode::Array { items: ia, collapsed: ca }, JNode::Array { items: ib, collapsed: cb }) => cb == ca && ib@
            == ia@.insert(at, v),
        (JNode::Object { entries: ea, collapsed: ca }, JNode::Object { entries: eb, collapsed: cb }) => cb == ca
            && shift_inserted(ea@, eb@, at, key, v),
        _ => false,
    }
}

/// What inserting `v` next to a sibling in the container at `pp` does, the array index or
/// object entry index at which it goes given by `at_arr` / `at_obj`, the new key by `key`: the
/// cursor goes to it. When `fits` fails, for a step that does not fit the container, or an
/// index the container cannot take, the document stays as it was (still marked modified).
pub open spec fn sibling_copy_spec(o: App, f: App, pp: Seq<KeyV>, v: JNode, at_arr: int, at_obj: int, key: Seq<char>, fits: bool) -> bool {
    match get_spec(o.root, pp) {
        Some(x) => match x {
            JNode::Array { items, .. } => if fits && 0 <= at_arr <= items@.len() {
                doc_touched_at(o, f, Some(pp.push(KeyV::Index(at_arr as usize)))) && exists|y: JNode|
                    copy_inserted(x, y, at_arr, key, v) && #[trigger] replaced_at(o.root, f.root, pp, y)
            } else {
                f.root == o.root && doc_touched(o, f)
            },
            JNode::Object { entries, .. } => if fits && shift_insert_ok(entries@, at_obj, key) {
                doc_touched_at(o, f, Some(pp.push(KeyV::Field(key)))) && exists|y: JNode|
                    copy_inserted(x, y, at_obj, key, v) && #[trigger] replaced_at(o.root, f.root, pp, y)
            } else {
                f.root == o.root && doc_touched(o, f)
            },
            JNode::Scalar(_) => f.root == o.root && doc_touched(o, f),
        },
        None => f.root == o.root && doc_touched(o, f),
    }
}

/// What duplicating the cursor's node does: a copy goes right after it; in an object under
/// the key `unique_key_spec` gives for its key.
pub open spec fn duplicate_spec(o: App, f: App) -> bool {
    let p = o.cursor_path();
    if o.cursor >= o.flat@.len() || p.len() == 0 {
        f == o
    } else {
        match get_spec(o.root, p) {
            None => f == o,
            Some(node) => {
                let pp = p.drop_last();
                match get_spec(o.root, pp) {
                    Some(JNode::Object { entries, .. }) => match p.last() {
                        KeyV::Field(k) => {
                            let idx = match find_key(entries@, k) {
                                Some(j) => j,
                                None => entries@.len() - 1,
                            };
                            exists|v: JNode| #[trigger] deep_same(node, v) && sibling_copy_spec(o, f, pp, v, 0, idx + 1,
                                unique_key_spec(entries@, k), entries@.len() > 0)
                        },
                        _ => exists|v: JNode| #[trigger] deep_same(node, v) && sibling_copy_spec(o, f, pp, v, 0, 0, Seq::empty(), false),
                    },
                    _ => match p.last() {
                        KeyV::Index(i) => if i < usize::MAX {
                            exists|v: JNode| #[trigger] deep_same(node, v) && sibling_copy_spec(o, f, pp, v, i + 1, 0,
                                Seq::empty(), true)
                        } else {
                            exists|v: JNode| #[trigger] deep_same(node, v) && sibling_copy_spec(o, f, pp, v, 0, 0,
                                Seq::empty(), false)
                        },
                        _ => exists|v: JNode| #[trigger] deep_same(node, v) && sibling_copy_spec(o, f, pp, v, 0, 0, Seq::empty(), false),
                    },
                }
            },
        }
    }
}

impl App {
    /// Inserts `node` next to the sibling `last` in the container at `pp` (the positions as in
    /// `sibling_copy_spec`), then refreshes with the cursor on it.
    fn insert_sibling(
        &mut self,
        pp: Vec<JKey>,
        node: JNode,
        at_arr: usize,
        at_obj: usize,
        key: String,
        fits: bool,
    )
        ensures
            sibling_copy_spec(*old(self), *final(self), pp.deep_view(), node, at_arr as int, at_obj as int, key@, fits),
    {
        let ghost o = *old(self);
        let ok: u8 = match get_node_at_path(&self.root, &pp) {
            Some(JNode::Array { items, .. }) => if fits && at_arr <= items.len() { 1 } else { 0 },
            Some(JNode::Object { entries, .. }) => {
                proof { lemma_find_key(entries@, key@); }
                let ok_idx = match find_entry(entries, &key) {
                    Some(_) => at_obj < entries.len(),
                    None => at_obj <= entries.len(),
                };
                if fits && ok_idx { 2 } else { 0 }
            },
            _ => 0,
        };
        if ok == 0 {
            self.refresh_flat();
            self.modified = true;
            return;
        }
        let ghost y: JNode;
        let ghost x0: JNode;
        let ghost nv = node;
        let mut new_path = clone_path(pp.as_slice());
        match get_node_at_path_mut(&mut self.root, &pp) {
            Some(parent) => {
                let ghost x = *parent;
                match parent {
                    JNode::Array { items, .. } => {
                        items.insert(at_arr, node);
                        new_path.push(JKey::Index(at_arr));
                    },
                    JNode::Object { entries, .. } => {
                        let k2 = key.clone();
                        shift_insert(entries, at_obj, key, node);
                        new_path.push(JKey::Field(k2));
                    },
                    JNode::Scalar(_) => {},
                }
                proof {
                    y = *parent;
                    x0 = x;
                }
            },
            None => {},
        }
        assert(replaced_at(o.root, self.root, pp.deep_view(), y));
        assert(copy_inserted(x0, y, if ok == 1 { at_arr as int } else { at_obj as int }, key@, nv));
        assert(new_path.deep_view() =~= pp.deep_view().push(new_path@.last().deep_view()));
        self.refresh_at(Some(new_path));
        self.modified = true;
    }
}


/// What adding `v` right after the node at `p` does: in an array it goes at the next index;
/// in an object under the key `k`, at the next entry; with no such place (the root, no key
/// for an object) the document stays but is still marked modified.
pub open spec fn add_sibling_spec(o: App, f: App, p: Seq<KeyV>, k: Option<Seq<char>>, v: JNode) -> bool {
    if p.len() == 0 {
        f.root == o.root && doc_touched(o, f)
    } else {
        let pp = p.drop_last();
        match get_spec(o.root, pp) {
            Some(JNode::Object { entries, .. }) => match (p.last(), k) {
                (KeyV::Field(sk), Some(key)) => {
                    let idx = match find_key(entries@, sk) {
                        Some(j) => j,
                        None => entries@.len() - 1,
                    };
                    sibling_copy_spec(o, f, pp, v, 0, idx + 1, key, entries@.len() > 0)
                },
                _ => sibling_copy_spec(o, f, pp, v, 0, 0, Seq::empty(), false),
            },
            _ => match p.last() {
                KeyV::Index(i) => sibling_copy_spec(o, f, pp, v, i + 1, 0, Seq::empty(), i < usize::MAX),
                _ => sibling_copy_spec(o, f, pp, v, 0, 0, Seq::empty(), false),
            },
        }
    }
}

/// What the dialog's adding does: a child of the container at `p`, or a sibling after `p`.
pub open spec fn add_spec(o: App, f: App, mode: EditMode, p: Seq<KeyV>, k: Option<Seq<char>>, v: JNode) -> bool {
    if mode == EditMode::AddSibling {
        add_sibling_spec(o, f, p, k, v)
    } else {
        insert_child_spec(o, f, p, k, v)
    }
}

/// The node the dialog adds goes into an object, so a key is asked for first.
pub open spec fn adds_under_object(root: JNode, st: EditState) -> bool {
    let p = st.path.deep_view();
    if st.mode == EditMode::AddSibling {
        p.len() > 0 && get_spec(root, p.drop_last()) matches Some(JNode::Object { .. })
    } else {
        get_spec(root, p) matches Some(JNode::Object { .. })
    }
}

impl App {
    /// Adds `node` right after the node at `path` (see `add_sibling_spec`).
    fn add_sibling(&mut self, path: &JPath, key: Option<&str>, node: JNode)
        ensures
            add_sibling_spec(*old(self), *final(self), path.deep_view(), match key {
                Some(s) => Some(s@),
                None => None,
            }, node),
    {
        let n = path.len();
        if n == 0 {
            self.refresh_flat();
            self.modified = true;
            return;
        }
        let pp = path_prefix(path.as_slice(), n - 1);
        let last = crate::tree::clone_key(&path[n - 1]);
        proof {
            assert(pp.deep_view() =~= path.deep_view().drop_last());
            assert(last.deep_view() == path.deep_view().last());
        }
        let (at_arr, at_obj, new_key, fits): (usize, usize, String, bool) = match get_node_at_path(&self.root, &pp) {
            Some(JNode::Object { entries, .. }) => match (&last, key) {
                (JKey::Field(k), Some(nk)) => {
                    proof { lemma_find_key(entries@, k@); }
                    let len = entries.len();
                    let idx = match find_entry(entries, k) {
                        Some(j) => j,
                        None => if len > 0 { len - 1 } else { 0 },
                    };
                    if len > 0 {
                        (0, idx + 1, String::from_str(nk), true)
                    } else {
                        (0, 1, String::from_str(nk), false)
                    }
                },
                _ => (0, 0, String::new(), false),
            },
            _ => match &last {
                JKey::Index(i) => if *i < usize::MAX {
                    (*i + 1, 0, String::new(), true)
                } else {
                    (0, 0, String::new(), false)
                },
                _ => (0, 0, String::new(), false),
            },
        };
        self.insert_sibling(pp, node, at_arr, at_obj, new_key, fits);
    }

    /// Adds `node` as the dialog's mode says (see `add_spec`).
    fn add_node(&mut self, mode: EditMode, path: &JPath, key: Option<&str>, node: JNode)
        ensures
            add_spec(*old(self), *final(self), mode, path.deep_view(), match key {
                Some(s) => Some(s@),
                None => None,
            }, node),
    {
        if mode == EditMode::AddSibling {
            self.add_sibling(path, key, node);
        } else {
            self.insert_child(path, key, node);
        }
    }

    /// Whether the dialog's new node goes into an object (see `adds_under_object`).
    fn adds_into_object(&self, st: &EditState) -> (r: bool)
        ensures
            r == adds_under_object(self.root, *st),
    {
        if st.mode == EditMode::AddSibling {
            let n = st.path.len();
            if n == 0 {
                return false;
            }
            let pp = path_prefix(st.path.as_slice(), n - 1);
            proof {
                assert(pp.deep_view() =~= st.path.deep_view().drop_last());
            }
            match get_node_at_path(&self.root, &pp) {
                Some(JNode::Object { .. }) => true,
                _ => false,
            }
        } else {
            match get_node_at_path(&self.root, &st.path) {
                Some(JNode::Object { .. }) => true,
                _ => false,
            }
        }
    }
}

/// What pasting the clipboard next to the cursor's node does: after it (or before it), in an
/// object under the key `unique_key_spec` gives for `<key>_paste`; messages for an empty
/// clipboard and for the root.
pub open spec fn paste_spec(o: App, f: App, after: bool) -> bool {
    let p = o.cursor_path();
    match o.clipboard {
        None => status_set(o, f, "clipboard is empty  (y to copy)"@),
        Some(node) => if o.cursor >= o.flat@.len() {
            f == o
        } else if p.len() == 0 {
            status_set(o, f, "cannot paste sibling of root"@)
        } else {
            let pp = p.drop_last();
            match get_spec(o.root, pp) {
                Some(JNode::Object { entries, .. }) => match p.last() {
                    KeyV::Field(k) => {
                        let idx = match find_key(entries@, k) {
                            Some(j) => j,
                            None => 0,
                        };
                        exists|v: JNode| #[trigger] deep_same(node, v) && sibling_copy_spec(o, f, pp, v, 0, if after {
                            idx + 1
                        } else {
                            idx
                        }, unique_key_spec(entries@, k + "_paste"@), true)
                    },
                    _ => exists|v: JNode| #[trigger] deep_same(node, v) && sibling_copy_spec(o, f, pp, v, 0, 0, Seq::empty(), false),
                },
                _ => match p.last() {
                    KeyV::Index(i) => if after && i == usize::MAX {
                        exists|v: JNode| #[trigger] deep_same(node, v) && sibling_copy_spec(o, f, pp, v, 0, 0, Seq::empty(), false)
                    } else {
                        exists|v: JNode| #[trigger] deep_same(node, v) && sibling_copy_spec(o, f, pp, v, if after {
                            i + 1
                        } else {
                            i as int
                        }, 0, Seq::empty(), true)
                    },
                    _ => exists|v: JNode| #[trigger] deep_same(node, v) && sibling_copy_spec(o, f, pp, v, 0, 0, Seq::empty(), false),
                },
            }
        },
    }
}

/// The label of a row: its key, `Item[i]` for an array item, `<root>` for the root.
pub open spec fn row_label(key: Option<Seq<char>>, index: Option<usize>) -> Seq<char> {
    match key {
        Some(k) => k,
        None => match index {
            Some(i) => "Item["@ + crate::text::decimal(i as nat) + "]"@,
            None => "<root>"@,
        },
    }
}

/// What copying the cursor's node does: a copy goes to the clipboard and the status line
/// names it.
pub open spec fn copy_spec(o: App, f: App) -> bool {
    if o.cursor >= o.flat@.len() {
        f == o
    } else {
        let row = o.flat@[o.cursor as int].deep_view();
        match get_spec(o.root, row.path) {
            Some(node) => exists|v: JNode| #[trigger] deep_same(node, v) && f.clipboard == Some(v) && f.status@ == "copied: "@
                + row_label(row.key, row.index) && f == (App { clipboard: f.clipboard, status: f.status, ..o }),
            None => f == o,
        }
    }
}

/// What folding or unfolding the cursor's node does.
pub open spec fn toggle_collapse_spec(o: App, f: App) -> bool {
    &&& toggled(o.root, f.root, o.cursor_path())
    &&& f.refreshed_from(&o)
    &&& f == (App { root: f.root, flat: f.flat, annotated: f.annotated, lint_warnings: f.lint_warnings, cursor: f.cursor, ..o })
}

impl App {
    /// Inserts a copy of the cursor's node right after it (see `duplicate_spec`).
    pub fn duplicate_node(&mut self)
        ensures
            duplicate_spec(*old(self), *final(self)),
    {
        if self.cursor >= self.flat.len() {
            return;
        }
        let path = clone_path(&self.flat[self.cursor].path);
        assert(path.deep_view() == self.cursor_path());
        if path.len() == 0 {
            return;
        }
        let node_clone = match get_node_at_path(&self.root, &path) {
            Some(nd) => clone_node(nd),
            None => {
                return;
            },
        };
        let ghost v = node_clone;
        let ghost o = *old(self);
        assert(deep_same(get_spec(o.root, path.deep_view())->0, v));
        let n = path.len();
        let pp = path_prefix(path.as_slice(), n - 1);
        let last = crate::tree::clone_key(&path[n - 1]);
        proof {
            assert(pp.deep_view() =~= path.deep_view().drop_last());
            assert(last.deep_view() == path.deep_view().last());
        }
        let (at_arr, at_obj, key, fits): (usize, usize, String, bool) = match get_node_at_path(&self.root, &pp) {
            Some(JNode::Object { entries, .. }) => match &last {
                JKey::Field(k) => {
                    proof { lemma_find_key(entries@, k@); }
                    let len = entries.len();
                    let idx = match find_entry(entries, k) {
                        Some(j) => j,
                        None => if len > 0 { len - 1 } else { 0 },
                    };
                    let nk = unique_key(entries, k.as_str());
                    if len > 0 {
                        (0, idx + 1, nk, true)
                    } else {
                        (0, 1, nk, false)
                    }
                },
                _ => (0, 0, String::new(), false),
            },
            _ => match &last {
                JKey::Index(i) => if *i < usize::MAX {
                    (*i + 1, 0, String::new(), true)
                } else {
                    (0, 0, String::new(), false)
                },
                _ => (0, 0, String::new(), false),
            },
        };
        self.insert_sibling(pp, node_clone, at_arr, at_obj, key, fits);
        assert(deep_same(get_spec(o.root, path.deep_view())->0, v));
    }

    /// Inserts a copy of the clipboard after (or before) the cursor's node (see `paste_spec`).
    pub fn paste_node(&mut self, after: bool)
        ensures
            paste_spec(*old(self), *final(self), after),
    {
        let node = match &self.clipboard {
            Some(c) => clone_node(c),
            None => {
                self.status = String::from_str("clipboard is empty  (y to copy)");
                return;
            },
        };
        let ghost v = node;
        let ghost o = *old(self);
        assert(deep_same(o.clipboard->0, v));
        if self.cursor >= self.flat.len() {
            return;
        }
        let path = clone_path(&self.flat[self.cursor].path);
        assert(path.deep_view() == self.cursor_path());
        if path.len() == 0 {
            self.status = String::from_str("cannot paste sibling of root");
            return;
        }
        let n = path.len();
        let pp = path_prefix(path.as_slice(), n - 1);
        let last = crate::tree::clone_key(&path[n - 1]);
        proof {
            assert(pp.deep_view() =~= path.deep_view().drop_last());
            assert(last.deep_view() == path.deep_view().last());
        }
        let (at_arr, at_obj, key, fits): (usize, usize, String, bool) = match get_node_at_path(&self.root, &pp) {
            Some(JNode::Object { entries, .. }) => match &last {
                JKey::Field(k) => {
                    proof { lemma_find_key(entries@, k@); }
                    let len = entries.len();
                    let idx = match find_entry(entries, k) {
                        Some(j) => j,
                        None => 0,
                    };
                    let mut base = k.clone();
                    append(&mut base, "_paste");
                    let nk = unique_key(entries, base.as_str());
                    if after && idx == usize::MAX {
                        (0, 0, nk, false)
                    } else {
                        (0, if after { idx + 1 } else { idx }, nk, true)
                    }
                },
                _ => (0, 0, String::new(), false),
            },
            _ => match &last {
                JKey::Index(i) => if after && *i == usize::MAX {
                    (0, 0, String::new(), false)
                } else {
                    (if after { *i + 1 } else { *i }, 0, String::new(), true)
                },
                _ => (0, 0, String::new(), false),
            },
        };
        self.insert_sibling(pp, node, at_arr, at_obj, key, fits);
        assert(deep_same(o.clipboard->0, v));
    }

    /// Copies the cursor's node to the clipboard (see `copy_spec`).
    pub fn copy_node(&mut self)
        ensures
            copy_spec(*old(self), *final(self)),
    {
        if self.cursor >= self.flat.len() {
            return;
        }
        let row = &self.flat[self.cursor];
        let node = match get_node_at_path(&self.root, &row.path) {
            Some(nd) => clone_node(nd),
            None => {
                return;
            },
        };
        let ghost v = node;
        let ghost o = *old(self);
        assert(deep_same(get_spec(o.root, row.deep_view().path)->0, v));
        let mut status = String::from_str("copied: ");
        match &row.key {
            Some(k) => append(&mut status, k.as_str()),
            None => match row.index {
                Some(i) => {
                    append(&mut status, "Item[");
                    push_decimal(&mut status, i);
                    append(&mut status, "]");
                },
                None => append(&mut status, "<root>"),
            },
        }
        assert(status@ =~= "copied: "@ + row_label(row.deep_view().key, row.deep_view().index));
        self.clipboard = Some(node);
        self.status = status;
        assert(deep_same(get_spec(o.root, o.flat@[o.cursor as int].deep_view().path)->0, v));
    }

    /// Folds or unfolds the cursor's node (see `toggle_collapse_spec`).
    pub fn toggle_collapse(&mut self)
        ensures
            toggle_collapse_spec(*old(self), *final(self)),
    {
        let path = self.current_path();
        toggle_node_collapse(&mut self.root, &path);
        self.refresh_flat();
    }
}


// ---------------------------------------------------------------------------
// The edit dialog
// ---------------------------------------------------------------------------

/// Whether `serde_json` reads `s` as a JSON number.
pub uninterp spec fn json_number_ok(s: Seq<char>) -> bool;

/// `serde_json::from_str::<serde_json::Number>(s).is_ok()`; the answer is named by the text
/// alone.
#[verifier::external_body]
fn parses_as_json_number(s: &str) -> (r: bool)
    ensures
        r == json_number_ok(s@),
{
    serde_json::from_str::<serde_json::Number>(s).is_ok()
}

/// The text a scalar shows in the value input.
pub open spec fn scalar_text(n: JNode) -> Seq<char> {
    match n {
        JNode::Scalar(JScalar::Bool(b)) => bool_text(b),
        JNode::Scalar(JScalar::Number(t)) => t@,
        JNode::Scalar(JScalar::String(t)) => t@,
        _ => Seq::empty(),
    }
}

/// The text the value input starts with for the type `type_cursor` (String, Number or
/// Boolean) when editing `original`, `number_ok` saying whether its current text, trimmed,
/// reads as a JSON number: its current text when that suits the type, else `0` or `false`;
/// nothing for other types.
pub open spec fn initial_text_given(type_cursor: usize, original: JNode, number_ok: bool) -> Seq<char> {
    let current = scalar_text(original);
    if type_cursor == 2 {
        current
    } else if type_cursor == 3 {
        if number_ok { current } else { "0"@ }
    } else if type_cursor == 4 {
        if current == "true"@ || current == "false"@ { current } else { "false"@ }
    } else {
        Seq::empty()
    }
}

/// The text the value input starts with (see `initial_text_given`), the number check being
/// `serde_json`'s.
pub open spec fn initial_text_spec(type_cursor: usize, original: JNode) -> Seq<char> {
    initial_text_given(type_cursor, original, json_number_ok(trim_spec(scalar_text(original))))
}

/// The text the value input starts with, given whether the current text reads as a JSON
/// number (see `initial_text_given`).
pub fn initial_text_with(type_cursor: usize, original: &JNode, number_ok: bool) -> (r: String)
    ensures
        r@ == initial_text_given(type_cursor, *original, number_ok),
{
    let current = current_text(original);
    if type_cursor == 2 {
        current
    } else if type_cursor == 3 {
        if number_ok {
            current
        } else {
            String::from_str("0")
        }
    } else if type_cursor == 4 {
        if current == String::from_str("true") || current == String::from_str("false") {
            current
        } else {
            String::from_str("false")
        }
    } else {
        String::new()
    }
}

fn current_text(original: &JNode) -> (r: String)
    ensures
        r@ == scalar_text(*original),
{
    match original {
        JNode::Scalar(JScalar::Bool(b)) => bool_to_string(*b),
        JNode::Scalar(JScalar::Number(t)) => t.clone(),
        JNode::Scalar(JScalar::String(t)) => t.clone(),
        _ => String::new(),
    }
}

/// The text the value input starts with (see `initial_text_spec`).
pub fn initial_text(type_cursor: usize, original: &JNode) -> (r: String)
    ensures
        r@ == initial_text_spec(type_cursor, *original),
{
    let t = trim(current_text(original).as_str());
    let number_ok = parses_as_json_number(t.as_str());
    initial_text_with(type_cursor, original, number_ok)
}

/// The index in `EDIT_TYPES` of a node's type.
pub open spec fn type_index(n: JNode) -> usize {
    match n {
        JNode::Object { .. } => 0,
        JNode::Array { .. } => 1,
        JNode::Scalar(JScalar::String(_)) => 2,
        JNode::Scalar(JScalar::Number(_)) => 3,
        JNode::Scalar(JScalar::Bool(_)) => 4,
        JNode::Scalar(JScalar::Null) => 5,
    }
}

/// What starting to edit the cursor's node does: on a scalar the dialog opens on the type
/// list, at the node's type, keeping a copy of the node; on a container only a hint shows.
pub open spec fn start_edit_spec(o: App, f: App) -> bool {
    if o.cursor >= o.flat@.len() {
        f == o
    } else {
        let p = o.cursor_path();
        match get_spec(o.root, p) {
            Some(JNode::Scalar(s)) => match f.edit {
                Some(st) => {
                    &&& st.path.deep_view() == p
                    &&& st.mode == EditMode::Edit
                    &&& st.original matches Some(c) && deep_same(JNode::Scalar(s), c)
                    &&& st.phase == EditPhase::TypeSelect
                    &&& st.type_cursor == type_index(JNode::Scalar(s))
                    &&& st.pending_key is None
                    &&& f == (App { edit: f.edit, ..o })
                },
                None => false,
            },
            Some(_) => status_set(o, f, "use a / d to modify containers"@),
            None => f == o,
        }
    }
}

/// What starting to add a child to the cursor's node does: on a scalar the dialog opens to
/// add a sibling right after it (refused with a message for the root); a folded container
/// is unfolded first (the cursor following it); the dialog opens on the type list at String.
pub open spec fn start_add_child_spec(o: App, f: App) -> bool {
    if o.cursor >= o.flat@.len() {
        f == o
    } else {
        let p = o.cursor_path();
        match get_spec(o.root, p) {
            Some(JNode::Scalar(_)) => if p.len() == 0 {
                status_set(o, f, "select a container to add a child"@)
            } else {
                &&& f.edit matches Some(st) && st.path.deep_view() == p && st.mode == EditMode::AddSibling
                    && st.original is None && st.phase == EditPhase::TypeSelect && st.type_cursor == 2
                    && st.pending_key is None
                &&& f == (App { edit: f.edit, ..o })
            },
            Some(node) => {
                let dialog_ok = match f.edit {
                    Some(st) => {
                        &&& st.path.deep_view() == p
                        &&& st.mode == EditMode::AddChild
                        &&& st.original is None
                        &&& st.phase == EditPhase::TypeSelect
                        &&& st.type_cursor == 2
                        &&& st.pending_key is None
                    },
                    None => false,
                };
                dialog_ok && if crate::tree::is_collapsed_spec(node) {
                    toggled(o.root, f.root, p) && f.refreshed_at(&o, Some(p)) && f == (App {
                        root: f.root,
                        flat: f.flat,
                        annotated: f.annotated,
                        lint_warnings: f.lint_warnings,
                        cursor: f.cursor,
                        edit: f.edit,
                        ..o
                    })
                } else {
                    f == (App { edit: f.edit, ..o })
                }
            },
            None => f == o,
        }
    }
}

impl App {
    /// Opens the dialog to edit the cursor's node (see `start_edit_spec`).
    pub fn start_edit(&mut self)
        ensures
            start_edit_spec(*old(self), *final(self)),
    {
        if self.cursor >= self.flat.len() {
            return;
        }
        let path = clone_path(&self.flat[self.cursor].path);
        assert(path.deep_view() == self.cursor_path());
        let (original, type_cursor) = match get_node_at_path(&self.root, &path) {
            Some(nd) => {
                let tc: usize = match nd {
                    JNode::Object { .. } | JNode::Array { .. } => {
                        self.status = String::from_str("use a / d to modify containers");
                        return;
                    },
                    JNode::Scalar(JScalar::String(_)) => 2,
                    JNode::Scalar(JScalar::Number(_)) => 3,
                    JNode::Scalar(JScalar::Bool(_)) => 4,
                    JNode::Scalar(JScalar::Null) => 5,
                };
                (clone_node(nd), tc)
            },
            None => {
                return;
            },
        };
        self.edit = Some(
            EditState {
                path,
                mode: EditMode::Edit,
                original: Some(original),
                phase: EditPhase::TypeSelect,
                type_cursor,
                pending_key: None,
            },
        );
    }

    /// Opens the dialog to add a child to the cursor's node (see `start_add_child_spec`).
    pub fn start_add_child(&mut self)
        ensures
            start_add_child_spec(*old(self), *final(self)),
    {
        if self.cursor >= self.flat.len() {
            return;
        }
        let path = clone_path(&self.flat[self.cursor].path);
        assert(path.deep_view() == self.cursor_path());
        let folded = match get_node_at_path(&self.root, &path) {
            Some(JNode::Scalar(_)) => {
                if path.len() == 0 {
                    self.status = String::from_str("select a container to add a child");
                } else {
                    self.edit = Some(
                        EditState {
                            path,
                            mode: EditMode::AddSibling,
                            original: None,
                            phase: EditPhase::TypeSelect,
                            type_cursor: 2,
                            pending_key: None,
                        },
                    );
                }
                return;
            },
            Some(nd) => nd.is_collapsed(),
            None => {
                return;
            },
        };
        if folded {
            toggle_node_collapse(&mut self.root, &path);
            self.refresh_at(Some(clone_path(path.as_slice())));
        }
        self.edit = Some(
            EditState {
                path,
                mode: EditMode::AddChild,
                original: None,
                phase: EditPhase::TypeSelect,
                type_cursor: 2,
                pending_key: None,
            },
        );
    }
}


impl EditState {
    /// Everything but the phase is as in `o`.
    pub open spec fn same_but_phase(&self, o: &EditState) -> bool {
        &&& self.path == o.path
        &&& self.mode == o.mode
        &&& self.original == o.original
        &&& self.type_cursor == o.type_cursor
        &&& self.pending_key == o.pending_key
    }
}

/// A new, unfolded container of the type at `type_cursor` (Object, Array), or null (Null).
pub open spec fn fresh_node(type_cursor: usize, y: JNode) -> bool {
    if type_cursor == 0 {
        y matches JNode::Object { entries, collapsed } && entries@.len() == 0 && !collapsed
    } else if type_cursor == 1 {
        y matches JNode::Array { items, collapsed } && items@.len() == 0 && !collapsed
    } else {
        y == JNode::Scalar(JScalar::Null)
    }
}

/// `new` is `old` with the node at `p` set to `y` (the same tree when `p` leads nowhere).
pub open spec fn set_at(old: JNode, new: JNode, p: Seq<KeyV>, y: JNode) -> bool {
    if get_spec(old, p) is Some {
        replaced_at(old, new, p, y)
    } else {
        new == old
    }
}

/// The dialog moved on to typing a value, starting from `text`, the preview shown.
pub open spec fn value_input_opened(o: App, f: App, st: EditState, text: Seq<char>, key: Option<Seq<char>>) -> bool {
    &&& f.edit matches Some(e) && e.phase matches EditPhase::ValueEdit(t) && t@ == text && e.path == st.path && e.mode
        == st.mode && e.original == st.original && e.type_cursor == st.type_cursor && e.pending_key.deep_view() == key
    &&& f == (App { edit: f.edit, show_preview: true, ..o })
}

/// What confirming the type while editing `st` does (the dialog already closed in `o`):
/// Object, Array and Null replace the node at once; the other types ask for a value,
/// starting from `initial_text_spec` of the original.
pub open spec fn confirm_type_edit_spec(o: App, f: App, st: EditState) -> bool {
    let original = match st.original {
        Some(n) => n,
        None => JNode::Scalar(JScalar::Null),
    };
    let tc = st.type_cursor;
    if tc == 0 || tc == 1 || tc == 5 {
        doc_touched(o, f) && exists|y: JNode| fresh_node(tc, y) && #[trigger] set_at(o.root, f.root, st.path.deep_view(), y)
    } else {
        value_input_opened(o, f, st, initial_text_spec(tc, original), st.pending_key.deep_view())
    }
}

/// What confirming the type while adding a node with `st` does (the dialog already closed in
/// `o`): a node going into an object asks for the key first; otherwise Object, Array and Null are added
/// at once and the other types ask for a value.
pub open spec fn confirm_type_add_spec(o: App, f: App, st: EditState) -> bool {
    let tc = st.type_cursor;
    let cp = st.path.deep_view();
    if adds_under_object(o.root, st) {
        &&& f.edit matches Some(e) && e.phase matches EditPhase::KeyEdit(t) && t@.len() == 0 && e.same_but_phase(&st)
        &&& f == (App { edit: f.edit, show_preview: true, ..o })
    } else if tc == 0 || tc == 1 || tc == 5 {
        exists|y: JNode| fresh_node(tc, y) && #[trigger] add_spec(o, f, st.mode, cp, None, y)
    } else {
        value_input_opened(o, f, st, initial_text_spec(tc, JNode::Scalar(JScalar::Null)), st.pending_key.deep_view())
    }
}

/// What confirming the chosen type does.
pub open spec fn confirm_type_spec(o: App, f: App) -> bool {
    match o.edit {
        None => f == o,
        Some(st) => {
            let closed = App { edit: None, ..o };
            if st.mode == EditMode::Edit {
                confirm_type_edit_spec(closed, f, st)
            } else {
                confirm_type_add_spec(closed, f, st)
            }
        },
    }
}

fn fresh(type_cursor: usize) -> (y: JNode)
    requires
        type_cursor == 0 || type_cursor == 1 || type_cursor == 5,
    ensures
        fresh_node(type_cursor, y),
{
    if type_cursor == 0 {
        JNode::Object { entries: Vec::new(), collapsed: false }
    } else if type_cursor == 1 {
        JNode::Array { items: Vec::new(), collapsed: false }
    } else {
        JNode::Scalar(JScalar::Null)
    }
}

impl App {
    fn confirm_type_edit(&mut self, state: EditState)
        ensures
            confirm_type_edit_spec(*old(self), *final(self), state),
    {
        let tc = state.type_cursor;
        if tc == 0 || tc == 1 || tc == 5 {
            let y = fresh(tc);
            let ghost yv = y;
            set_node_at_path(&mut self.root, &state.path, y);
            self.refresh_flat();
            self.modified = true;
            assert(set_at(old(self).root, self.root, state.path.deep_view(), yv));
        } else {
            let null = JNode::Scalar(JScalar::Null);
            let initial = match &state.original {
                Some(n) => initial_text(tc, n),
                None => initial_text(tc, &null),
            };
            self.show_preview = true;
            self.edit = Some(
                EditState {
                    path: state.path,
                    mode: state.mode,
                    original: state.original,
                    phase: EditPhase::ValueEdit(initial),
                    type_cursor: state.type_cursor,
                    pending_key: state.pending_key,
                },
            );
        }
    }

    fn confirm_type_add(&mut self, state: EditState)
        ensures
            confirm_type_add_spec(*old(self), *final(self), state),
    {
        let parent_is_object = self.adds_into_object(&state);
        if parent_is_object {
            self.show_preview = true;
            self.edit = Some(
                EditState {
                    path: state.path,
                    mode: state.mode,
                    original: state.original,
                    phase: EditPhase::KeyEdit(String::new()),
                    type_cursor: state.type_cursor,
                    pending_key: state.pending_key,
                },
            );
        } else {
            let tc = state.type_cursor;
            if tc == 0 || tc == 1 || tc == 5 {
                let y = fresh(tc);
                let ghost yv = y;
                self.add_node(state.mode, &state.path, None, y);
                assert(add_spec(*old(self), *self, state.mode, state.path.deep_view(), None, yv));
            } else {
                let null = JNode::Scalar(JScalar::Null);
                let initial = initial_text(tc, &null);
                self.show_preview = true;
                self.edit = Some(
                    EditState {
                        path: state.path,
                        mode: state.mode,
                        original: state.original,
                        phase: EditPhase::ValueEdit(initial),
                        type_cursor: state.type_cursor,
                        pending_key: state.pending_key,
                    },
                );
            }
        }
    }

    /// Confirms the type chosen in the dialog (see `confirm_type_spec`). Returns whether a text
    /// input opened.
    pub fn confirm_type(&mut self) -> (opened: bool)
        ensures
            confirm_type_spec(*old(self), *final(self)),
            opened == (final(self).edit is Some),
    {
        let state = match self.edit.take() {
            Some(st) => st,
            None => {
                return false;
            },
        };
        if state.mode == EditMode::Edit {
            self.confirm_type_edit(state);
        } else {
            self.confirm_type_add(state);
        }
        self.edit.is_some()
    }
}


/// The dialog asks for a value.
pub open spec fn in_value_input(a: App) -> bool {
    a.edit matches Some(e) && e.phase is ValueEdit
}

/// The dialog asks for a key.
pub open spec fn in_key_input(a: App) -> bool {
    a.edit matches Some(e) && e.phase is KeyEdit
}

/// What confirming the key typed for a new node does: refused with a message when it is
/// empty after trimming; else Object, Array and Null are added under it at once and the other
/// types ask for a value.
pub open spec fn confirm_key_spec(o: App, f: App) -> bool {
    match o.edit {
        Some(st) => match st.phase {
            EditPhase::KeyEdit(text) => {
                let key = trim_spec(text@);
                let tc = st.type_cursor;
                let closed = App { edit: None, ..o };
                if key.len() == 0 {
                    status_set(o, f, "key name cannot be empty"@)
                } else if tc == 0 || tc == 1 || tc == 5 {
                    exists|y: JNode| fresh_node(tc, y) && #[trigger] add_spec(closed, f, st.mode, st.path.deep_view(), Some(key), y)
                } else {
                    value_input_opened(closed, f, st, initial_text_spec(tc, JNode::Scalar(JScalar::Null)), Some(key))
                }
            },
            _ => f == o,
        },
        None => f == o,
    }
}

/// The scalar the typed `text` makes for the type `type_cursor`: the text itself for String,
/// the trimmed text for Number, whether the trimmed text is `true` for Boolean, else null.
pub open spec fn committed(type_cursor: usize, text: Seq<char>, y: JNode) -> bool {
    if type_cursor == 2 {
        y matches JNode::Scalar(JScalar::String(t)) && t@ == text
    } else if type_cursor == 3 {
        y matches JNode::Scalar(JScalar::Number(t)) && t@ == trim_spec(text)
    } else if type_cursor == 4 {
        y == JNode::Scalar(JScalar::Bool(trim_spec(text) == "true"@))
    } else {
        y == JNode::Scalar(JScalar::Null)
    }
}

/// What confirming the typed value does: the dialog closes and the value replaces the edited
/// node, or is added as a child or a sibling (under the key typed before).
pub open spec fn commit_value_spec(o: App, f: App) -> bool {
    match o.edit {
        None => f == o,
        Some(st) => {
            let closed = App { edit: None, ..o };
            match st.phase {
                EditPhase::ValueEdit(text) => if st.mode == EditMode::Edit {
                    doc_touched(closed, f) && exists|y: JNode| committed(st.type_cursor, text@, y) && #[trigger] set_at(
                        closed.root,
                        f.root,
                        st.path.deep_view(),
                        y,
                    )
                } else {
                    exists|y: JNode| committed(st.type_cursor, text@, y) && #[trigger] add_spec(
                        closed,
                        f,
                        st.mode,
                        st.path.deep_view(),
                        st.pending_key.deep_view(),
                        y,
                    )
                },
                _ => f == closed,
            }
        },
    }
}

impl App {
    /// Confirms the key typed for a new child (see `confirm_key_spec`). Returns whether a text
    /// input opened.
    pub fn confirm_key(&mut self) -> (opened: bool)
        ensures
            confirm_key_spec(*old(self), *final(self)),
            opened == (in_value_input(*final(self)) && in_key_input(*old(self))),
    {
        let key = match &self.edit {
            Some(st) => match &st.phase {
                EditPhase::KeyEdit(text) => trim(text.as_str()),
                _ => {
                    return false;
                },
            },
            None => {
                return false;
            },
        };
        if key.as_str().is_empty() {
            self.status = String::from_str("key name cannot be empty");
            return false;
        }
        let state = match self.edit.take() {
            Some(st) => st,
            None => {
                return false;
            },
        };
        let tc = state.type_cursor;
        if tc == 0 || tc == 1 || tc == 5 {
            let y = fresh(tc);
            let ghost yv = y;
            let ghost closed = *self;
            self.add_node(state.mode, &state.path, Some(key.as_str()), y);
            assert(add_spec(closed, *self, state.mode, state.path.deep_view(), Some(key@), yv));
            false
        } else {
            let null = JNode::Scalar(JScalar::Null);
            let initial = initial_text(tc, &null);
            self.show_preview = true;
            self.edit = Some(
                EditState {
                    path: state.path,
                    mode: state.mode,
                    original: state.original,
                    phase: EditPhase::ValueEdit(initial),
                    type_cursor: state.type_cursor,
                    pending_key: Some(key),
                },
            );
            true
        }
    }

    /// Confirms the typed value (see `commit_value_spec`).
    pub fn commit_value(&mut self)
        ensures
            commit_value_spec(*old(self), *final(self)),
    {
        let state = match self.edit.take() {
            Some(st) => st,
            None => {
                return;
            },
        };
        let text = match state.phase {
            EditPhase::ValueEdit(t) => t,
            _ => {
                return;
            },
        };
        let ghost tv = text@;
        let tc = state.type_cursor;
        let new_node = if tc == 2 {
            JNode::Scalar(JScalar::String(text))
        } else if tc == 3 {
            JNode::Scalar(JScalar::Number(trim(text.as_str())))
        } else if tc == 4 {
            let t = trim(text.as_str());
            JNode::Scalar(JScalar::Bool(t == String::from_str("true")))
        } else {
            JNode::Scalar(JScalar::Null)
        };
        let ghost yv = new_node;
        assert(committed(tc, tv, yv));
        let ghost closed = *self;
        if state.mode == EditMode::Edit {
            set_node_at_path(&mut self.root, &state.path, new_node);
            self.refresh_flat();
            self.modified = true;
            assert(set_at(closed.root, self.root, state.path.deep_view(), yv));
        } else {
            let key: Option<&str> = match &state.pending_key {
                Some(k) => Some(k.as_str()),
                None => None,
            };
            self.add_node(state.mode, &state.path, key, new_node);
            assert(add_spec(closed, *self, state.mode, state.path.deep_view(), state.pending_key.deep_view(), yv));
        }
    }
}


// ---------------------------------------------------------------------------
// Keys
// ---------------------------------------------------------------------------

/// What the caller has to do after a key: nothing, save the document (then report with
/// `finish_save`), save it and quit (then report with `finish_save_and_quit`), pass the key to
/// the text input (then report its text with `set_input_text`), or open a text input holding
/// the dialog's text.
#[derive(Debug, Clone, Copy, PartialEq, Eq, Structural)]
pub enum AppAction {
    Nothing,
    Save,
    SaveAndQuit,
    ForwardToInput,
    OpenInput,
}

/// How saving went.
#[derive(Debug, Clone, PartialEq)]
pub enum SaveOutcome {
    Saved,
    WriteFailed(String),
    SerializeFailed(String),
}

/// The type chosen after Up: one higher in the list, editing a scalar never above String.
pub open spec fn type_up(mode: EditMode, type_cursor: usize) -> usize {
    let top: usize = if mode == EditMode::Edit { 2 } else { 0 };
    if type_cursor > top { (type_cursor - 1) as usize } else { top }
}

/// How saving went is recorded: a success clears the modified mark and shows the file name;
/// a failure shows why.
pub open spec fn save_finished(o: App, f: App, outcome: SaveOutcome) -> bool {
    match outcome {
        SaveOutcome::Saved => f.status@ == match o.file {
            Some(name) => name@,
            None => Seq::<char>::empty(),
        } && f == (App { modified: false, status: f.status, ..o }),
        SaveOutcome::WriteFailed(e) => f.status@ == "save error: "@ + e@ && f == (App { status: f.status, ..o }),
        SaveOutcome::SerializeFailed(e) => f.status@ == "serialize error: "@ + e@ && f == (App { status: f.status, ..o }),
    }
}

/// What a key does in the dialog.
pub open spec fn edit_key_spec(o: App, f: App, key: KeyPress, action: AppAction) -> bool {
    match o.edit {
        None => f == o && action == AppAction::Nothing,
        Some(st) => match st.phase {
            EditPhase::TypeSelect => match key.key {
                Key::Esc => f == (App { edit: None, ..o }) && action == AppAction::Nothing,
                Key::Up => action == AppAction::Nothing && f.edit == Some(EditState {
                    type_cursor: type_up(st.mode, st.type_cursor),
                    ..st
                }) && f == (App { edit: f.edit, ..o }),
                Key::Down => action == AppAction::Nothing && f.edit == Some(EditState {
                    type_cursor: if st.type_cursor + 1 < 5 { (st.type_cursor + 1) as usize } else { 5 },
                    ..st
                }) && f == (App { edit: f.edit, ..o }),
                Key::Enter | Key::Tab => confirm_type_spec(o, f) && action == (if f.edit is Some {
                    AppAction::OpenInput
                } else {
                    AppAction::Nothing
                }),
                _ => f == o && action == AppAction::Nothing,
            },
            EditPhase::KeyEdit(_) => match key.key {
                Key::Esc => action == AppAction::Nothing && f.edit == Some(EditState {
                    phase: EditPhase::TypeSelect,
                    pending_key: None,
                    ..st
                }) && f == (App { edit: f.edit, ..o }),
                Key::Enter => confirm_key_spec(o, f) && action == (if in_value_input(f) {
                    AppAction::OpenInput
                } else {
                    AppAction::Nothing
                }),
                _ => f == o && action == AppAction::ForwardToInput,
            },
            EditPhase::ValueEdit(_) => match key.key {
                Key::Esc => action == AppAction::Nothing && f.edit == Some(EditState {
                    phase: EditPhase::TypeSelect,
                    pending_key: None,
                    ..st
                }) && f == (App { edit: f.edit, ..o }),
                Key::Enter => commit_value_spec(o, f) && action == AppAction::Nothing,
                _ => f == o && action == AppAction::ForwardToInput,
            },
        },
    }
}

/// The cursor after Page Down: 20 rows further, at most the last row.
pub open spec fn page_down(c: usize, len: nat) -> usize {
    let last = if len == 0 { 0 } else { len - 1 };
    if c + 20 <= last { (c + 20) as usize } else { last as usize }
}

/// What a key other than Ctrl-C, `q` and `u` does outside the dialog. Every such key
/// withdraws a pending quit confirmation first.
pub open spec fn browse_key_spec(o: App, f: App, key: KeyPress, action: AppAction) -> bool {
    let o1 = App { confirm_quit: false, pending_g: false, ..o };
    let len = o.flat@.len();
    let plain = key.plain_spec();
    let k = key.key;
    if plain && (k == Key::Down || k == Key::Char('j')) {
        action == AppAction::Nothing && f == (App { cursor: if o.cursor + 1 < len { (o.cursor + 1) as usize } else { o.cursor }, ..o1 })
    } else if plain && (k == Key::Up || k == Key::Char('k')) {
        action == AppAction::Nothing && f == (App { cursor: if o.cursor > 0 { (o.cursor - 1) as usize } else { 0 }, ..o1 })
    } else if plain && k == Key::PageDown {
        action == AppAction::Nothing && f == (App { cursor: page_down(o.cursor, len), ..o1 })
    } else if plain && k == Key::PageUp {
        action == AppAction::Nothing && f == (App { cursor: if o.cursor >= 20 { (o.cursor - 20) as usize } else { 0 }, ..o1 })
    } else if plain && (k == Key::Enter || k == Key::Char(' ')) {
        action == AppAction::Nothing && toggle_collapse_spec(o1, f)
    } else if plain && k == Key::Char('e') {
        action == AppAction::Nothing && start_edit_spec(o1, f)
    } else if plain && k == Key::Char('a') {
        action == AppAction::Nothing && start_add_child_spec(o1, f)
    } else if plain && k == Key::Char('d') {
        action == AppAction::Nothing && delete_spec(o1, f)
    } else if (plain || key.shift_only_spec()) && k == Key::Char('D') {
        action == AppAction::Nothing && duplicate_spec(o1, f)
    } else if plain && k == Key::Char('y') {
        action == AppAction::Nothing && copy_spec(o1, f)
    } else if plain && k == Key::Char('p') {
        action == AppAction::Nothing && paste_spec(o1, f, true)
    } else if (plain || key.shift_only_spec()) && k == Key::Char('P') {
        action == AppAction::Nothing && paste_spec(o1, f, false)
    } else if (plain || key.shift_only_spec()) && k == Key::Char('K') {
        action == AppAction::Nothing && move_spec(o1, f, true)
    } else if (plain || key.shift_only_spec()) && k == Key::Char('J') {
        action == AppAction::Nothing && move_spec(o1, f, false)
    } else if plain && k == Key::Char('s') {
        if o.file is Some {
            f == o1 && action == AppAction::Save
        } else {
            status_set(o1, f, "no file to save"@) && action == AppAction::Nothing
        }
    } else if plain && k == Key::Char('[') {
        action == AppAction::Nothing && f == (App { show_left: !o.show_left, ..o1 })
    } else if plain && k == Key::Char(']') {
        action == AppAction::Nothing && f == (App { show_preview: !o.show_preview, ..o1 })
    } else if plain && k == Key::Char('r') {
        action == AppAction::Nothing && start_rename_spec(o1, f)
    } else if plain && k == Key::Char('/') {
        action == AppAction::Nothing && f == (App {
            search_active: true,
            search_query: f.search_query,
            search_match_cursor: 0,
            ..o1
        }) && f.search_query@.len() == 0
    } else if plain && k == Key::Char('n') {
        action == AppAction::Nothing && next_match_spec(o1, f, true)
    } else if (plain || key.shift_only_spec()) && k == Key::Char('N') {
        action == AppAction::Nothing && next_match_spec(o1, f, false)
    } else if plain && k == Key::Esc {
        action == AppAction::Nothing && if o.search_query@.len() > 0 {
            f == (App { search_query: f.search_query, search_match_cursor: 0, ..o1 }) && f.search_query@.len() == 0
        } else {
            f == o1
        }
    } else if plain && k == Key::Tab {
        action == AppAction::Nothing && lint_jump_spec(o1, f, true)
    } else if key.shift_only_spec() && k == Key::Tab {
        action == AppAction::Nothing && lint_jump_spec(o1, f, false)
    } else if (plain || key.shift_only_spec()) && k == Key::Char('S') {
        action == AppAction::Nothing && sort_spec(o1, f)
    } else if (plain || key.shift_only_spec()) && k == Key::Char('E') {
        action == AppAction::Nothing && fold_all_spec(o1, f, false)
    } else if (plain || key.shift_only_spec()) && k == Key::Char('C') {
        action == AppAction::Nothing && fold_all_spec(o1, f, true)
    } else if (plain || key.shift_only_spec()) && k == Key::Char('G') {
        action == AppAction::Nothing && f == (App { cursor: if len > 0 { (len - 1) as usize } else { 0 }, ..o1 })
    } else if plain && k == Key::Char('g') {
        action == AppAction::Nothing && if o.pending_g {
            f == (App { cursor: 0, ..o1 })
        } else {
            f == (App { pending_g: true, ..o1 })
        }
    } else {
        action == AppAction::Nothing && f == o1
    }
}

impl App {
    /// Answers a key in the dialog (see `edit_key_spec`).
    pub fn handle_key_edit(&mut self, key: KeyPress) -> (action: AppAction)
        ensures
            edit_key_spec(*old(self), *final(self), key, action),
    {
        let phase_kind: u8 = match &self.edit {
            Some(st) => match &st.phase {
                EditPhase::TypeSelect => 0,
                EditPhase::KeyEdit(_) => 1,
                EditPhase::ValueEdit(_) => 2,
            },
            None => {
                return AppAction::Nothing;
            },
        };
        if phase_kind == 0 {
            match key.key {
                Key::Esc => {
                    self.edit = None;
                    AppAction::Nothing
                },
                Key::Up => {
                    if let Some(st) = &mut self.edit {
                        let top: usize = if st.mode == EditMode::Edit { 2 } else { 0 };
                        st.type_cursor = if st.type_cursor > top { st.type_cursor - 1 } else { top };
                    }
                    AppAction::Nothing
                },
                Key::Down => {
                    if let Some(st) = &mut self.edit {
                        st.type_cursor = if st.type_cursor < 4 { st.type_cursor + 1 } else { 5 };
                    }
                    AppAction::Nothing
                },
                Key::Enter | Key::Tab => {
                    if self.confirm_type() {
                        AppAction::OpenInput
                    } else {
                        AppAction::Nothing
                    }
                },
                _ => AppAction::Nothing,
            }
        } else {
            match key.key {
                Key::Esc => {
                    if let Some(st) = &mut self.edit {
                        st.phase = EditPhase::TypeSelect;
                        st.pending_key = None;
                    }
                    AppAction::Nothing
                },
                Key::Enter => {
                    if phase_kind == 1 {
                        if self.confirm_key() {
                            AppAction::OpenInput
                        } else {
                            AppAction::Nothing
                        }
                    } else {
                        self.commit_value();
                        AppAction::Nothing
                    }
                },
                _ => AppAction::ForwardToInput,
            }
        }
    }

    /// Records the text of the dialog's input after the caller passed it a key.
    pub fn set_input_text(&mut self, text: String)
        ensures
            match old(self).edit {
                Some(st) => match st.phase {
                    EditPhase::KeyEdit(_) => final(self).edit == Some(EditState { phase: EditPhase::KeyEdit(text), ..st })
                        && *final(self) == (App { edit: final(self).edit, ..*old(self) }),
                    EditPhase::ValueEdit(_) => final(self).edit == Some(EditState { phase: EditPhase::ValueEdit(text), ..st })
                        && *final(self) == (App { edit: final(self).edit, ..*old(self) }),
                    EditPhase::TypeSelect => *final(self) == *old(self),
                },
                None => *final(self) == *old(self),
            },
    {
        if let Some(st) = &mut self.edit {
            match &st.phase {
                EditPhase::KeyEdit(_) => {
                    st.phase = EditPhase::KeyEdit(text);
                },
                EditPhase::ValueEdit(_) => {
                    st.phase = EditPhase::ValueEdit(text);
                },
                EditPhase::TypeSelect => {},
            }
        }
    }

    /// Records how saving went (see `save_finished`).
    pub fn finish_save(&mut self, outcome: SaveOutcome)
        ensures
            save_finished(*old(self), *final(self), outcome),
    {
        match outcome {
            SaveOutcome::Saved => {
                self.modified = false;
                self.status = match &self.file {
                    Some(f) => f.clone(),
                    None => String::new(),
                };
            },
            SaveOutcome::WriteFailed(e) => {
                let mut s = String::from_str("save error: ");
                append(&mut s, e.as_str());
                self.status = s;
            },
            SaveOutcome::SerializeFailed(e) => {
                let mut s = String::from_str("serialize error: ");
                append(&mut s, e.as_str());
                self.status = s;
            },
        }
    }

    /// Answers a key outside the dialog (see `browse_key_spec`).
    fn handle_key_browse(&mut self, key: KeyPress) -> (action: AppAction)
        ensures
            browse_key_spec(*old(self), *final(self), key, action),
    {
        let plain = key.plain();
        let shifted = key.shift_only();
        let k = key.key;
        self.confirm_quit = false;
        let was_g = self.pending_g;
        self.pending_g = false;
        let len = self.flat.len();
        if plain && (k == Key::Down || k == Key::Char('j')) {
            if len > 0 && self.cursor < len - 1 {
                self.cursor = self.cursor + 1;
            }
        } else if plain && (k == Key::Up || k == Key::Char('k')) {
            self.cursor = if self.cursor > 0 { self.cursor - 1 } else { 0 };
        } else if plain && k == Key::PageDown {
            let last = if len == 0 { 0 } else { len - 1 };
            self.cursor = if last >= 20 && self.cursor <= last - 20 { self.cursor + 20 } else { last };
        } else if plain && k == Key::PageUp {
            self.cursor = if self.cursor >= 20 { self.cursor - 20 } else { 0 };
        } else if plain && (k == Key::Enter || k == Key::Char(' ')) {
            self.toggle_collapse();
        } else if plain && k == Key::Char('e') {
            self.start_edit();
        } else if plain && k == Key::Char('a') {
            self.start_add_child();
        } else if plain && k == Key::Char('d') {
            self.delete_node();
        } else if (plain || shifted) && k == Key::Char('D') {
            self.duplicate_node();
        } else if plain && k == Key::Char('y') {
            self.copy_node();
        } else if plain && k == Key::Char('p') {
            self.paste_node(true);
        } else if (plain || shifted) && k == Key::Char('P') {
            self.paste_node(false);
        } else if (plain || shifted) && k == Key::Char('K') {
            self.move_node(true);
        } else if (plain || shifted) && k == Key::Char('J') {
            self.move_node(false);
        } else if plain && k == Key::Char('s') {
            if self.file.is_some() {
                return AppAction::Save;
            }
            self.status = String::from_str("no file to save");
        } else if plain && k == Key::Char('[') {
            self.show_left = !self.show_left;
        } else if plain && k == Key::Char(']') {
            self.show_preview = !self.show_preview;
        } else if plain && k == Key::Char('r') {
            self.start_rename();
        } else if plain && k == Key::Char('/') {
            self.search_active = true;
            self.search_query = String::new();
            self.search_match_cursor = 0;
        } else if plain && k == Key::Char('n') {
            self.next_match(true);
        } else if (plain || shifted) && k == Key::Char('N') {
            self.next_match(false);
        } else if plain && k == Key::Esc {
            if !self.search_query.as_str().is_empty() {
                self.search_query = String::new();
                self.search_match_cursor = 0;
            }
        } else if plain && k == Key::Tab {
            self.lint_jump(true);
        } else if shifted && k == Key::Tab {
            self.lint_jump(false);
        } else if (plain || shifted) && k == Key::Char('S') {
            self.sort_children();
        } else if (plain || shifted) && k == Key::Char('E') {
            self.fold_all(false);
        } else if (plain || shifted) && k == Key::Char('C') {
            self.fold_all(true);
        } else if (plain || shifted) && k == Key::Char('G') {
            self.cursor = if len > 0 { len - 1 } else { 0 };
        } else if plain && k == Key::Char('g') {
            if was_g {
                self.cursor = 0;
            } else {
                self.pending_g = true;
            }
        }
        AppAction::Nothing
    }
}

// ---------------------------------------------------------------------------
// Search and warnings
// ---------------------------------------------------------------------------

/// The rows of the listing that the search query matches, in order.
pub open spec fn app_hits(o: App) -> Seq<usize> {
    search_hits(o.flat.deep_view(), o.root, o.search_query@, o.flat@.len() as int)
}

/// What a key does while the search query is typed: Esc closes the search and clears the
/// query; Enter closes it and puts the cursor on the first match, if any; Backspace drops the
/// last character of the query; a character (Shift allowed, no other modifier) is added to
/// it. A change of the query starts again from the first match; other keys do nothing.
pub open spec fn search_key_spec(o: App, f: App, key: KeyPress) -> bool {
    let k = key.key;
    if k == Key::Esc {
        f == (App { search_active: false, search_query: f.search_query, search_match_cursor: 0, ..o })
            && f.search_query@.len() == 0
    } else if k == Key::Enter {
        let hits = app_hits(o);
        f == (App {
            search_active: false,
            search_match_cursor: 0,
            cursor: if hits.len() > 0 { hits[0] } else { o.cursor },
            ..o
        })
    } else if k == Key::Backspace {
        f == (App { search_query: f.search_query, search_match_cursor: 0, ..o }) && f.search_query@ == (if o.search_query@.len()
            > 0 {
            o.search_query@.drop_last()
        } else {
            o.search_query@
        })
    } else if !key.ctrl && !key.alt && !key.other && k is Char {
        f == (App { search_query: f.search_query, search_match_cursor: 0, ..o }) && f.search_query@
            == o.search_query@.push(k->Char_0)
    } else {
        f == o
    }
}

/// Every match is a row of the listing.
proof fn lemma_app_hits(o: App)
    ensures
        forall|i: int| 0 <= i < app_hits(o).len() ==> #[trigger] app_hits(o)[i] < o.flat@.len(),
{
    vstd::std_specs::vec::axiom_spec_len(&o.flat);
    assert(o.flat.deep_view().len() == o.flat@.len());
    lemma_search_hits(o.flat.deep_view(), o.root, o.search_query@, o.flat@.len() as int);
}

/// The match `n` (forward) or `N` goes to, from the current one, wrapping around.
pub open spec fn match_target(mc: int, count: int, forward: bool) -> int {
    if forward {
        if mc + 1 < count { mc + 1 } else { 0 }
    } else {
        if 0 < mc && mc <= count { mc - 1 } else { count - 1 }
    }
}

/// What `n` and `N` do: with matches, the cursor goes to the next (or previous) one,
/// wrapping around; without, nothing happens.
pub open spec fn next_match_spec(o: App, f: App, forward: bool) -> bool {
    let hits = app_hits(o);
    if hits.len() == 0 {
        f == o
    } else {
        let t = match_target(o.search_match_cursor as int, hits.len() as int, forward);
        f == (App { cursor: hits[t], search_match_cursor: t as usize, ..o })
    }
}

/// The warning `Tab` (forward) or Shift+Tab goes to: the next (or previous) one, wrapping
/// around, when the cursor is on the current warning; the current one otherwise.
pub open spec fn lint_target(o: App, forward: bool) -> int {
    let ws = o.lint_warnings.deep_view();
    let n = ws.len() as int;
    let lc = o.lint_cursor as int;
    let on = lc < n && o.cursor_path() == ws[lc].path;
    if on {
        match_target(lc, n, forward)
    } else if lc < n {
        lc
    } else if forward {
        0
    } else {
        n - 1
    }
}

/// `new` is `m` with the container at `q` unfolded if it was folded.
pub open spec fn unfold_link(m: JNode, new: JNode, q: Seq<KeyV>) -> bool {
    match get_spec(m, q) {
        Some(x) => if is_collapsed_spec(x) {
            toggled(m, new, q)
        } else {
            new == m
        },
        None => new == m,
    }
}

/// `roots` are the document before and after each of the first `n` steps of unfolding the
/// containers on the way to `p`, from the root down.
pub open spec fn unfold_steps(roots: Seq<JNode>, p: Seq<KeyV>, n: int) -> bool {
    &&& roots.len() == n + 1
    &&& forall|i: int| #![trigger roots[i]] 0 <= i < n ==> unfold_link(roots[i], roots[i + 1], p.subrange(0, i))
}

/// `new` is `old` with every folded container on the way to `p` unfolded, from the root down.
pub open spec fn unfolded_along(old: JNode, new: JNode, p: Seq<KeyV>) -> bool {
    exists|roots: Seq<JNode>| #[trigger] unfold_steps(roots, p, p.len() as int) && roots[0] == old && roots.last() == new
}

/// What Tab and Shift+Tab do: with warnings, the containers on the way to the target warning
/// are unfolded, the cursor goes to its row and it becomes the current warning; without,
/// nothing happens.
pub open spec fn lint_jump_spec(o: App, f: App, forward: bool) -> bool {
    let ws = o.lint_warnings.deep_view();
    if ws.len() == 0 {
        f == o
    } else {
        let t = lint_target(o, forward);
        let p = ws[t].path;
        &&& unfolded_along(o.root, f.root, p)
        &&& f.refreshed_at(&o, Some(p))
        &&& f.lint_cursor == t
        &&& f == (App {
            root: f.root,
            flat: f.flat,
            annotated: f.annotated,
            lint_warnings: f.lint_warnings,
            cursor: f.cursor,
            lint_cursor: f.lint_cursor,
            ..o
        })
    }
}

/// Unfolds every folded container on the way to `p`, from the root down.
fn unfold_path(root: &mut JNode, p: &[JKey])
    ensures
        unfolded_along(*old(root), *final(root), p.deep_view()),
{
    let ghost o = *root;
    let ghost pv = p.deep_view();
    let ghost mut roots: Seq<JNode> = seq![o];
    let mut i: usize = 0;
    while i < p.len()
        invariant
            i <= p@.len(),
            pv == p.deep_view(),
            pv.len() == p@.len(),
            unfold_steps(roots, pv, i as int),
            roots[0] == o,
            roots.last() == *root,
        decreases p@.len() - i,
    {
        let pre = path_prefix(p, i);
        let ghost m = *root;
        let folded = match get_node_at_path(root, pre.as_slice()) {
            Some(x) => x.is_collapsed(),
            None => false,
        };
        if folded {
            toggle_node_collapse(root, pre.as_slice());
        }
        proof {
            let q = pv.subrange(0, i as int);
            assert(pre.deep_view() =~= q);
            assert(unfold_link(m, *root, q));
            let old_roots = roots;
            roots = roots.push(*root);
            assert forall|k: int| #![trigger roots[k]] 0 <= k < i + 1 implies unfold_link(roots[k], roots[k + 1], pv.subrange(0, k)) by {
                if k < i {
                    assert(roots[k] == old_roots[k] && roots[k + 1] == old_roots[k + 1]);
                    assert(old_roots[k] == old_roots[k]);
                } else {
                    assert(roots[k] == m);
                }
            }
        }
        i = i + 1;
    }
    assert(pv.len() == i);
}

/// What `E` (unfold, `flag` false) and `C` (fold, `flag` true) do: the node under the cursor
/// and every container in it get the folding `flag`; the views are rebuilt and the cursor kept
/// within the rows. Without a node under the cursor nothing happens. Folding is no edit: the
/// modified mark stays as it was.
pub open spec fn fold_all_spec(o: App, f: App, flag: bool) -> bool {
    let p = o.cursor_path();
    match get_spec(o.root, p) {
        Some(x) => {
            &&& exists|y: JNode| refolded(x, y, flag) && #[trigger] replaced_at(o.root, f.root, p, y)
            &&& f.refreshed_from(&o)
            &&& f == (App { root: f.root, flat: f.flat, annotated: f.annotated, lint_warnings: f.lint_warnings, cursor: f.cursor, ..o })
        },
        None => f == o,
    }
}

impl App {
    /// Folds (`flag`) or unfolds the node under the cursor and everything in it (see
    /// `fold_all_spec`).
    pub fn fold_all(&mut self, flag: bool)
        ensures
            fold_all_spec(*old(self), *final(self), flag),
    {
        let path = self.current_path();
        let y = match get_node_at_path(&self.root, path.as_slice()) {
            Some(x) => refold(x, flag),
            None => {
                return;
            },
        };
        let ghost yy = y;
        set_node_at_path(&mut self.root, path.as_slice(), y);
        assert(replaced_at(old(self).root, self.root, path.deep_view(), yy));
        self.refresh_flat();
    }
}

impl App {
    /// Answers a key while the search query is typed (see `search_key_spec`).
    fn search_key(&mut self, key: KeyPress)
        ensures
            search_key_spec(*old(self), *final(self), key),
    {
        let k = key.key;
        if k == Key::Esc {
            self.search_active = false;
            self.search_query = String::new();
            self.search_match_cursor = 0;
        } else if k == Key::Enter {
            let hits = search_matches(&self.flat, &self.root, self.search_query.as_str());
            self.search_active = false;
            self.search_match_cursor = 0;
            if hits.len() > 0 {
                self.cursor = hits[0];
            }
        } else if k == Key::Backspace {
            let mut cs = chars_of(self.search_query.as_str());
            if cs.len() > 0 {
                cs.pop();
            }
            self.search_query = string_of(cs.as_slice());
            self.search_match_cursor = 0;
        } else if !key.ctrl && !key.alt && !key.other {
            match k {
                Key::Char(c) => {
                    push_char(&mut self.search_query, c);
                    self.search_match_cursor = 0;
                },
                _ => {},
            }
        }
    }

    /// Goes to the next (or previous) match (see `next_match_spec`).
    fn next_match(&mut self, forward: bool)
        ensures
            next_match_spec(*old(self), *final(self), forward),
    {
        let hits = search_matches(&self.flat, &self.root, self.search_query.as_str());
        let count = hits.len();
        if count == 0 {
            return;
        }
        let mc = self.search_match_cursor;
        let t: usize = if forward {
            if mc < count - 1 { mc + 1 } else { 0 }
        } else {
            if 0 < mc && mc <= count { mc - 1 } else { count - 1 }
        };
        self.cursor = hits[t];
        self.search_match_cursor = t;
    }

    /// Goes to the next (or previous) warning (see `lint_jump_spec`).
    fn lint_jump(&mut self, forward: bool)
        ensures
            lint_jump_spec(*old(self), *final(self), forward),
    {
        let n = self.lint_warnings.len();
        if n == 0 {
            return;
        }
        let ghost ws = self.lint_warnings.deep_view();
        let lc = self.lint_cursor;
        let here = self.current_path();
        let on = lc < n && path_eq(self.lint_warnings[lc].path.as_slice(), here.as_slice());
        proof {
            if lc < n {
                assert(ws[lc as int] == self.lint_warnings@[lc as int].deep_view());
            }
        }
        let t: usize = if on {
            if forward {
                if lc < n - 1 { lc + 1 } else { 0 }
            } else {
                if lc > 0 { lc - 1 } else { n - 1 }
            }
        } else if lc < n {
            lc
        } else if forward {
            0
        } else {
            n - 1
        };
        let target = clone_path(self.lint_warnings[t].path.as_slice());
        assert(ws[t as int] == self.lint_warnings@[t as int].deep_view());
        unfold_path(&mut self.root, target.as_slice());
        self.lint_cursor = t;
        self.refresh_at(Some(target));
    }
}

// ---------------------------------------------------------------------------
// Renaming a key
// ---------------------------------------------------------------------------

/// What `r` does: on an object field the rename prompt opens with its key; on another row a
/// message says only object keys can be renamed.
pub open spec fn start_rename_spec(o: App, f: App) -> bool {
    let p = o.cursor_path();
    if p.len() > 0 && p.last() is Field {
        f == (App { rename_input: f.rename_input, ..o }) && f.rename_input is Some && f.rename_input->Some_0@
            == p.last()->Field_0
    } else {
        status_set(o, f, "only object keys can be renamed"@)
    }
}

/// `new` is `old` with the key of entry `j` of the object at `pp` changed to `nk`.
pub open spec fn renamed_at(old: JNode, new: JNode, pp: Seq<KeyV>, j: int, nk: Seq<char>) -> bool {
    match get_spec(old, pp) {
        Some(JNode::Object { entries: ex, collapsed: c }) => exists|y: JNode|
            (y matches JNode::Object { entries: ey, collapsed: cy } && cy == c && ey@.len() == ex@.len() && (forall|m: int|
                0 <= m < ex@.len() && m != j ==> ey@[m] == ex@[m]) && ey@[j].0@ == nk && ey@[j].1 == ex@[j].1)
                && #[trigger] replaced_at(old, new, pp, y),
        _ => false,
    }
}

/// What a key does in the rename prompt: Esc closes it; Backspace and characters edit the key
/// typed; Enter closes it and renames the field under the cursor to the key typed, unless
/// the key is unchanged (nothing happens) or another field of the object already has it (a
/// message says so). A rename rebuilds the views with the cursor on the field, marks the
/// document modified and keeps a copy of it as it was for undo.
pub open spec fn rename_key_spec(o: App, f: App, key: KeyPress) -> bool {
    let k = key.key;
    let t = o.rename_input->Some_0@;
    let closed = App { rename_input: None, ..o };
    let p = o.cursor_path();
    let pp = p.drop_last();
    if k == Key::Esc {
        f == closed
    } else if k == Key::Backspace {
        f == (App { rename_input: f.rename_input, ..o }) && f.rename_input is Some && f.rename_input->Some_0@ == (if t.len() > 0 {
            t.drop_last()
        } else {
            t
        })
    } else if !key.ctrl && !key.alt && !key.other && k is Char {
        f == (App { rename_input: f.rename_input, ..o }) && f.rename_input is Some && f.rename_input->Some_0@ == t.push(k->Char_0)
    } else if k == Key::Enter {
        if p.len() > 0 && p.last() is Field && (get_spec(o.root, pp) matches Some(JNode::Object { entries: ex, .. })
            && find_key(ex@, p.last()->Field_0) is Some) {
            let ex = get_spec(o.root, pp)->Some_0->entries;
            let j = find_key(ex@, p.last()->Field_0)->Some_0;
            if t == p.last()->Field_0 {
                f == closed
            } else if find_key(ex@, t) is Some {
                status_set(closed, f, "key already exists"@)
            } else {
                &&& renamed_at(o.root, f.root, pp, j, t)
                &&& recorded_copy(o.history@, f.history@, o.root)
                &&& f.future@.len() == 0
                &&& f.refreshed_at(&o, Some(pp.push(KeyV::Field(t))))
                &&& f == (App {
                    root: f.root,
                    flat: f.flat,
                    annotated: f.annotated,
                    lint_warnings: f.lint_warnings,
                    cursor: f.cursor,
                    modified: true,
                    history: f.history,
                    future: f.future,
                    ..closed
                })
            }
        } else {
            f == closed
        }
    } else {
        f == o
    }
}

/// Changes the key of entry `j` of the object at `pp` to `nk`.
fn rename_entry(root: &mut JNode, pp: &[JKey], j: usize, nk: String)
    requires
        get_spec(*old(root), pp.deep_view()) matches Some(JNode::Object { entries, .. }) && j < entries@.len(),
    ensures
        renamed_at(*old(root), *final(root), pp.deep_view(), j as int, nk@),
{
    let ghost y: JNode;
    let ghost nkv = nk@;
    match get_node_at_path_mut(root, pp) {
        Some(target) => {
            let ghost x = *target;
            match target {
                JNode::Object { entries, .. } => {
                    let e = entries.remove(j);
                    entries.insert(j, (nk, e.1));
                },
                _ => {},
            }
            proof {
                y = *target;
            }
            assert(y->entries@.len() == x->entries@.len());
            assert forall|m: int| 0 <= m < x->entries@.len() && m != j implies y->entries@[m] == x->entries@[m] by {}
        },
        None => {},
    }
    assert(replaced_at(*old(root), *root, pp.deep_view(), y));
}

impl App {
    /// Opens the rename prompt (see `start_rename_spec`).
    fn start_rename(&mut self)
        ensures
            start_rename_spec(*old(self), *final(self)),
    {
        let path = self.current_path();
        let n = path.len();
        if n > 0 {
            match &path[n - 1] {
                JKey::Field(k) => {
                    self.rename_input = Some(k.clone());
                    return;
                },
                JKey::Index(_) => {},
            }
        }
        self.status = String::from_str("only object keys can be renamed");
    }

    /// Answers a key in the rename prompt (see `rename_key_spec`).
    #[verifier::rlimit(40)]
    fn rename_key(&mut self, key: KeyPress)
        requires
            old(self).rename_input is Some,
        ensures
            rename_key_spec(*old(self), *final(self), key),
    {
        let k = key.key;
        let t = match &self.rename_input {
            Some(t) => t.clone(),
            None => String::new(),
        };
        if k == Key::Esc {
            self.rename_input = None;
        } else if k == Key::Backspace {
            let mut cs = chars_of(t.as_str());
            if cs.len() > 0 {
                cs.pop();
            }
            self.rename_input = Some(string_of(cs.as_slice()));
        } else if !key.ctrl && !key.alt && !key.other && matches!(k, Key::Char(_)) {
            let mut x = t;
            match k {
                Key::Char(c) => push_char(&mut x, c),
                _ => {},
            }
            self.rename_input = Some(x);
        } else if k == Key::Enter {
            self.rename_input = None;
            self.apply_rename(t);
        }
    }

    /// Renames the field under the cursor to `t` (the Enter case of `rename_key_spec`, the
    /// prompt closed already).
    fn apply_rename(&mut self, t: String)
        requires
            old(self).rename_input is None,
        ensures
            ({
                let o = *old(self);
                let p = o.cursor_path();
                let pp = p.drop_last();
                if p.len() > 0 && p.last() is Field && (get_spec(o.root, pp) matches Some(JNode::Object { entries: ex, .. })
                    && find_key(ex@, p.last()->Field_0) is Some) {
                    let ex = get_spec(o.root, pp)->Some_0->entries;
                    let j = find_key(ex@, p.last()->Field_0)->Some_0;
                    if t@ == p.last()->Field_0 {
                        *final(self) == o
                    } else if find_key(ex@, t@) is Some {
                        status_set(o, *final(self), "key already exists"@)
                    } else {
                        &&& renamed_at(o.root, final(self).root, pp, j, t@)
                        &&& recorded_copy(o.history@, final(self).history@, o.root)
                        &&& final(self).future@.len() == 0
                        &&& final(self).refreshed_at(&o, Some(pp.push(KeyV::Field(t@))))
                        &&& *final(self) == (App {
                            root: final(self).root,
                            flat: final(self).flat,
                            annotated: final(self).annotated,
                            lint_warnings: final(self).lint_warnings,
                            cursor: final(self).cursor,
                            modified: true,
                            history: final(self).history,
                            future: final(self).future,
                            ..o
                        })
                    }
                } else {
                    *final(self) == o
                }
            }),
    {
        let path = self.current_path();
        let n = path.len();
        if n == 0 {
            return;
        }
        let old_key = match &path[n - 1] {
            JKey::Field(k) => k.clone(),
            JKey::Index(_) => {
                return;
            },
        };
        let pp = path_prefix(path.as_slice(), n - 1);
        assert(pp.deep_view() =~= path.deep_view().drop_last());
        let j = match get_node_at_path(&self.root, pp.as_slice()) {
            Some(JNode::Object { entries, .. }) => {
                match find_entry(entries, &old_key) {
                    Some(j) => {
                        if text_eq(t.as_str(), old_key.as_str()) {
                            return;
                        }
                        if find_entry(entries, &t).is_some() {
                            self.status = String::from_str("key already exists");
                            return;
                        }
                        j
                    },
                    None => {
                        return;
                    },
                }
            },
            _ => {
                return;
            },
        };
        let doc = clone_node(&self.root);
        let mut np = clone_path(pp.as_slice());
        let nk = t.clone();
        np.push(JKey::Field(t));
        assert(np.deep_view() =~= pp.deep_view().push(KeyV::Field(nk@)));
        rename_entry(&mut self.root, pp.as_slice(), j, nk);
        self.record(doc);
        self.future = Vec::new();
        self.modified = true;
        self.refresh_at(Some(np));
    }
}

/// What `q` does outside the dialog: the first press asks for confirmation; the second quits
/// an unmodified document, and on a modified one opens the save dialog.
pub open spec fn quit_key_spec(o: App, f: App) -> bool {
    if !o.confirm_quit {
        f == (App { confirm_quit: true, ..o })
    } else if o.modified {
        f == (App { confirm_quit: false, save_dialog: true, ..o })
    } else {
        f == (App { quit: true, ..o })
    }
}

/// What a key does in the save dialog: `s` saves and quits (a message without a file),
/// `n` quits without saving, Esc cancels; other keys do nothing.
pub open spec fn save_dialog_key_spec(o: App, f: App, key: KeyPress, action: AppAction) -> bool {
    let closed = App { save_dialog: false, ..o };
    if key.plain_spec() && key.key == Key::Char('s') {
        if o.file is Some {
            f == closed && action == AppAction::SaveAndQuit
        } else {
            status_set(closed, f, "no file to save"@) && action == AppAction::Nothing
        }
    } else if key.plain_spec() && key.key == Key::Char('n') {
        f == (App { quit: true, ..closed }) && action == AppAction::Nothing
    } else if key.key == Key::Esc {
        f == closed && action == AppAction::Nothing
    } else {
        f == o && action == AppAction::Nothing
    }
}

/// What undoing does: the last document kept comes back (views rebuilt, marked modified) and
/// the document it replaces is kept for redo; or a message says there is none.
pub open spec fn undo_spec(o: App, f: App) -> bool {
    if o.history@.len() == 0 {
        status_set(o, f, "nothing to undo"@)
    } else {
        &&& f.root == o.history@.last()
        &&& f.history@ == o.history@.drop_last()
        &&& f.future@ == o.future@.push(o.root)
        &&& f.status@ == "undo"@
        &&& f.refreshed_from(&o)
        &&& f == (App {
            root: f.root,
            flat: f.flat,
            annotated: f.annotated,
            lint_warnings: f.lint_warnings,
            cursor: f.cursor,
            modified: true,
            status: f.status,
            history: f.history,
            future: f.future,
            ..o
        })
    }
}

/// What redoing does: the last document undone comes back (views rebuilt, marked modified)
/// and the document it replaces is kept for undo; or a message says there is none.
pub open spec fn redo_spec(o: App, f: App) -> bool {
    if o.future@.len() == 0 {
        status_set(o, f, "nothing to redo"@)
    } else {
        &&& f.root == o.future@.last()
        &&& f.future@ == o.future@.drop_last()
        &&& recorded(o.history@, f.history@)
        &&& f.history@.last() == o.root
        &&& f.status@ == "redo"@
        &&& f.refreshed_from(&o)
        &&& f == (App {
            root: f.root,
            flat: f.flat,
            annotated: f.annotated,
            lint_warnings: f.lint_warnings,
            cursor: f.cursor,
            modified: true,
            status: f.status,
            history: f.history,
            future: f.future,
            ..o
        })
    }
}

/// `after` is the history `before` with one more document kept last, the oldest dropped to
/// keep at most `UNDO_LEVELS` when it was full.
pub open spec fn recorded(before: Seq<JNode>, after: Seq<JNode>) -> bool {
    let kept = if before.len() >= UNDO_LEVELS { before.drop_first() } else { before };
    &&& after.len() == kept.len() + 1
    &&& after.take(kept.len() as int) == kept
}

/// The history `after` keeps a copy of `doc` last, after what `before` kept.
pub open spec fn recorded_copy(before: Seq<JNode>, after: Seq<JNode>, doc: JNode) -> bool {
    recorded(before, after) && deep_same(doc, after.last())
}

/// What a key does apart from quitting and undo: in the dialog or outside it.
pub open spec fn step_spec(o: App, f: App, key: KeyPress, action: AppAction) -> bool {
    if o.edit is Some {
        edit_key_spec(o, f, key, action)
    } else {
        browse_key_spec(o, f, key, action)
    }
}

/// The step of `key` changed the document: run on `o` marked unmodified, it marked it
/// modified (`f` being the editor after the key, with the history as before).
pub open spec fn step_changed_doc(o: App, f: App, key: KeyPress, action: AppAction) -> bool {
    step_spec(App { modified: false, ..o }, App { modified: true, history: o.history, future: o.future, ..f }, key, action)
}

/// What a key does: Ctrl-C quits from anywhere; the save dialog takes the keys while it is
/// open; outside the dialog `q` quits (see `quit_key_spec`) and `u` undoes; any other key
/// is a step (see `step_spec`), and a step that changes the document keeps a copy of it
/// as it was for undo.
pub open spec fn key_spec(o: App, f: App, key: KeyPress, action: AppAction) -> bool {
    let k = key.key;
    if key.ctrl_only_spec() && k == Key::Char('c') {
        f == (App { quit: true, ..o }) && action == AppAction::Nothing
    } else if o.edit is None && o.save_dialog {
        save_dialog_key_spec(o, f, key, action)
    } else if o.edit is None && o.search_active {
        search_key_spec(o, f, key) && action == AppAction::Nothing
    } else if o.edit is None && o.rename_input is Some {
        rename_key_spec(o, f, key) && action == AppAction::Nothing
    } else if o.edit is None && key.plain_spec() && k == Key::Char('q') {
        quit_key_spec(o, f) && action == AppAction::Nothing
    } else if o.edit is None && key.plain_spec() && k == Key::Char('u') {
        undo_spec(App { confirm_quit: false, ..o }, f) && action == AppAction::Nothing
    } else if o.edit is None && key.ctrl_only_spec() && k == Key::Char('r') {
        redo_spec(App { confirm_quit: false, ..o }, f) && action == AppAction::Nothing
    } else {
        ||| step_changed_doc(o, f, key, action) && f.modified && recorded_copy(o.history@, f.history@, o.root)
            && f.future@.len() == 0
        ||| step_spec(App { modified: false, ..o }, App { modified: false, history: o.history, ..f }, key, action)
            && f.modified == o.modified && f.history == o.history
    }
}

/// The keys whose step can change the document: confirming in the dialog; deleting,
/// duplicating, pasting, moving and sorting outside it.
pub open spec fn may_edit(key: KeyPress, editing: bool) -> bool {
    let k = key.key;
    let plain = key.plain_spec();
    let shifted = plain || key.shift_only_spec();
    if editing {
        k == Key::Enter || k == Key::Tab
    } else {
        (plain && (k == Key::Char('d') || k == Key::Char('p'))) || (shifted && (k == Key::Char('D') || k == Key::Char(
            'P',
        ) || k == Key::Char('K') || k == Key::Char('J') || k == Key::Char('S')))
    }
}

fn key_may_edit(key: &KeyPress, editing: bool) -> (r: bool)
    ensures
        r == may_edit(*key, editing),
{
    let k = key.key;
    let plain = key.plain();
    let shifted = plain || key.shift_only();
    if editing {
        k == Key::Enter || k == Key::Tab
    } else {
        (plain && (k == Key::Char('d') || k == Key::Char('p'))) || (shifted && (k == Key::Char('D') || k == Key::Char(
            'P',
        ) || k == Key::Char('K') || k == Key::Char('J') || k == Key::Char('S')))
    }
}

impl App {
    /// Records how saving before quitting went (see `save_finished`); a success quits.
    pub fn finish_save_and_quit(&mut self, outcome: SaveOutcome)
        ensures
            save_finished(*old(self), App { quit: old(self).quit, ..*final(self) }, outcome),
            final(self).quit == (old(self).quit || outcome is Saved),
    {
        let saved = match &outcome {
            SaveOutcome::Saved => true,
            _ => false,
        };
        self.finish_save(outcome);
        if saved {
            self.quit = true;
        }
    }

    fn step(&mut self, key: KeyPress) -> (action: AppAction)
        ensures
            step_spec(*old(self), *final(self), key, action),
    {
        if self.edit.is_some() {
            self.handle_key_edit(key)
        } else {
            self.handle_key_browse(key)
        }
    }

    /// Keeps a document for undo (see `recorded`).
    fn record(&mut self, doc: JNode)
        ensures
            recorded(old(self).history@, final(self).history@),
            final(self).history@.last() == doc,
            *final(self) == (App { history: final(self).history, ..*old(self) }),
    {
        let ghost before = self.history@;
        if self.history.len() >= UNDO_LEVELS {
            self.history.remove(0);
            assert(self.history@ =~= before.drop_first());
        }
        let ghost kept = self.history@;
        self.history.push(doc);
        assert(self.history@.take(kept.len() as int) =~= kept);
    }

    fn undo(&mut self)
        ensures
            undo_spec(*old(self), *final(self)),
    {
        if self.history.len() == 0 {
            self.status = String::from_str("nothing to undo");
            return;
        }
        let ghost o = *self;
        match self.history.pop() {
            Some(doc) => {
                let mut current = doc;
                std::mem::swap(&mut self.root, &mut current);
                self.future.push(current);
                self.refresh_flat();
                self.modified = true;
                self.status = String::from_str("undo");
            },
            None => {},
        }
    }

    fn redo(&mut self)
        ensures
            redo_spec(*old(self), *final(self)),
    {
        if self.future.len() == 0 {
            self.status = String::from_str("nothing to redo");
            return;
        }
        match self.future.pop() {
            Some(doc) => {
                let mut current = doc;
                std::mem::swap(&mut self.root, &mut current);
                self.record(current);
                self.refresh_flat();
                self.modified = true;
                self.status = String::from_str("redo");
            },
            None => {},
        }
    }

    fn save_dialog_key(&mut self, key: KeyPress) -> (action: AppAction)
        ensures
            save_dialog_key_spec(*old(self), *final(self), key, action),
    {
        let k = key.key;
        if key.plain() && k == Key::Char('s') {
            self.save_dialog = false;
            if self.file.is_some() {
                return AppAction::SaveAndQuit;
            }
            self.status = String::from_str("no file to save");
        } else if key.plain() && k == Key::Char('n') {
            self.save_dialog = false;
            self.quit = true;
        } else if k == Key::Esc {
            self.save_dialog = false;
        }
        AppAction::Nothing
    }

    fn quit_key(&mut self)
        ensures
            quit_key_spec(*old(self), *final(self)),
    {
        if !self.confirm_quit {
            self.confirm_quit = true;
        } else if self.modified {
            self.confirm_quit = false;
            self.save_dialog = true;
        } else {
            self.quit = true;
        }
    }

    /// Answers a key (see `key_spec`).
    pub fn handle_key(&mut self, key: KeyPress) -> (action: AppAction)
        ensures
            key_spec(*old(self), *final(self), key, action),
    {
        let k = key.key;
        if key.ctrl_only() && k == Key::Char('c') {
            self.quit = true;
            return AppAction::Nothing;
        }
        if self.edit.is_none() {
            if self.save_dialog {
                return self.save_dialog_key(key);
            }
            if self.search_active {
                self.search_key(key);
                return AppAction::Nothing;
            }
            if self.rename_input.is_some() {
                self.rename_key(key);
                return AppAction::Nothing;
            }
            if key.plain() && k == Key::Char('q') {
                self.quit_key();
                return AppAction::Nothing;
            }
            if key.plain() && k == Key::Char('u') {
                self.confirm_quit = false;
                self.undo();
                return AppAction::Nothing;
            }
            if key.ctrl_only() && k == Key::Char('r') {
                self.confirm_quit = false;
                self.redo();
                return AppAction::Nothing;
            }
        }
        self.step_recorded(key)
    }

    #[verifier::rlimit(60)]
    #[verifier::spinoff_prover]
    fn step_recorded(&mut self, key: KeyPress) -> (action: AppAction)
        ensures
            step_changed_doc(*old(self), *final(self), key, action) && final(self).modified && recorded_copy(
                old(self).history@,
                final(self).history@,
                old(self).root,
            ) && final(self).future@.len() == 0 || step_spec(App { modified: false, ..*old(self) }, App { modified: false, history: old(self).history, ..*final(self) }, key, action)
                && final(self).modified == old(self).modified && final(self).history == old(self).history,
    {
        let ghost o = *self;
        let snapshot = if key_may_edit(&key, self.edit.is_some()) {
            Some(clone_node(&self.root))
        } else {
            None
        };
        let was = self.modified;
        self.modified = false;
        let ghost o0 = *self;
        let action = self.step(key);
        let ghost s = *self;
        let touched = self.modified;
        self.modified = was || touched;
        if touched {
            match snapshot {
                Some(doc) => {
                    self.record(doc);
                    self.future = Vec::new();
                    assert(App { modified: true, history: o.history, future: o.future, ..*self } == s);
                },
                None => {
                    proof {
                        lemma_quiet_step(o0, s, key, action);
                    }
                },
            }
        } else {
            assert(App { modified: false, history: o.history, ..*self } == s);
        }
        action
    }
}

// ---------------------------------------------------------------------------
// Scrolling
// ---------------------------------------------------------------------------

/// `a`, or zero where it is negative.
pub open spec fn sat(a: int) -> int {
    if a > 0 { a } else { 0 }
}

/// Index of the first line (from `i` on) that belongs to the node at `t` or below it.
pub open spec fn first_under(lines: Seq<LineV>, t: Seq<KeyV>, i: int) -> Option<int>
    decreases lines.len() - i,
{
    if i < 0 || i >= lines.len() {
        None
    } else if is_prefix(t, lines[i].path) {
        Some(i)
    } else {
        first_under(lines, t, i + 1)
    }
}

/// Index of the last of the first `n` lines that belongs to the node at `t` or below it.
pub open spec fn last_under(lines: Seq<LineV>, t: Seq<KeyV>, n: int) -> Option<int>
    decreases n,
{
    if n <= 0 || n > lines.len() {
        None
    } else if is_prefix(t, lines[n - 1].path) {
        Some(n - 1)
    } else {
        last_under(lines, t, n - 1)
    }
}

/// The explorer's first shown row on a terminal `height` rows high: the table shows 65% of
/// the rows above the status line, less its border and header; the cursor row is kept in view.
pub open spec fn table_scroll_spec(cursor: int, scroll: int, height: int) -> int {
    let inner = sat(sat(height - 1) * 65 / 100 - 3);
    if cursor < scroll {
        cursor
    } else if cursor >= scroll + inner {
        sat(cursor - inner) + 1
    } else {
        scroll
    }
}

/// The source pane's first shown line: the lines of the cursor's node are brought into view
/// when their top is above it, or when they fit and their bottom is below it.
pub open spec fn left_scroll_spec(lines: Seq<LineV>, rows: Seq<RowV>, cursor: int, left: int, height: int) -> int {
    let inner = sat(sat(height - 1) - 2);
    if 0 <= cursor < rows.len() {
        match first_under(lines, rows[cursor].path, 0) {
            Some(f0) => {
                let l0 = match last_under(lines, rows[cursor].path, lines.len() as int) {
                    Some(l) => l,
                    None => f0,
                };
                if f0 < left {
                    f0
                } else if l0 - f0 + 1 <= inner && l0 >= left + inner {
                    l0 + 1 - inner
                } else {
                    left
                }
            },
            None => left,
        }
    } else {
        left
    }
}

proof fn lemma_first_under(lines: Seq<LineV>, t: Seq<KeyV>, i: int)
    requires
        0 <= i,
    ensures
        match first_under(lines, t, i) {
            Some(f) => i <= f < lines.len() && is_prefix(t, lines[f].path),
            None => forall|m: int| i <= m < lines.len() ==> !is_prefix(t, #[trigger] lines[m].path),
        },
    decreases lines.len() - i,
{
    if i < lines.len() && !is_prefix(t, lines[i].path) {
        lemma_first_under(lines, t, i + 1);
    }
}

proof fn lemma_last_under(lines: Seq<LineV>, t: Seq<KeyV>, n: int, f: int)
    requires
        0 <= f < n <= lines.len(),
        is_prefix(t, lines[f].path),
    ensures
        last_under(lines, t, n) matches Some(l) && f <= l < n,
    decreases n,
{
    if !is_prefix(t, lines[n - 1].path) {
        lemma_last_under(lines, t, n - 1, f);
    }
}

impl App {
    /// Scrolls the explorer table and the source pane for a terminal `height` rows high (see
    /// `table_scroll_spec` and `left_scroll_spec`).
    #[verifier::rlimit(100)]
    #[verifier::spinoff_prover]
    pub fn follow_cursor(&mut self, height: u16)
        requires
            old(self).cursor < usize::MAX,
        ensures
            *final(self) == (App {
                scroll: table_scroll_spec(old(self).cursor as int, old(self).scroll as int, height as int) as usize,
                left_scroll: left_scroll_spec(old(self).annotated.deep_view(), old(self).flat.deep_view(),
                    old(self).cursor as int, old(self).left_scroll as int, height as int) as usize,
                ..*old(self)
            }),
    {
        let h = height as usize;
        let content_h = if h > 0 { h - 1 } else { 0 };
        let pct = content_h * 65 / 100;
        let inner = if pct > 3 { pct - 3 } else { 0 };
        if self.cursor < self.scroll {
            self.scroll = self.cursor;
        } else if self.cursor - self.scroll >= inner {
            self.scroll = if self.cursor > inner { self.cursor - inner } else { 0 } + 1;
        }
        let left_inner = if content_h > 2 { content_h - 2 } else { 0 };
        if self.cursor < self.flat.len() {
            let ghost lines = self.annotated.deep_view();
            let ghost cp = self.flat.deep_view()[self.cursor as int].path;
            let mut i: usize = 0;
            while i < self.annotated.len()
                invariant
                    lines == self.annotated.deep_view(),
                    self.cursor < self.flat@.len(),
                    cp == self.flat.deep_view()[self.cursor as int].path,
                    i <= self.annotated@.len(),
                    first_under(lines, cp, 0) == first_under(lines, cp, i as int),
                ensures
                    i <= self.annotated@.len(),
                    first_under(lines, cp, 0) == first_under(lines, cp, i as int),
                    i < self.annotated@.len() ==> is_prefix(cp, lines[i as int].path),
                decreases self.annotated@.len() - i,
            {
                assert(lines[i as int].path == self.annotated@[i as int].path.deep_view());
                assert(cp == self.flat@[self.cursor as int].path.deep_view());
                if starts_with(&self.annotated[i].path, &self.flat[self.cursor].path) {
                    break;
                }
                i = i + 1;
            }
            if i < self.annotated.len() {
                let f0 = i;
                let mut last: usize = f0;
                let mut j: usize = self.annotated.len();
                proof {
                    lemma_first_under(lines, cp, 0);
                    lemma_last_under(lines, cp, lines.len() as int, f0 as int);
                }
                while j > f0 + 1
                    invariant
                        lines == self.annotated.deep_view(),
                        self.cursor < self.flat@.len(),
                        cp == self.flat.deep_view()[self.cursor as int].path,
                        f0 < j <= self.annotated@.len(),
                        is_prefix(cp, lines[f0 as int].path),
                        last_under(lines, cp, lines.len() as int) == last_under(lines, cp, j as int),
                    ensures
                        f0 < j,
                        last_under(lines, cp, lines.len() as int) == Some(j - 1),
                    decreases j,
                {
                    assert(lines[j - 1].path == self.annotated@[j - 1].path.deep_view());
                    assert(cp == self.flat@[self.cursor as int].path.deep_view());
                    if starts_with(&self.annotated[j - 1].path, &self.flat[self.cursor].path) {
                        break;
                    }
                    j = j - 1;
                }
                last = j - 1;
                if f0 < self.left_scroll {
                    self.left_scroll = f0;
                } else if last - f0 + 1 <= left_inner && last >= self.left_scroll && last - self.left_scroll >= left_inner {
                    self.left_scroll = last + 1 - left_inner;
                }
            }
        }
    }
}

// ---------------------------------------------------------------------------
// Laws
// ---------------------------------------------------------------------------

/// A key that cannot change the document leaves the modified mark as it was.
proof fn lemma_quiet_step(o: App, f: App, key: KeyPress, action: AppAction)
    requires
        step_spec(o, f, key, action),
        !may_edit(key, o.edit is Some),
    ensures
        f.modified == o.modified,
{
}

/// Moving a node next to a neighbour and moving it back (the same two children of the
/// container at `pp` swapped twice, as `move_spec` swaps them) gives back the document, up to
/// equal text.
pub proof fn law_move_back_restores(r0: JNode, r1: JNode, r2: JNode, pp: Seq<KeyV>, a: int, b: int, y: JNode, z: JNode)
    requires
        get_spec(r0, pp) matches Some(x) && swapped(x, y, a, b) && match x {
            JNode::Array { items, .. } => 0 <= a < items@.len() && 0 <= b < items@.len(),
            JNode::Object { entries, .. } => 0 <= a < entries@.len() && 0 <= b < entries@.len(),
            JNode::Scalar(_) => false,
        },
        replaced_at(r0, r1, pp, y),
        swapped(y, z, b, a),
        replaced_at(r1, r2, pp, z),
    ensures
        deep_same(r0, r2),
{
    let x = get_spec(r0, pp).unwrap();
    crate::tree::lemma_deep_same_refl(x);
    match x {
        JNode::Array { items: ix, .. } => {
            let iy = y->items;
            let iz = z->items;
            assert(iz@ =~= ix@);
        },
        JNode::Object { entries: ex, .. } => {
            let ey = y->entries;
            let ez = z->entries;
            assert(ez@ =~= ex@);
        },
        JNode::Scalar(_) => {},
    }
    assert(deep_same(x, z));
    crate::tree::lemma_same_except_back(r0, r1, r2, pp);
}

/// The node at `p` has a next sibling in its container.
pub open spec fn has_next_sibling(root: JNode, p: Seq<KeyV>) -> bool {
    p.len() > 0 && match get_spec(root, p.drop_last()) {
        Some(JNode::Array { items, .. }) => p.last() matches KeyV::Index(i) && i + 1 < items@.len(),
        Some(JNode::Object { entries, .. }) => p.last() matches KeyV::Field(k) && find_key(entries@, k) matches Some(
            j,
        ) && j + 1 < entries@.len(),
        _ => false,
    }
}

#[verifier::rlimit(60)]
#[verifier::spinoff_prover]
proof fn lemma_move_down_then_up_array(o: App, f: App, g: App)
    requires
        o.views_fresh(),
        o.cursor < o.flat@.len(),
        visible(o.root, o.cursor_path()),
        wf_along(o.root, o.cursor_path()),
        has_next_sibling(o.root, o.cursor_path()),
        get_spec(o.root, o.cursor_path().drop_last()) matches Some(JNode::Array { .. }),
        move_spec(o, f, false),
        move_spec(f, g, true),
    ensures
        deep_same(o.root, g.root),
        g.cursor_path() == o.cursor_path(),
{
    let p = o.cursor_path();
    let pp = p.drop_last();
    crate::tree::lemma_visible_parent(o.root, p);
    assert(p =~= pp.push(p.last()));
    let x = get_spec(o.root, pp).unwrap();
    let ix = x->items;
    let i = p.last()->Index_0;
    vstd::std_specs::vec::axiom_spec_len(&ix);
    assert(i + 1 <= usize::MAX);
    assert(((i + 1) as usize) as int == i + 1);
    let y = choose|y: JNode| swapped(x, y, i as int, i + 1) && #[trigger] replaced_at(o.root, f.root, pp, y);
    let q = pp.push(KeyV::Index((i + 1) as usize));
    crate::tree::lemma_visible_same_except(o.root, f.root, pp);
    crate::tree::lemma_visible_child(f.root, pp, KeyV::Index((i + 1) as usize));
    crate::tree::lemma_visible_row(f.root, q);
    assert(f.cursor_path() == q) by {
        assert(doc_touched_at(o, f, Some(q)));
        assert(f.flat.deep_view() == flatten_spec(f.root));
        assert(f.flat@.len() == f.flat.deep_view().len());
        let pos = first_path_from(flatten_spec(f.root), q, 0).unwrap();
        assert(0 <= pos < f.flat@.len());
        vstd::std_specs::vec::axiom_spec_len(&f.flat);
        assert(f.flat@.len() <= usize::MAX);
        assert(f.cursor == pos as usize);
        assert(f.cursor as int == pos);
        assert(f.flat.deep_view()[pos] == flatten_spec(f.root)[pos]);
        assert(flatten_spec(f.root)[pos].path == q);
        assert(f.flat.deep_view()[f.cursor as int] == f.flat@[f.cursor as int].deep_view());
        assert(f.flat@[f.cursor as int].deep_view().path == q);
    }
    assert(q.drop_last() =~= pp);
    let z = choose|z: JNode| swapped(y, z, i + 1, i as int) && #[trigger] replaced_at(f.root, g.root, pp, z);
    law_move_back_restores(o.root, f.root, g.root, pp, i as int, i + 1, y, z);
    crate::tree::lemma_visible_same_except(f.root, g.root, pp);
    crate::tree::lemma_visible_child(g.root, pp, KeyV::Index(i));
    crate::tree::lemma_visible_row(g.root, p);
    assert(((((i + 1) as usize) - 1) as usize) == i);
    assert(g.cursor_path() == p) by {
        assert(doc_touched_at(f, g, Some(p)));
        assert(g.flat.deep_view() == flatten_spec(g.root));
        assert(g.flat@.len() == g.flat.deep_view().len());
        let pos = first_path_from(flatten_spec(g.root), p, 0).unwrap();
        assert(0 <= pos < g.flat@.len());
        vstd::std_specs::vec::axiom_spec_len(&g.flat);
        assert(g.cursor as int == pos);
        assert(g.flat.deep_view()[pos] == flatten_spec(g.root)[pos]);
        assert(g.flat.deep_view()[g.cursor as int] == g.flat@[g.cursor as int].deep_view());
        assert(g.flat@[g.cursor as int].deep_view().path == p);
    }
    assert(g.cursor_path() == o.cursor_path());
    assert(deep_same(o.root, g.root));
}

#[verifier::rlimit(60)]
#[verifier::spinoff_prover]
proof fn lemma_move_down_then_up_object(o: App, f: App, g: App)
    requires
        o.views_fresh(),
        o.cursor < o.flat@.len(),
        visible(o.root, o.cursor_path()),
        wf_along(o.root, o.cursor_path()),
        has_next_sibling(o.root, o.cursor_path()),
        get_spec(o.root, o.cursor_path().drop_last()) matches Some(JNode::Object { .. }),
        move_spec(o, f, false),
        move_spec(f, g, true),
    ensures
        deep_same(o.root, g.root),
        g.cursor_path() == o.cursor_path(),
{
    let p = o.cursor_path();
    let pp = p.drop_last();
    crate::tree::lemma_visible_parent(o.root, p);
    crate::tree::lemma_wf_along_parent(o.root, p);
    assert(p =~= pp.push(p.last()));
    let x = get_spec(o.root, pp).unwrap();
    let ex = x->entries;
    let k = p.last()->Field_0;
    crate::tree::lemma_find_key(ex@, k);
    let j = find_key(ex@, k).unwrap();
    let y = choose|y: JNode| swapped(x, y, j, j + 1) && #[trigger] replaced_at(o.root, f.root, pp, y);
    let ey = y->entries;
    crate::tree::lemma_find_key(ey@, k);
    assert(ey@[j + 1].0@ == k);
    assert forall|m: int| 0 <= m < j + 1 implies ey@[m].0@ != k by {
        if m < j {
            assert(ey@[m] == ex@[m]);
        } else {
            assert(ey@[m] == ex@[j + 1]);
        }
    }
    assert(find_key(ey@, k) == Some(j + 1));
    crate::tree::lemma_visible_same_except(o.root, f.root, pp);
    crate::tree::lemma_visible_child(f.root, pp, KeyV::Field(k));
    crate::tree::lemma_visible_row(f.root, p);
    assert(f.cursor_path() == p) by {
        assert(doc_touched_at(o, f, Some(p)));
        assert(f.flat.deep_view() == flatten_spec(f.root));
        assert(f.flat@.len() == f.flat.deep_view().len());
        let pos = first_path_from(flatten_spec(f.root), p, 0).unwrap();
        assert(0 <= pos < f.flat@.len());
        vstd::std_specs::vec::axiom_spec_len(&f.flat);
        assert(f.flat@.len() <= usize::MAX);
        assert(f.cursor == pos as usize);
        assert(f.cursor as int == pos);
        assert(f.flat.deep_view()[pos] == flatten_spec(f.root)[pos]);
        assert(flatten_spec(f.root)[pos].path == p);
        assert(f.flat.deep_view()[f.cursor as int] == f.flat@[f.cursor as int].deep_view());
        assert(f.flat@[f.cursor as int].deep_view().path == p);
    }
    let z = choose|z: JNode| swapped(y, z, j + 1, j) && #[trigger] replaced_at(f.root, g.root, pp, z);
    law_move_back_restores(o.root, f.root, g.root, pp, j, j + 1, y, z);
    let ez = z->entries;
    assert(ez@ =~= ex@);
    crate::tree::lemma_visible_same_except(f.root, g.root, pp);
    crate::tree::lemma_visible_child(g.root, pp, KeyV::Field(k));
    crate::tree::lemma_visible_row(g.root, p);
    assert(g.cursor_path() == p) by {
        assert(doc_touched_at(f, g, Some(p)));
        assert(g.flat.deep_view() == flatten_spec(g.root));
        assert(g.flat@.len() == g.flat.deep_view().len());
        let pos = first_path_from(flatten_spec(g.root), p, 0).unwrap();
        assert(0 <= pos < g.flat@.len());
        vstd::std_specs::vec::axiom_spec_len(&g.flat);
        assert(g.cursor as int == pos);
        assert(g.flat.deep_view()[pos] == flatten_spec(g.root)[pos]);
        assert(g.flat.deep_view()[g.cursor as int] == g.flat@[g.cursor as int].deep_view());
        assert(g.flat@[g.cursor as int].deep_view().path == p);
    }
}

/// Moving the cursor's node down and then back up (as `move_spec` says) gives back the
/// document, up to equal text, with the cursor on the node again; for a shown node with a
/// next sibling, the containers on its way having distinct keys.
pub proof fn law_move_down_then_up(o: App, f: App, g: App)
    requires
        o.views_fresh(),
        o.cursor < o.flat@.len(),
        visible(o.root, o.cursor_path()),
        wf_along(o.root, o.cursor_path()),
        has_next_sibling(o.root, o.cursor_path()),
        move_spec(o, f, false),
        move_spec(f, g, true),
    ensures
        deep_same(o.root, g.root),
        g.cursor_path() == o.cursor_path(),
{
    if get_spec(o.root, o.cursor_path().drop_last()) matches Some(JNode::Array { .. }) {
        lemma_move_down_then_up_array(o, f, g);
    } else {
        lemma_move_down_then_up_object(o, f, g);
    }
}

/// Whatever step a key makes, the listing and the pretty lines stay those of the document,
/// and a cursor on a row stays on a row.
#[verifier::rlimit(80)]
#[verifier::spinoff_prover]
proof fn lemma_step_keeps_views_fresh(o: App, f: App, key: KeyPress, action: AppAction)
    requires
        o.views_fresh(),
        o.cursor < o.flat@.len(),
        step_spec(o, f, key, action),
    ensures
        f.views_fresh(),
        f.cursor < f.flat@.len(),
{
    let rows = flatten_spec(f.root);
    assert(rows.len() > 0);
    assert(f.flat@.len() == f.flat.deep_view().len());
    assert forall|t: Seq<KeyV>| #[trigger] first_path_from(rows, t, 0) matches Some(p) ==> 0 <= p < rows.len() by {
        lemma_first_path_bound(rows, t, 0);
    }
    lemma_app_hits(o);
}

/// Whatever key is pressed, the listing, the pretty lines and the lint warnings stay those of
/// the document (the warnings are checked again after every edit), and a cursor on a row
/// stays on a row.
pub proof fn law_key_keeps_views_fresh(o: App, f: App, key: KeyPress, action: AppAction)
    requires
        o.views_fresh(),
        o.cursor < o.flat@.len(),
        key_spec(o, f, key, action),
    ensures
        f.views_fresh(),
        f.cursor < f.flat@.len(),
{
    let rows = flatten_spec(f.root);
    assert(rows.len() > 0);
    assert(f.flat@.len() == f.flat.deep_view().len());
    let k = key.key;
    if key.ctrl_only_spec() && k == Key::Char('c') {
    } else if o.edit is None && o.save_dialog {
    } else if o.edit is None && o.search_active {
        lemma_app_hits(o);
    } else if o.edit is None && o.rename_input is Some {
        assert forall|t: Seq<KeyV>| #[trigger] first_path_from(rows, t, 0) matches Some(p) ==> 0 <= p < rows.len() by {
            lemma_first_path_bound(rows, t, 0);
        }
    } else if o.edit is None && key.plain_spec() && k == Key::Char('q') {
    } else if o.edit is None && key.plain_spec() && k == Key::Char('u') {
    } else if o.edit is None && key.ctrl_only_spec() && k == Key::Char('r') {
    } else {
        let o0 = App { modified: false, ..o };
        if step_changed_doc(o, f, key, action) && f.modified && recorded_copy(o.history@, f.history@, o.root) {
            lemma_step_keeps_views_fresh(o0, App { modified: true, history: o.history, future: o.future, ..f }, key, action);
        } else {
            lemma_step_keeps_views_fresh(o0, App { modified: false, history: o.history, ..f }, key, action);
        }
    }
}

/// Whatever step a key makes, a cursor on a row of the listing stays on a row.
#[verifier::rlimit(80)]
#[verifier::spinoff_prover]
proof fn lemma_step_keeps_cursor_on_row(o: App, f: App, key: KeyPress, action: AppAction)
    requires
        o.cursor < o.flat@.len(),
        step_spec(o, f, key, action),
    ensures
        f.cursor < f.flat@.len(),
{
    let rows = flatten_spec(f.root);
    assert(rows.len() > 0);
    assert(f.flat@.len() == f.flat.deep_view().len());
    assert forall|t: Seq<KeyV>| #[trigger] first_path_from(rows, t, 0) matches Some(p) ==> 0 <= p < rows.len() by {
        lemma_first_path_bound(rows, t, 0);
    }
    lemma_app_hits(o);
}

/// Whatever key is pressed, a cursor on a row of the listing stays on a row, whether or
/// not the listing is that of the document.
pub proof fn law_key_keeps_cursor_on_row(o: App, f: App, key: KeyPress, action: AppAction)
    requires
        o.cursor < o.flat@.len(),
        key_spec(o, f, key, action),
    ensures
        f.cursor < f.flat@.len(),
{
    let rows = flatten_spec(f.root);
    assert(rows.len() > 0);
    assert(f.flat@.len() == f.flat.deep_view().len());
    let k = key.key;
    if key.ctrl_only_spec() && k == Key::Char('c') {
    } else if o.edit is None && o.save_dialog {
    } else if o.edit is None && o.search_active {
        lemma_app_hits(o);
    } else if o.edit is None && o.rename_input is Some {
        assert forall|t: Seq<KeyV>| #[trigger] first_path_from(rows, t, 0) matches Some(p) ==> 0 <= p < rows.len() by {
            lemma_first_path_bound(rows, t, 0);
        }
    } else if o.edit is None && key.plain_spec() && k == Key::Char('q') {
    } else if o.edit is None && key.plain_spec() && k == Key::Char('u') {
    } else if o.edit is None && key.ctrl_only_spec() && k == Key::Char('r') {
    } else {
        let o0 = App { modified: false, ..o };
        if step_changed_doc(o, f, key, action) && f.modified && recorded_copy(o.history@, f.history@, o.root) {
            lemma_step_keeps_cursor_on_row(o0, App { modified: true, history: o.history, future: o.future, ..f }, key, action);
        } else {
            lemma_step_keeps_cursor_on_row(o0, App { modified: false, history: o.history, ..f }, key, action);
        }
    }
}

/// Undo right after a key other than undo that kept a copy of the document for undo (a key
/// whose step changed it, or a rename), pressed outside the search and rename prompts, gives
/// back the document as it was before that key.
#[verifier::rlimit(40)]
pub proof fn law_undo_restores(o: App, f: App, g: App, key: KeyPress, a: AppAction, undo: KeyPress, b: AppAction)
    requires
        key_spec(o, f, key, a),
        !(o.edit is None && key.plain_spec() && key.key == Key::Char('u')),
        f.history != o.history,
        f.edit is None,
        !f.save_dialog,
        !f.search_active,
        f.rename_input is None,
        undo.plain_spec() && undo.key == Key::Char('u'),
        key_spec(f, g, undo, b),
    ensures
        deep_same(o.root, g.root),
{
    let k = key.key;
    if key.ctrl_only_spec() && k == Key::Char('c') {
        assert(f.history == o.history);
    } else if o.edit is None && o.save_dialog {
        assert(f.history == o.history);
    } else if o.edit is None && o.search_active {
        assert(f.history == o.history);
    } else if o.edit is None && o.rename_input is Some {
        assert(recorded_copy(o.history@, f.history@, o.root));
        assert(g.root == f.history@.last());
    } else if o.edit is None && key.plain_spec() && k == Key::Char('q') {
        assert(f.history == o.history);
    } else if o.edit is None && key.ctrl_only_spec() && k == Key::Char('r') {
        crate::tree::lemma_deep_same_refl(o.root);
    } else {
        assert(recorded_copy(o.history@, f.history@, o.root));
        assert(g.root == f.history@.last());
    }
}

proof fn lemma_first_path_bound(rows: Seq<RowV>, t: Seq<KeyV>, i: int)
    requires
        0 <= i,
    ensures
        first_path_from(rows, t, i) matches Some(p) ==> i <= p < rows.len(),
    decreases rows.len() - i,
{
    if i < rows.len() && rows[i].path != t {
        lemma_first_path_bound(rows, t, i + 1);
    }
}

/// The key order of sorting is the order of `String`: `a` comes first (or is equal) exactly
/// when it is a prefix of `b`, or at the first place where they differ its character is the
/// lower.
pub proof fn law_key_order_is_string_order(a: Seq<char>, b: Seq<char>)
    ensures
        key_le(a, b) <==> (a.is_prefix_of(b) || exists|i: int|
            0 <= i < a.len() && i < b.len() && a.take(i) == b.take(i) && #[trigger] a[i] < b[i]),
    decreases a.len(),
{
    if a.len() == 0 {
        assert(a.is_prefix_of(b)) by {
            assert(a =~= b.subrange(0, 0));
        }
    } else if b.len() == 0 {
        assert(!a.is_prefix_of(b));
    } else if a[0] != b[0] {
        if a[0] < b[0] {
            assert(a.take(0) =~= b.take(0));
        } else {
            assert(!a.is_prefix_of(b)) by {
                if a.is_prefix_of(b) {
                    assert(b.subrange(0, a.len() as int)[0] == b[0]);
                }
            }
            assert forall|i: int| 0 <= i < a.len() && i < b.len() && a.take(i) == b.take(i) implies !(#[trigger] a[i] < b[i]) by {
                if i > 0 {
                    assert(a.take(i)[0] == b.take(i)[0]);
                }
            }
        }
    } else {
        let a1 = a.drop_first();
        let b1 = b.drop_first();
        law_key_order_is_string_order(a1, b1);
        assert(a.is_prefix_of(b) <==> a1.is_prefix_of(b1)) by {
            if a.is_prefix_of(b) {
                assert(a1 =~= b1.subrange(0, a1.len() as int)) by {
                    assert forall|m: int| 0 <= m < a1.len() implies a1[m] == b1.subrange(0, a1.len() as int)[m] by {
                        assert(a[m + 1] == b.subrange(0, a.len() as int)[m + 1]);
                    }
                }
            }
            if a1.is_prefix_of(b1) {
                assert(a =~= b.subrange(0, a.len() as int)) by {
                    assert forall|m: int| 0 <= m < a.len() implies a[m] == b.subrange(0, a.len() as int)[m] by {
                        if m > 0 {
                            assert(a1[m - 1] == b1.subrange(0, a1.len() as int)[m - 1]);
                        }
                    }
                }
            }
        }
        if exists|i: int| 0 <= i < a1.len() && i < b1.len() && a1.take(i) == b1.take(i) && #[trigger] a1[i] < b1[i] {
            let i = choose|i: int| 0 <= i < a1.len() && i < b1.len() && a1.take(i) == b1.take(i) && #[trigger] a1[i] < b1[i];
            assert forall|m: int| 0 <= m < i + 1 implies #[trigger] a[m] == b[m] by {
                if m > 0 {
                    assert(a1.take(i)[m - 1] == b1.take(i)[m - 1]);
                }
            }
            assert(a.take(i + 1) =~= b.take(i + 1));
            assert(a[i + 1] < b[i + 1]);
        }
        if exists|i: int| 0 <= i < a.len() && i < b.len() && a.take(i) == b.take(i) && #[trigger] a[i] < b[i] {
            let i = choose|i: int| 0 <= i < a.len() && i < b.len() && a.take(i) == b.take(i) && #[trigger] a[i] < b[i];
            assert(i > 0);
            assert forall|m: int| 0 <= m < i - 1 implies #[trigger] a1[m] == b1[m] by {
                assert(a.take(i)[m + 1] == b.take(i)[m + 1]);
            }
            assert(a1.take(i - 1) =~= b1.take(i - 1));
            assert(a1[i - 1] < b1[i - 1]);
        }
    }
}

/// Confirming a new value for an existing node puts there the scalar the text makes for the
/// type chosen: the text for String, the trimmed text for Number, `true` exactly when the
/// trimmed text is `true` for Boolean, and null for Null.
pub proof fn law_commit_writes_the_typed_value(o: App, f: App)
    requires
        commit_value_spec(o, f),
        o.edit matches Some(st) && st.mode == EditMode::Edit && st.phase is ValueEdit && get_spec(
            o.root,
            st.path.deep_view(),
        ) is Some,
    ensures
        ({
            let st = o.edit->Some_0;
            let text = st.phase->ValueEdit_0@;
            let now = get_spec(f.root, st.path.deep_view());
            if st.type_cursor == 2 {
                now matches Some(JNode::Scalar(JScalar::String(t))) && t@ == text
            } else if st.type_cursor == 3 {
                now matches Some(JNode::Scalar(JScalar::Number(t))) && t@ == trim_spec(text)
            } else if st.type_cursor == 4 {
                &&& now matches Some(JNode::Scalar(JScalar::Bool(b)))
                &&& (b <==> trim_spec(text) == "true"@)
            } else {
                now == Some(JNode::Scalar(JScalar::Null))
            }
        }),
{
    let st = o.edit->Some_0;
    let text = st.phase->ValueEdit_0@;
    let closed = App { edit: None, ..o };
    let y = choose|y: JNode| committed(st.type_cursor, text, y) && #[trigger] set_at(closed.root, f.root, st.path.deep_view(), y);
    assert(get_spec(f.root, st.path.deep_view()) == Some(y));
}

/// `n` and then `N` come back to the match the cursor was on: with matches, and the current
/// match one of them, the cursor returns to it; every jump lands on a matching row.
pub proof fn law_next_then_previous_match(o: App, f: App, g: App)
    requires
        app_hits(o).len() > 0,
        o.search_match_cursor < app_hits(o).len(),
        next_match_spec(o, f, true),
        next_match_spec(f, g, false),
    ensures
        app_hits(o).contains(f.cursor),
        g.search_match_cursor == o.search_match_cursor,
        g.cursor == app_hits(o)[o.search_match_cursor as int],
        f.cursor < f.flat@.len(),
{
    lemma_app_hits(o);
    let hits = app_hits(o);
    let t = match_target(o.search_match_cursor as int, hits.len() as int, true);
    assert(app_hits(f) == hits);
    assert(hits[t] == f.cursor);
    assert(0 <= t < hits.len());
    vstd::std_specs::vec::axiom_spec_len(&o.flat);
    crate::search::lemma_search_hits_len(o.flat.deep_view(), o.root, o.search_query@, o.flat@.len() as int);
    assert(hits.len() <= o.flat@.len());
    assert((t as usize) as int == t);
    assert(f.search_match_cursor as int == t);
    let u = match_target(t, hits.len() as int, false);
    assert(u == o.search_match_cursor as int);
    assert(app_hits(g) == hits);
}

} // verus!
