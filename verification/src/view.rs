//! The text shown in the explorer and diff tables and in the status lines; drawing it is
//! left to the terminal front end.
use vstd::prelude::*;
use crate::diff::{diff_display_value, display_value_spec, node_summary, node_type_label, summary_spec, type_label_spec, DiffRow, DiffRowV, DiffStatus};
use crate::editor::{app_hits, App, EditMode, EditPhase};
use crate::lint::{first_message_at, lint_message_at};
use crate::search::search_matches;
use crate::text::{append, decimal, lit, push_char, push_decimal, repeat};
use crate::tree::{path_text, path_to_string, FlatRow, JNode, JScalar, KeyV, RowV};

verus! {

// ---------------------------------------------------------------------------
// Cells
// ---------------------------------------------------------------------------

/// `a - b`, or zero where `b` is larger.
pub open spec fn sat_sub(a: int, b: int) -> int {
    if a > b { a - b } else { 0 }
}

/// `s` padded with spaces on the right to `w` characters; a longer `s` stays as it is.
pub open spec fn padded(s: Seq<char>, w: int) -> Seq<char> {
    if s.len() >= w { s } else { s + repeat(" "@, (w - s.len()) as nat) }
}

/// The first `n` characters of `s` (all of them where it is shorter).
pub open spec fn first_chars(s: Seq<char>, n: int) -> Seq<char> {
    if s.len() <= n { s } else { s.take(n) }
}

/// The name shown for a row: its key, `Item[i]` for an array item, `<root>` for the root.
pub open spec fn key_name_spec(key: Option<Seq<char>>, index: Option<usize>) -> Seq<char> {
    match key {
        Some(k) => k,
        None => match index {
            Some(i) => "Item["@ + decimal(i as nat) + "]"@,
            None => "<root>"@,
        },
    }
}

/// The name shown for a row.
pub fn key_name(key: &Option<String>, index: Option<usize>) -> (s: String)
    ensures
        s@ == key_name_spec(key.deep_view(), index),
{
    match key {
        Some(k) => k.clone(),
        None => match index {
            Some(i) => {
                let mut s = lit("Item[");
                push_decimal(&mut s, i);
                append(&mut s, "]");
                s
            },
            None => lit("<root>"),
        },
    }
}

fn take_chars(s: &str, n: usize) -> (r: String)
    ensures
        r@ == first_chars(s@, n as int),
{
    let cs = crate::text::chars_of(s);
    let mut r = String::new();
    let mut i: usize = 0;
    while i < cs.len() && i < n
        invariant
            i <= cs@.len(),
            i <= n,
            cs@ == s@,
            r@ == s@.take(i as int),
        decreases cs@.len() - i,
    {
        push_char(&mut r, cs[i]);
        assert(r@ =~= s@.take(i + 1));
        i = i + 1;
    }
    proof {
        if s@.len() <= n {
            assert(s@.take(s@.len() as int) =~= s@);
        }
    }
    r
}

fn pad_to(s: &mut String, w: usize)
    ensures
        final(s)@ == padded(old(s)@, w as int),
{
    let n = crate::text::chars_of(s.as_str()).len();
    if n < w {
        let mut k: usize = n;
        let ghost start = s@;
        while k < w
            invariant
                n <= k <= w,
                n == start.len(),
                s@ == start + repeat(" "@, (k - n) as nat),
            decreases w - k,
        {
            append(s, " ");
            assert(repeat(" "@, (k + 1 - n) as nat) == repeat(" "@, (k - n) as nat) + " "@);
            assert(s@ =~= start + repeat(" "@, (k + 1 - n) as nat));
            k = k + 1;
        }
    }
}

/// The widths of the key, type and value columns of a table `w` characters wide whose
/// separators take `gaps` characters: the key a third of the width but at least 15, the
/// type 15, the value what remains.
pub open spec fn column_widths_spec(w: int, gaps: int) -> (int, int, int) {
    let key_w = if w * 33 / 100 > 15 { w * 33 / 100 } else { 15 };
    (key_w, 15, sat_sub(w, key_w + 15 + gaps))
}

/// Column widths of a table (see `column_widths_spec`).
pub fn column_widths(w: u16, gaps: u16) -> (r: (usize, usize, usize))
    ensures
        (r.0 as int, r.1 as int, r.2 as int) == column_widths_spec(w as int, gaps as int),
{
    let w = w as usize;
    let gaps = gaps as usize;
    let third = w * 33 / 100;
    let key_w = if third > 15 { third } else { 15 };
    let used = key_w + 15 + gaps;
    let val_w = if w > used { w - used } else { 0 };
    (key_w, 15, val_w)
}

// ---------------------------------------------------------------------------
// Explorer rows
// ---------------------------------------------------------------------------

/// The text of one explorer row: indentation and fold marker, type icon, name cell, type
/// cell and value cell.
#[derive(Debug)]
pub struct RowCells {
    pub pre: String,
    pub icon: String,
    pub name: String,
    pub type_cell: String,
    pub value: String,
}

/// The fold marker of a node: open or closed for a container, blank for a scalar.
pub open spec fn toggle_spec(n: JNode) -> Seq<char> {
    match n {
        JNode::Object { collapsed, .. } => if collapsed { "▶ "@ } else { "▼ "@ },
        JNode::Array { collapsed, .. } => if collapsed { "▶ "@ } else { "▼ "@ },
        JNode::Scalar(_) => "  "@,
    }
}

/// The icon of a node's type.
pub open spec fn icon_spec(n: JNode) -> Seq<char> {
    match n {
        JNode::Object { .. } => "{}"@,
        JNode::Array { .. } => "[]"@,
        JNode::Scalar(JScalar::String(_)) => " \""@,
        JNode::Scalar(JScalar::Number(_)) => " №"@,
        JNode::Scalar(JScalar::Bool(_)) => " ◆"@,
        JNode::Scalar(JScalar::Null) => " ∅"@,
    }
}

/// The cells of an explorer row for the node it lists.
pub open spec fn row_cells_spec(row: RowV, n: JNode, key_w: int, type_w: int, val_w: int) -> (Seq<char>, Seq<char>, Seq<char>, Seq<char>, Seq<char>) {
    let pre = repeat("  "@, row.depth) + toggle_spec(n);
    let icon = icon_spec(n);
    let avail = sat_sub(key_w, pre.len() + icon.len() + 1int);
    (
        pre,
        icon,
        " "@ + padded(first_chars(key_name_spec(row.key, row.index), avail), avail),
        padded(first_chars(type_label_spec(n), type_w), type_w),
        first_chars(summary_spec(n), val_w),
    )
}

fn toggle_text(n: &JNode) -> (s: &'static str)
    ensures
        s@ == toggle_spec(*n),
{
    match n {
        JNode::Object { collapsed, .. } => if *collapsed { "▶ " } else { "▼ " },
        JNode::Array { collapsed, .. } => if *collapsed { "▶ " } else { "▼ " },
        JNode::Scalar(_) => "  ",
    }
}

fn icon_text(n: &JNode) -> (s: &'static str)
    ensures
        s@ == icon_spec(*n),
{
    match n {
        JNode::Object { .. } => "{}",
        JNode::Array { .. } => "[]",
        JNode::Scalar(JScalar::String(_)) => " \"",
        JNode::Scalar(JScalar::Number(_)) => " №",
        JNode::Scalar(JScalar::Bool(_)) => " ◆",
        JNode::Scalar(JScalar::Null) => " ∅",
    }
}

/// The cells of the explorer row `row`, which lists `node`. The depth bound keeps the
/// indentation width within `usize`; no document held in memory nests that deep.
pub fn explorer_cells(row: &FlatRow, node: &JNode, key_w: usize, type_w: usize, val_w: usize) -> (c: RowCells)
    requires
        row.depth < 0x1000_0000,
    ensures
        (c.pre@, c.icon@, c.name@, c.type_cell@, c.value@)
            == row_cells_spec(row.deep_view(), *node, key_w as int, type_w as int, val_w as int),
{
    proof {
        reveal_strlit("▶ ");
        reveal_strlit("▼ ");
        reveal_strlit("  ");
        reveal_strlit("{}");
        reveal_strlit("[]");
        reveal_strlit(" \"");
        reveal_strlit(" №");
        reveal_strlit(" ◆");
        reveal_strlit(" ∅");
        crate::text::lemma_repeat_len("  "@, row.depth as nat);
    }
    let mut pre = crate::text::repeat_str("  ", row.depth);
    append(&mut pre, toggle_text(node));
    let icon = lit(icon_text(node));
    let pre_len = row.depth * 2 + 2;
    let used = pre_len + 2 + 1;
    let avail = if key_w > used { key_w - used } else { 0 };
    let kn = key_name(&row.key, row.index);
    let mut name = lit(" ");
    let shown = take_chars(kn.as_str(), avail);
    let mut cell = shown;
    pad_to(&mut cell, avail);
    append(&mut name, cell.as_str());
    let tl = node_type_label(node);
    let mut type_cell = take_chars(tl.as_str(), type_w);
    pad_to(&mut type_cell, type_w);
    let sm = node_summary(node);
    let value = take_chars(sm.as_str(), val_w);
    RowCells { pre, icon, name, type_cell, value }
}

// ---------------------------------------------------------------------------
// Diff rows and status
// ---------------------------------------------------------------------------

/// The text of one diff row: indentation and change marker, name cell, type cell, value cell.
#[derive(Debug)]
pub struct DiffCells {
    pub pre: String,
    pub name: String,
    pub type_cell: String,
    pub value: String,
}

/// The marker of a change.
pub open spec fn glyph_spec(s: DiffStatus) -> Seq<char> {
    match s {
        DiffStatus::Added => "+ "@,
        DiffStatus::Removed => "- "@,
        DiffStatus::Changed => "~ "@,
        DiffStatus::Unchanged => "  "@,
    }
}

/// The cells of a diff row.
pub open spec fn diff_cells_spec(r: DiffRowV, key_w: int, type_w: int, val_w: int) -> (Seq<char>, Seq<char>, Seq<char>, Seq<char>) {
    let pre = repeat("  "@, r.depth) + glyph_spec(r.status);
    let avail = sat_sub(key_w, pre.len() + 1int);
    (
        pre,
        " "@ + padded(first_chars(key_name_spec(r.key, r.index), avail), avail),
        padded(first_chars(r.type_label, type_w), type_w),
        first_chars(display_value_spec(r), val_w),
    )
}

fn glyph_text(s: DiffStatus) -> (t: &'static str)
    ensures
        t@ == glyph_spec(s),
{
    match s {
        DiffStatus::Added => "+ ",
        DiffStatus::Removed => "- ",
        DiffStatus::Changed => "~ ",
        DiffStatus::Unchanged => "  ",
    }
}

/// The cells of a row of the diff table. The depth bound keeps the indentation width within
/// `usize`; no document held in memory nests that deep.
pub fn diff_cells(row: &DiffRow, key_w: usize, type_w: usize, val_w: usize) -> (c: DiffCells)
    requires
        row.depth < 0x1000_0000,
    ensures
        (c.pre@, c.name@, c.type_cell@, c.value@) == diff_cells_spec(row.deep_view(), key_w as int, type_w as int, val_w as int),
{
    proof {
        reveal_strlit("+ ");
        reveal_strlit("- ");
        reveal_strlit("~ ");
        reveal_strlit("  ");
        crate::text::lemma_repeat_len("  "@, row.depth as nat);
    }
    let mut pre = crate::text::repeat_str("  ", row.depth);
    append(&mut pre, glyph_text(row.status));
    let used = row.depth * 2 + 2 + 1;
    let avail = if key_w > used { key_w - used } else { 0 };
    let kn = key_name(&row.key, row.index);
    let mut name = lit(" ");
    let mut cell = take_chars(kn.as_str(), avail);
    pad_to(&mut cell, avail);
    append(&mut name, cell.as_str());
    let mut type_cell = take_chars(row.type_label.as_str(), type_w);
    pad_to(&mut type_cell, type_w);
    let dv = diff_display_value(row);
    let value = take_chars(dv.as_str(), val_w);
    DiffCells { pre, name, type_cell, value }
}

/// How many rows are not unchanged.
pub open spec fn changed_count(rows: Seq<DiffRowV>, n: int) -> nat
    decreases n,
{
    if n <= 0 {
        0
    } else {
        changed_count(rows, n - 1) + if rows[n - 1].status is Unchanged { 0nat } else { 1nat }
    }
}

/// The first status line of the diff view: the cursor row's path and the number of changes.
pub open spec fn diff_status_spec(rows: Seq<DiffRowV>, cursor: int) -> Seq<char> {
    let path = if 0 <= cursor < rows.len() { path_text(rows[cursor].path) } else { Seq::empty() };
    let n = changed_count(rows, rows.len() as int);
    " "@ + path + "  ·  "@ + decimal(n) + " change"@ + if n == 1 { Seq::empty() } else { "s"@ }
}

/// The first status line of the diff view.
pub fn diff_status_line(rows: &Vec<DiffRow>, cursor: usize) -> (s: String)
    ensures
        s@ == diff_status_spec(rows.deep_view(), cursor as int),
{
    let ghost rv = rows.deep_view();
    let mut n: usize = 0;
    let mut i: usize = 0;
    while i < rows.len()
        invariant
            i <= rows@.len(),
            rv == rows.deep_view(),
            n == changed_count(rv, i as int),
            n <= i,
        decreases rows@.len() - i,
    {
        if rows[i].status != DiffStatus::Unchanged {
            n = n + 1;
        }
        i = i + 1;
    }
    let mut s = lit(" ");
    if cursor < rows.len() {
        let p = path_to_string(rows[cursor].path.as_slice());
        append(&mut s, p.as_str());
    }
    append(&mut s, "  ·  ");
    push_decimal(&mut s, n);
    append(&mut s, " change");
    if n != 1 {
        append(&mut s, "s");
    }
    proof {
        reveal_strlit("s");
    }
    assert(s@ =~= diff_status_spec(rv, cursor as int));
    s
}

// ---------------------------------------------------------------------------
// Editor status
// ---------------------------------------------------------------------------

/// The first status line of the editor without the performance indicator: the status text,
/// a modified mark, and the path of the row under the cursor where it is not the root.
pub open spec fn editor_status_spec(status: Seq<char>, modified: bool, rows: Seq<RowV>, cursor: int) -> Seq<char> {
    let mark = if modified { " [modified]"@ } else { Seq::empty() };
    let path = if 0 <= cursor < rows.len() { path_text(rows[cursor].path) } else { Seq::empty() };
    if path.len() == 0 {
        " "@ + status + mark
    } else {
        " "@ + status + mark + "  ·  "@ + path
    }
}

/// The performance indicator: on more than 5000 rows, the row count and the time of the last
/// rebuild, given in tenths of a millisecond (`174873 rows in 526.8ms`); nothing otherwise.
pub open spec fn perf_indicator(rows: nat, tenths_ms: nat) -> Seq<char> {
    if rows > 5000 {
        "  ·  "@ + decimal(rows) + " rows in "@ + decimal(tenths_ms / 10) + "."@ + decimal(tenths_ms % 10) + "ms"@
    } else {
        Seq::empty()
    }
}

/// The search part of the status line: the current match and the number of matches, or a
/// note that the query matches nothing.
pub open spec fn search_part(hits: Seq<usize>, mc: int, q: Seq<char>) -> Seq<char> {
    if hits.len() > 0 {
        let shown = if mc < hits.len() { mc + 1 } else { hits.len() as int };
        "  ·  ["@ + decimal(shown as nat) + "/"@ + decimal(hits.len()) + "]"@
    } else if q.len() > 0 {
        "  ·  [no match]"@
    } else {
        Seq::empty()
    }
}

/// The warning count of the status line.
pub open spec fn lint_part(n: nat) -> Seq<char> {
    if n > 0 {
        "  ·  ["@ + decimal(n) + " warning"@ + (if n == 1 { Seq::empty() } else { "s"@ }) + "]"@
    } else {
        Seq::empty()
    }
}

/// The message of the warning under the cursor, if there is one.
pub open spec fn warn_part(msg: Option<Seq<char>>) -> Seq<char> {
    match msg {
        Some(m) => "  ⚠ "@ + m,
        None => Seq::empty(),
    }
}

/// The first status line of the editor without the performance indicator: the query being
/// typed; or the status text, modified mark and cursor path, then the search counter, the
/// warning count and the message of a warning under the cursor.
pub open spec fn editor_line_spec(app: App) -> Seq<char> {
    let rows = app.flat.deep_view();
    let path = if app.cursor < rows.len() { rows[app.cursor as int].path } else { Seq::empty() };
    if app.search_active {
        " / "@ + app.search_query@ + "_"@
    } else if app.rename_input is Some {
        " rename: "@ + app.rename_input->Some_0@ + "_"@
    } else {
        editor_status_spec(app.status@, app.modified, rows, app.cursor as int) + search_part(
            app_hits(app),
            app.search_match_cursor as int,
            app.search_query@,
        ) + lint_part(app.lint_warnings@.len()) + warn_part(first_message_at(app.lint_warnings.deep_view(), path))
    }
}

fn push_search_part(s: &mut String, hits: &Vec<usize>, mc: usize, q: &str)
    ensures
        final(s)@ == old(s)@ + search_part(hits@, mc as int, q@),
{
    let count = hits.len();
    if count > 0 {
        let shown: usize = if mc < count { mc + 1 } else { count };
        append(s, "  ·  [");
        push_decimal(s, shown);
        append(s, "/");
        push_decimal(s, count);
        append(s, "]");
    } else if !q.is_empty() {
        append(s, "  ·  [no match]");
    }
    assert(final(s)@ =~= old(s)@ + search_part(hits@, mc as int, q@));
}

fn push_lint_part(s: &mut String, n: usize)
    ensures
        final(s)@ == old(s)@ + lint_part(n as nat),
{
    if n > 0 {
        append(s, "  ·  [");
        push_decimal(s, n);
        append(s, " warning");
        if n != 1 {
            append(s, "s");
        }
        append(s, "]");
    }
    assert(final(s)@ =~= old(s)@ + lint_part(n as nat));
}

fn push_warn_part(s: &mut String, msg: &Option<String>)
    ensures
        final(s)@ == old(s)@ + warn_part(match msg {
            Some(m) => Some(m@),
            None => None,
        }),
{
    match msg {
        Some(m) => {
            append(s, "  ⚠ ");
            append(s, m.as_str());
        },
        None => {},
    }
    assert(final(s)@ =~= old(s)@ + warn_part(match msg {
        Some(m) => Some(m@),
        None => None,
    }));
}

/// The first status line of the editor, with the performance indicator; `rebuild_tenths_ms`
/// is the time the last rebuild of the listing and the source lines took, in tenths of a
/// millisecond.
#[verifier::rlimit(40)]
pub fn editor_status_line(app: &App, rebuild_tenths_ms: u64) -> (s: String)
    ensures
        s@ == editor_line_spec(*app) + perf_indicator(app.flat@.len(), rebuild_tenths_ms as nat),
{
    proof {
        reveal_strlit(" / ");
        reveal_strlit("_");
    }
    let mut s = lit(" ");
    if app.search_active {
        append(&mut s, "/ ");
        append(&mut s, app.search_query.as_str());
        append(&mut s, "_");
        proof {
            reveal_strlit("/ ");
            reveal_strlit(" ");
        }
        assert(s@ =~= editor_line_spec(*app));
    } else if app.rename_input.is_some() {
        match &app.rename_input {
            Some(t) => {
                append(&mut s, "rename: ");
                append(&mut s, t.as_str());
                append(&mut s, "_");
            },
            None => {},
        }
        proof {
            reveal_strlit("rename: ");
            reveal_strlit(" rename: ");
            reveal_strlit(" ");
        }
        assert(s@ =~= editor_line_spec(*app));
    } else {
        append(&mut s, app.status.as_str());
        if app.modified {
            append(&mut s, " [modified]");
        }
        let here = app.current_path();
        if app.cursor < app.flat.len() {
            let p = path_to_string(app.flat[app.cursor].path.as_slice());
            if !p.as_str().is_empty() {
                append(&mut s, "  ·  ");
                append(&mut s, p.as_str());
            }
        }
        proof {
            reveal_strlit(" [modified]");
        }
        assert(s@ =~= editor_status_spec(app.status@, app.modified, app.flat.deep_view(), app.cursor as int));
        let ghost s1 = s@;
        let hits = search_matches(&app.flat, &app.root, app.search_query.as_str());
        push_search_part(&mut s, &hits, app.search_match_cursor, app.search_query.as_str());
        let ghost s2 = s@;
        push_lint_part(&mut s, app.lint_warnings.len());
        let ghost s3 = s@;
        let msg = lint_message_at(&app.lint_warnings, here.as_slice());
        push_warn_part(&mut s, &msg);
        proof {
            let rows = app.flat.deep_view();
            let path = if app.cursor < rows.len() { rows[app.cursor as int].path } else { Seq::<KeyV>::empty() };
            if app.cursor < app.flat@.len() {
                assert(rows[app.cursor as int] == app.flat@[app.cursor as int].deep_view());
            }
            assert(here.deep_view() == path);
            let wm = match msg {
                Some(m) => Some(m@),
                None => None,
            };
            assert(wm == first_message_at(app.lint_warnings.deep_view(), path));
            assert(s2 == s1 + search_part(app_hits(*app), app.search_match_cursor as int, app.search_query@));
            assert(s@ == s3 + warn_part(wm));
        }
        assert(s@ =~= editor_line_spec(*app));
    }
    let ghost base = s@;
    if app.flat.len() > 5000 {
        append(&mut s, "  ·  ");
        push_decimal(&mut s, app.flat.len());
        append(&mut s, " rows in ");
        crate::text::push_decimal_u64(&mut s, rebuild_tenths_ms / 10);
        append(&mut s, ".");
        crate::text::push_decimal_u64(&mut s, rebuild_tenths_ms % 10);
        append(&mut s, "ms");
        assert(s@ =~= base + perf_indicator(app.flat@.len(), rebuild_tenths_ms as nat));
    } else {
        assert(s@ =~= base + perf_indicator(app.flat@.len(), rebuild_tenths_ms as nat));
    }
    s
}

/// The keys of the editor outside any dialog.
pub open spec fn browse_hint() -> Seq<char> {
    "  e: edit  r: rename  a: add  d: del  D: dup  y: copy  p/P: paste  K/J: move  u: undo  ^R: redo  S: sort  E/C: expand/collapse  /: search  s: save  q: quit"@
}

/// The hint shown under the status line: what the keys do in the current state. Outside any
/// dialog with warnings, the hint ends with the place of the current warning among them.
pub open spec fn editor_hint_spec(app: App) -> Seq<char> {
    let n = app.lint_warnings@.len();
    if app.edit is None && app.search_active {
        "  Enter: go to match  Esc: cancel"@
    } else if app.edit is None && !app.save_dialog && app.rename_input is Some {
        "  Enter: rename  Esc: cancel"@
    } else if app.save_dialog && app.edit is None {
        "  Unsaved changes:  [s] save and quit  ·  [n] quit without saving  ·  [Esc] cancel"@
    } else if app.edit is None && app_hits(app).len() > 0 {
        "  n/N: next/prev match  Esc: clear  /: new search"@
    } else if app.confirm_quit {
        "  Press q again to quit  (any other key to cancel)"@
    } else {
        match app.edit {
            Some(e) => match e.phase {
                EditPhase::TypeSelect => "  ↑↓: type  Enter: confirm  Esc: cancel"@,
                EditPhase::KeyEdit(_) => "  key name  Enter: confirm  Esc: cancel"@,
                EditPhase::ValueEdit(_) => "  Enter: confirm  Esc: back to type"@,
            },
            None => if n > 0 {
                let shown = if app.lint_cursor < n { app.lint_cursor + 1 } else { n as int };
                browse_hint() + "  Tab: next warning ["@ + decimal(shown as nat) + "/"@ + decimal(n) + "]"@
            } else {
                browse_hint()
            },
        }
    }
}

/// The hint line of the editor.
pub fn editor_hint(app: &App) -> (s: String)
    ensures
        s@ == editor_hint_spec(*app),
{
    if app.edit.is_none() && app.search_active {
        return lit("  Enter: go to match  Esc: cancel");
    }
    if app.edit.is_none() && !app.save_dialog && app.rename_input.is_some() {
        return lit("  Enter: rename  Esc: cancel");
    }
    if app.save_dialog && app.edit.is_none() {
        return lit("  Unsaved changes:  [s] save and quit  ·  [n] quit without saving  ·  [Esc] cancel");
    }
    if app.edit.is_none() {
        let hits = search_matches(&app.flat, &app.root, app.search_query.as_str());
        if hits.len() > 0 {
            return lit("  n/N: next/prev match  Esc: clear  /: new search");
        }
    }
    if app.confirm_quit {
        return lit("  Press q again to quit  (any other key to cancel)");
    }
    match &app.edit {
        Some(e) => match &e.phase {
            EditPhase::TypeSelect => lit("  ↑↓: type  Enter: confirm  Esc: cancel"),
            EditPhase::KeyEdit(_) => lit("  key name  Enter: confirm  Esc: cancel"),
            EditPhase::ValueEdit(_) => lit("  Enter: confirm  Esc: back to type"),
        },
        None => {
            let mut s = lit("  e: edit  r: rename  a: add  d: del  D: dup  y: copy  p/P: paste  K/J: move  u: undo  ^R: redo  S: sort  E/C: expand/collapse  /: search  s: save  q: quit");
            let n = app.lint_warnings.len();
            if n > 0 {
                let shown: usize = if app.lint_cursor < n { app.lint_cursor + 1 } else { n };
                append(&mut s, "  Tab: next warning [");
                push_decimal(&mut s, shown);
                append(&mut s, "/");
                push_decimal(&mut s, n);
                append(&mut s, "]");
            }
            s
        },
    }
}

// ---------------------------------------------------------------------------
// Detail panel
// ---------------------------------------------------------------------------

/// The name of the type at `i` in the type list of the edit dialog (String past its end).
pub open spec fn type_name_spec(i: usize) -> Seq<char> {
    if i == 0 { "Object"@ } else if i == 1 { "Array"@ } else if i == 2 { "String"@ } else if i == 3 { "Number"@ }
    else if i == 4 { "Boolean"@ } else if i == 5 { "Null"@ } else { "String"@ }
}

fn edit_type_text(i: usize) -> (s: &'static str)
    ensures
        s@ == type_name_spec(i),
{
    if i == 0 { "Object" } else if i == 1 { "Array" } else if i == 2 { "String" } else if i == 3 { "Number" }
    else if i == 4 { "Boolean" } else if i == 5 { "Null" } else { "String" }
}

/// The name of the cursor row (`none` where there is no row).
pub open spec fn cursor_name(app: App, none: Seq<char>) -> Seq<char> {
    if app.cursor < app.flat@.len() {
        let r = app.flat.deep_view()[app.cursor as int];
        key_name_spec(r.key, r.index)
    } else {
        none
    }
}

/// The title of the detail panel: in the edit dialog, what is typed (a key, the value of the
/// node edited, the value of a node added) and its type; otherwise the name of the cursor row.
pub open spec fn preview_title_spec(app: App) -> Seq<char> {
    match app.edit {
        Some(e) => {
            let t = type_name_spec(e.type_cursor);
            match e.phase {
                EditPhase::KeyEdit(_) => " New "@ + t + " — key name"@,
                _ => match e.mode {
                    EditMode::Edit => " "@ + t + " "@ + cursor_name(app, Seq::empty()),
                    _ => " Add "@ + t + " — value"@,
                },
            }
        },
        None => " "@ + cursor_name(app, "<root>"@),
    }
}

fn cursor_name_text(app: &App, none: &str) -> (s: String)
    ensures
        s@ == cursor_name(*app, none@),
{
    if app.cursor < app.flat.len() {
        assert(app.flat.deep_view()[app.cursor as int] == app.flat@[app.cursor as int].deep_view());
        key_name(&app.flat[app.cursor].key, app.flat[app.cursor].index)
    } else {
        lit(none)
    }
}

/// The title of the detail panel (see `preview_title_spec`).
pub fn preview_title(app: &App) -> (s: String)
    ensures
        s@ == preview_title_spec(*app),
{
    match &app.edit {
        Some(e) => {
            let t = edit_type_text(e.type_cursor);
            let mut s = lit(" ");
            match &e.phase {
                EditPhase::KeyEdit(_) => {
                    append(&mut s, "New ");
                    append(&mut s, t);
                    append(&mut s, " — key name");
                    proof {
                        reveal_strlit(" ");
                        reveal_strlit("New ");
                        reveal_strlit(" New ");
                    }
                },
                _ => match e.mode {
                    EditMode::Edit => {
                        append(&mut s, t);
                        append(&mut s, " ");
                        let n = cursor_name_text(app, "");
                        append(&mut s, n.as_str());
                        proof {
                            reveal_strlit("");
                        }
                    },
                    _ => {
                        append(&mut s, "Add ");
                        append(&mut s, t);
                        append(&mut s, " — value");
                        proof {
                            reveal_strlit(" ");
                            reveal_strlit("Add ");
                            reveal_strlit(" Add ");
                        }
                    },
                },
            }
            assert(s@ =~= preview_title_spec(*app));
            s
        },
        None => {
            let mut s = lit(" ");
            let n = cursor_name_text(app, "<root>");
            append(&mut s, n.as_str());
            s
        },
    }
}

/// The hint under the text typed in the detail panel.
pub open spec fn preview_hint_spec(app: App) -> Seq<char> {
    if app.edit matches Some(e) && e.phase is KeyEdit {
        " Enter: confirm  Esc: cancel"@
    } else {
        " Enter: confirm  Esc: back to type"@
    }
}

/// The hint under the text typed in the detail panel (see `preview_hint_spec`).
pub fn preview_hint(app: &App) -> (s: &'static str)
    ensures
        s@ == preview_hint_spec(*app),
{
    match &app.edit {
        Some(e) => match &e.phase {
            EditPhase::KeyEdit(_) => " Enter: confirm  Esc: cancel",
            _ => " Enter: confirm  Esc: back to type",
        },
        None => " Enter: confirm  Esc: back to type",
    }
}

} // verus!
