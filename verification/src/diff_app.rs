//! State of the read-only diff viewer: the merged rows, the cursor, the scroll offset and the
//! "only changes" filter, and how key presses move them.
use vstd::prelude::*;
use crate::diff::{diff, diff_spec, DiffRow, DiffRowV, DiffStatus};
use crate::keys::{Key, KeyPress};
use crate::tree::JNode;

verus! {

/// The diff viewer.
pub struct DiffApp {
    pub rows: Vec<DiffRow>,
    pub cursor: usize,
    pub scroll: usize,
    pub file_a: String,
    pub file_b: String,
    pub only_changes: bool,
    pub quit: bool,
}

// ---------------------------------------------------------------------------
// Specification
// ---------------------------------------------------------------------------

/// Indexes `0..n` of the rows shown: every row, or with `only` the rows that changed.
pub open spec fn visible_upto(rows: Seq<DiffRowV>, only: bool, n: int) -> Seq<usize>
    decreases n,
{
    if n <= 0 {
        Seq::empty()
    } else {
        visible_upto(rows, only, n - 1) + if !only || !(rows[n - 1].status is Unchanged) {
            seq![(n - 1) as usize]
        } else {
            Seq::empty()
        }
    }
}

/// Indexes of the rows shown, in order.
pub open spec fn visible_spec(rows: Seq<DiffRowV>, only: bool) -> Seq<usize> {
    visible_upto(rows, only, rows.len() as int)
}

/// Position of the first occurrence of `c` in `vis`, searching from `i`.
pub open spec fn position_from(vis: Seq<usize>, c: usize, i: int) -> Option<int>
    decreases vis.len() - i,
{
    if i < 0 || i >= vis.len() {
        None
    } else if vis[i] == c {
        Some(i)
    } else {
        position_from(vis, c, i + 1)
    }
}

/// Position of the first occurrence of `c` in `vis`.
pub open spec fn position_of(vis: Seq<usize>, c: usize) -> Option<int> {
    position_from(vis, c, 0)
}

/// `x` brought into `lo..=hi`.
pub open spec fn clamp_int(x: int, lo: int, hi: int) -> int {
    if x < lo { lo } else if x > hi { hi } else { x }
}

/// The position the cursor moves to by `dir` steps among `len` shown rows (from the top when
/// the cursor row is not shown).
pub open spec fn moved_position(vis: Seq<usize>, cursor: usize, dir: int) -> int {
    let pos = match position_of(vis, cursor) {
        Some(p) => p,
        None => 0,
    };
    clamp_int(pos + dir, 0, vis.len() - 1)
}

/// The position of the next changed row after position `p`, walking in steps of `dir`.
pub open spec fn next_change(rows: Seq<DiffRowV>, vis: Seq<usize>, p: int, dir: int) -> Option<int>
    decreases (if dir > 0 { vis.len() - p } else { p }),
{
    if dir == 0 {
        None
    } else {
        let q = p + dir;
        if q < 0 || q >= vis.len() {
            None
        } else if !(rows[vis[q] as int].status is Unchanged) {
            Some(q)
        } else {
            next_change(rows, vis, q, dir)
        }
    }
}

/// The cursor after jumping in direction `dir` to the next changed row; unchanged when the
/// cursor row is not shown or no such row exists.
pub open spec fn jumped_cursor(rows: Seq<DiffRowV>, vis: Seq<usize>, cursor: usize, dir: int) -> usize {
    match position_of(vis, cursor) {
        Some(p) => match next_change(rows, vis, p, dir) {
            Some(q) => vis[q],
            None => cursor,
        },
        None => cursor,
    }
}

/// The scroll offset that brings position `p` into a window of `content_h` rows: unchanged
/// when `p` is already inside, else the least move that shows it.
pub open spec fn followed_scroll(p: int, scroll: int, content_h: int) -> int {
    if p < scroll {
        p
    } else if content_h > 0 && p >= scroll + content_h {
        p - content_h + 1
    } else {
        scroll
    }
}

impl DiffApp {
    /// The rows shown, by index into `rows`.
    pub open spec fn shown(&self) -> Seq<usize> {
        visible_spec(self.rows.deep_view(), self.only_changes)
    }

    /// Everything but the cursor is as in `other`.
    pub open spec fn same_but_cursor(&self, other: &DiffApp) -> bool {
        &&& self.rows == other.rows
        &&& self.scroll == other.scroll
        &&& self.file_a == other.file_a
        &&& self.file_b == other.file_b
        &&& self.only_changes == other.only_changes
        &&& self.quit == other.quit
    }
}

// ---------------------------------------------------------------------------
// Lemmas
// ---------------------------------------------------------------------------

pub proof fn lemma_visible_upto(rows: Seq<DiffRowV>, only: bool, n: int)
    requires
        0 <= n <= rows.len(),
        rows.len() <= usize::MAX + 1,
    ensures
        visible_upto(rows, only, n).len() <= n,
        forall|i: int| 0 <= i < visible_upto(rows, only, n).len() ==> #[trigger] visible_upto(rows, only, n)[i] < n,
        forall|i: int, j: int| 0 <= i < j < visible_upto(rows, only, n).len() ==> visible_upto(rows, only, n)[i]
            < visible_upto(rows, only, n)[j],
        !only ==> visible_upto(rows, only, n).len() == n && forall|i: int|
            0 <= i < n ==> #[trigger] visible_upto(rows, only, n)[i] == i,
    decreases n,
{
    if n > 0 {
        lemma_visible_upto(rows, only, n - 1);
    }
}

pub proof fn lemma_position_from(vis: Seq<usize>, c: usize, i: int)
    requires
        0 <= i,
    ensures
        match position_from(vis, c, i) {
            Some(p) => i <= p < vis.len() && vis[p] == c,
            None => forall|m: int| i <= m < vis.len() ==> vis[m] != c,
        },
    decreases vis.len() - i,
{
    if i < vis.len() && vis[i] != c {
        lemma_position_from(vis, c, i + 1);
    }
}

pub proof fn lemma_next_change(rows: Seq<DiffRowV>, vis: Seq<usize>, p: int, dir: int)
    ensures
        match next_change(rows, vis, p, dir) {
            Some(q) => 0 <= q < vis.len() && !(rows[vis[q] as int].status is Unchanged),
            None => true,
        },
    decreases (if dir > 0 { vis.len() - p } else { p }),
{
    if dir != 0 {
        let q = p + dir;
        if !(q < 0 || q >= vis.len()) && rows[vis[q] as int].status is Unchanged {
            lemma_next_change(rows, vis, q, dir);
        }
    }
}

// ---------------------------------------------------------------------------
// Executable
// ---------------------------------------------------------------------------

/// Position of the first occurrence of `c` in `vis`.
fn position(vis: &Vec<usize>, c: usize) -> (r: Option<usize>)
    ensures
        match r {
            Some(p) => position_of(vis@, c) == Some(p as int),
            None => position_of(vis@, c) is None,
        },
{
    let mut i: usize = 0;
    while i < vis.len()
        invariant
            i <= vis@.len(),
            position_of(vis@, c) == position_from(vis@, c, i as int),
        decreases vis@.len() - i,
    {
        if vis[i] == c {
            return Some(i);
        }
        i = i + 1;
    }
    None
}

/// `pos + dir` brought into `0..len`.
fn clamp_step(pos: usize, dir: i32, len: usize) -> (r: usize)
    requires
        pos < len,
    ensures
        r as int == clamp_int(pos + dir, 0, len - 1),
{
    if dir >= 0 {
        let d = dir as usize;
        if d >= len - 1 - pos {
            len - 1
        } else {
            pos + d
        }
    } else {
        let d = (0 - (dir as i64)) as usize;
        if d >= pos {
            0
        } else {
            pos - d
        }
    }
}

/// `p + dir` when it lies in `0..len`.
fn step(p: usize, dir: i32, len: usize) -> (r: Option<usize>)
    requires
        p < len,
    ensures
        match r {
            Some(q) => q as int == p + dir && q < len,
            None => p + dir < 0 || p + dir >= len,
        },
{
    if dir >= 0 {
        let d = dir as usize;
        if d >= len - p {
            None
        } else {
            Some(p + d)
        }
    } else {
        let d = (0 - (dir as i64)) as usize;
        if d > p {
            None
        } else {
            Some(p - d)
        }
    }
}

impl DiffApp {
    /// The viewer on the diff of two documents, cursor on the first row, every row shown.
    pub fn new(root_a: &JNode, root_b: &JNode, file_a: String, file_b: String) -> (app: DiffApp)
        ensures
            app.rows.deep_view() == diff_spec(Some(*root_a), Some(*root_b)),
            app.cursor == 0,
            app.scroll == 0,
            app.file_a == file_a,
            app.file_b == file_b,
            !app.only_changes,
            !app.quit,
    {
        let rows = diff(Some(root_a), Some(root_b));
        DiffApp { rows, cursor: 0, scroll: 0, file_a, file_b, only_changes: false, quit: false }
    }

    /// Indexes of the rows shown: all of them, or with the filter on only those that changed.
    pub fn visible_indices(&self) -> (r: Vec<usize>)
        ensures
            r@ == self.shown(),
    {
        let ghost rv = self.rows.deep_view();
        let mut r: Vec<usize> = Vec::new();
        let mut i: usize = 0;
        while i < self.rows.len()
            invariant
                i <= self.rows@.len(),
                rv == self.rows.deep_view(),
                r@ == visible_upto(rv, self.only_changes, i as int),
            decreases self.rows@.len() - i,
        {
            if !self.only_changes || self.rows[i].status != DiffStatus::Unchanged {
                r.push(i);
            }
            assert(r@ =~= visible_upto(rv, self.only_changes, i + 1));
            i = i + 1;
        }
        r
    }

    /// Moves the cursor `dir` shown rows down (up when negative), stopping at the first and
    /// last shown row. Nothing happens when no row is shown.
    pub fn move_cursor(&mut self, dir: i32)
        ensures
            final(self).same_but_cursor(old(self)),
            old(self).shown().len() == 0 ==> final(self).cursor == old(self).cursor,
            old(self).shown().len() > 0 ==> final(self).cursor == old(self).shown()[moved_position(
                old(self).shown(),
                old(self).cursor,
                dir as int,
            )],
    {
        let vis = self.visible_indices();
        if vis.len() == 0 {
            return;
        }
        let pos = match position(&vis, self.cursor) {
            Some(p) => {
                proof { lemma_position_from(vis@, self.cursor, 0); }
                p
            },
            None => 0,
        };
        let new_pos = clamp_step(pos, dir, vis.len());
        self.cursor = vis[new_pos];
    }

    /// Moves the cursor to the next shown row that changed, in direction `dir`; stays put when
    /// there is none or when the cursor row is not shown.
    pub fn jump_to_change(&mut self, dir: i32)
        requires
            dir != 0,
        ensures
            final(self).same_but_cursor(old(self)),
            final(self).cursor == jumped_cursor(old(self).rows.deep_view(), old(self).shown(), old(self).cursor, dir as int),
    {
        let ghost rv = self.rows.deep_view();
        let n = self.rows.len();
        let vis = self.visible_indices();
        proof {
            assert(rv.len() == n);
            lemma_visible_upto(rv, self.only_changes, rv.len() as int);
        }
        if vis.len() == 0 {
            return;
        }
        let pos = match position(&vis, self.cursor) {
            Some(p) => {
                proof { lemma_position_from(vis@, self.cursor, 0); }
                p
            },
            None => {
                return;
            },
        };
        let ghost target = next_change(rv, vis@, pos as int, dir as int);
        let mut p: usize = pos;
        let mut found: Option<usize> = None;
        loop
            invariant_except_break
                p < vis@.len(),
                found is None,
                next_change(rv, vis@, p as int, dir as int) == target,
            invariant
                dir != 0,
                rv == self.rows.deep_view(),
                forall|i: int| 0 <= i < vis@.len() ==> #[trigger] vis@[i] < rv.len(),
            ensures
                match found {
                    Some(q) => target == Some(q as int) && q < vis@.len(),
                    None => target is None,
                },
            decreases (if dir > 0 { vis@.len() - p } else { p as int }),
        {
            match step(p, dir, vis.len()) {
                None => {
                    break;
                },
                Some(q) => {
                    assert(rv[vis@[q as int] as int] == self.rows@[vis@[q as int] as int].deep_view());
                    if self.rows[vis[q]].status != DiffStatus::Unchanged {
                        found = Some(q);
                        break;
                    }
                    p = q;
                },
            }
        }
        match found {
            Some(q) => {
                self.cursor = vis[q];
            },
            None => {},
        }
    }

    /// Answers a key press: `q`/Esc or Ctrl-C quit, `j`/Down and `k`/Up move, `]`/`n` and
    /// `[`/`N` jump to the next or previous change, `o` toggles the "only changes" filter.
    pub fn handle_key(&mut self, key: KeyPress)
        ensures
            ({
                let o = *old(self);
                let f = *final(self);
                if key.ctrl && key.key == Key::Char('c') {
                    f.quit && f.same_but_cursor(&DiffApp { quit: true, ..o }) && f.cursor == o.cursor
                } else {
                    match key.key {
                        Key::Char('q') | Key::Esc => f.quit && f.cursor == o.cursor
                            && f.same_but_cursor(&DiffApp { quit: true, ..o }),
                        Key::Char('j') | Key::Down => f.same_but_cursor(&o) && (o.shown().len() > 0 ==> f.cursor
                            == o.shown()[moved_position(o.shown(), o.cursor, 1)]) && (o.shown().len() == 0
                            ==> f.cursor == o.cursor),
                        Key::Char('k') | Key::Up => f.same_but_cursor(&o) && (o.shown().len() > 0 ==> f.cursor
                            == o.shown()[moved_position(o.shown(), o.cursor, -1)]) && (o.shown().len() == 0
                            ==> f.cursor == o.cursor),
                        Key::Char(']') | Key::Char('n') => f.same_but_cursor(&o) && f.cursor == jumped_cursor(
                            o.rows.deep_view(), o.shown(), o.cursor, 1),
                        Key::Char('[') | Key::Char('N') => f.same_but_cursor(&o) && f.cursor == jumped_cursor(
                            o.rows.deep_view(), o.shown(), o.cursor, -1),
                        Key::Char('o') => f.cursor == o.cursor && f.only_changes == !o.only_changes
                            && f.same_but_cursor(&DiffApp { only_changes: !o.only_changes, ..o }),
                        _ => f == o,
                    }
                }
            }),
    {
        if key.ctrl && key.key == Key::Char('c') {
            self.quit = true;
            return;
        }
        match key.key {
            Key::Char('q') | Key::Esc => {
                self.quit = true;
            },
            Key::Char('j') | Key::Down => self.move_cursor(1),
            Key::Char('k') | Key::Up => self.move_cursor(-1),
            Key::Char(']') | Key::Char('n') => self.jump_to_change(1),
            Key::Char('[') | Key::Char('N') => self.jump_to_change(-1),
            Key::Char('o') => {
                self.only_changes = !self.only_changes;
            },
            _ => {},
        }
    }

    /// Scrolls so that the cursor row lies within a window of `content_h` rows.
    pub fn follow_cursor(&mut self, content_h: usize)
        ensures
            final(self).rows == old(self).rows,
            final(self).cursor == old(self).cursor,
            final(self).only_changes == old(self).only_changes,
            final(self).quit == old(self).quit,
            final(self).file_a == old(self).file_a,
            final(self).file_b == old(self).file_b,
            match position_of(old(self).shown(), old(self).cursor) {
                Some(p) => final(self).scroll == followed_scroll(p, old(self).scroll as int, content_h as int),
                None => final(self).scroll == old(self).scroll,
            },
    {
        let vis = self.visible_indices();
        match position(&vis, self.cursor) {
            Some(pos) => {
                if pos < self.scroll {
                    self.scroll = pos;
                } else if content_h > 0 && pos - self.scroll >= content_h {
                    self.scroll = pos - content_h + 1;
                }
            },
            None => {},
        }
    }
}


// ---------------------------------------------------------------------------
// Laws
// ---------------------------------------------------------------------------

/// With the filter off every row is shown, in order; with it on, exactly the rows that
/// changed are, in order.
pub proof fn law_shown_rows(rows: Seq<DiffRowV>, only: bool)
    requires
        rows.len() <= usize::MAX,
    ensures
        forall|i: int, j: int| 0 <= i < j < visible_spec(rows, only).len() ==> visible_spec(rows, only)[i]
            < visible_spec(rows, only)[j],
        forall|i: int| 0 <= i < visible_spec(rows, only).len() ==> #[trigger] visible_spec(rows, only)[i] < rows.len(),
        !only ==> visible_spec(rows, only) == Seq::new(rows.len(), |i: int| i as usize),
        only ==> forall|i: int| 0 <= i < visible_spec(rows, only).len() ==> !(rows[
            #[trigger] visible_spec(rows, only)[i] as int].status is Unchanged),
{
    lemma_visible_upto(rows, only, rows.len() as int);
    if !only {
        assert(visible_spec(rows, only) =~= Seq::new(rows.len(), |i: int| i as usize));
    } else {
        lemma_visible_changed(rows, rows.len() as int);
    }
}

proof fn lemma_visible_changed(rows: Seq<DiffRowV>, n: int)
    requires
        0 <= n <= rows.len(),
        rows.len() <= usize::MAX,
    ensures
        forall|i: int| 0 <= i < visible_upto(rows, true, n).len() ==> !(rows[
            #[trigger] visible_upto(rows, true, n)[i] as int].status is Unchanged),
    decreases n,
{
    if n > 0 {
        lemma_visible_changed(rows, n - 1);
    }
}

/// Moving the cursor over a non-empty listing always lands on a shown row.
pub proof fn law_move_stays_on_shown_row(vis: Seq<usize>, cursor: usize, dir: int)
    requires
        vis.len() > 0,
    ensures
        0 <= moved_position(vis, cursor, dir) < vis.len(),
{
    lemma_position_from(vis, cursor, 0);
}

/// A jump either leaves the cursor where it was or puts it on a shown row that changed.
pub proof fn law_jump_lands_on_change(rows: Seq<DiffRowV>, vis: Seq<usize>, cursor: usize, dir: int)
    ensures
        jumped_cursor(rows, vis, cursor, dir) == cursor || (vis.contains(jumped_cursor(rows, vis, cursor, dir))
            && !(rows[jumped_cursor(rows, vis, cursor, dir) as int].status is Unchanged)),
{
    match position_of(vis, cursor) {
        Some(p) => {
            lemma_next_change(rows, vis, p, dir);
            match next_change(rows, vis, p, dir) {
                Some(q) => {
                    assert(vis[q] == jumped_cursor(rows, vis, cursor, dir));
                },
                None => {},
            }
        },
        None => {},
    }
}

/// After following, a shown cursor row lies inside the window of `content_h` rows that
/// starts at the scroll offset.
pub proof fn law_follow_shows_cursor(p: int, scroll: int, content_h: int)
    requires
        0 <= p,
        0 <= scroll,
        content_h > 0,
    ensures
        0 <= followed_scroll(p, scroll, content_h) <= p < followed_scroll(p, scroll, content_h) + content_h,
{
}

} // verus!
