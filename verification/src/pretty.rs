//! Annotated, pretty-printed JSON source: one line per output line, each tagged with the path
//! of the innermost node it belongs to.
use vstd::prelude::*;
use crate::text::{append, bool_text, bool_to_string, lit, repeat, repeat_str};
use crate::tree::{
    child_at, clone_path, find_key, get_node_at_path, get_spec, ident_key, is_prefix, keys_distinct,
    lemma_find_key, lemma_find_key_congruent, lemma_other_branch, lemma_prefix_push, lemma_prefix_trans,
    path_eq, same_except, starts_with, sub_key, wf_along, JKey, JNode, JPath, JScalar, KeyV, PatchSpan,
};

verus! {

/// Colour class of a piece of source text.
#[derive(Debug, Clone, Copy, PartialEq, Eq)]
pub enum SegColor {
    Key,
    Str,
    Num,
    Bool,
    Null,
    Punct,
}

/// A piece of a source line.
#[derive(Debug, Clone, PartialEq)]
pub struct Seg {
    pub text: String,
    pub color: SegColor,
}

/// One output line and the path of the node it belongs to.
#[derive(Debug, Clone, PartialEq)]
pub struct AnnotatedLine {
    pub segs: Vec<Seg>,
    pub path: JPath,
}

/// Abstract segment.
pub struct SegV {
    pub text: Seq<char>,
    pub color: SegColor,
}

/// Abstract line.
pub struct LineV {
    pub segs: Seq<SegV>,
    pub path: Seq<KeyV>,
}

impl DeepView for Seg {
    type V = SegV;

    open spec fn deep_view(&self) -> SegV {
        SegV { text: self.text@, color: self.color }
    }
}

impl DeepView for AnnotatedLine {
    type V = LineV;

    open spec fn deep_view(&self) -> LineV {
        LineV { segs: self.segs.deep_view(), path: self.path.deep_view() }
    }
}

// ---------------------------------------------------------------------------
// Specification of the printed form
// ---------------------------------------------------------------------------

pub open spec fn seg_spec(text: Seq<char>, color: SegColor) -> SegV {
    SegV { text, color }
}

/// Two spaces per level; no segment at all at depth 0.
pub open spec fn indent_spec(depth: nat) -> Seq<SegV> {
    if depth == 0 {
        Seq::empty()
    } else {
        seq![seg_spec(repeat("  "@, depth), SegColor::Punct)]
    }
}

pub open spec fn quoted(s: Seq<char>) -> Seq<char> {
    "\""@ + s + "\""@
}

/// Indentation, then `"key": ` when the node has a key.
pub open spec fn prefix_spec(depth: nat, key: Option<Seq<char>>) -> Seq<SegV> {
    indent_spec(depth) + match key {
        Some(k) => seq![seg_spec(quoted(k), SegColor::Key), seg_spec(": "@, SegColor::Punct)],
        None => Seq::empty(),
    }
}

pub open spec fn comma_spec(c: bool) -> Seq<SegV> {
    if c { seq![seg_spec(","@, SegColor::Punct)] } else { Seq::empty() }
}

/// Printed form of a scalar: `null`, `true`/`false`, the number text, or the quoted string.
pub open spec fn scalar_seg_spec(s: JScalar) -> SegV {
    match s {
        JScalar::Null => seg_spec("null"@, SegColor::Null),
        JScalar::Bool(b) => seg_spec(bool_text(b), SegColor::Bool),
        JScalar::Number(n) => seg_spec(n@, SegColor::Num),
        JScalar::String(t) => seg_spec(quoted(t@), SegColor::Str),
    }
}

pub open spec fn line_spec(segs: Seq<SegV>, path: Seq<KeyV>) -> LineV {
    LineV { segs, path }
}

/// Lines printed for `n` at `path` (depth = path length), with its key and trailing comma.
pub open spec fn emit_lines(n: JNode, path: Seq<KeyV>, key: Option<Seq<char>>, comma: bool) -> Seq<LineV>
    decreases n, 0int,
{
    let depth = path.len();
    let prefix = prefix_spec(depth, key);
    match n {
        JNode::Scalar(s) => seq![line_spec(prefix + seq![scalar_seg_spec(s)] + comma_spec(comma), path)],
        JNode::Object { entries, .. } => if entries@.len() == 0 {
            seq![line_spec(prefix + seq![seg_spec("{}"@, SegColor::Punct)] + comma_spec(comma), path)]
        } else {
            seq![line_spec(prefix + seq![seg_spec("{"@, SegColor::Punct)], path)] + obj_lines(
                entries@,
                0,
                entries@.len() as int,
                path,
            ) + seq![line_spec(indent_spec(depth) + seq![seg_spec("}"@, SegColor::Punct)] + comma_spec(comma), path)]
        },
        JNode::Array { items, .. } => if items@.len() == 0 {
            seq![line_spec(prefix + seq![seg_spec("[]"@, SegColor::Punct)] + comma_spec(comma), path)]
        } else {
            seq![line_spec(prefix + seq![seg_spec("["@, SegColor::Punct)], path)] + arr_lines(
                items@,
                0,
                items@.len() as int,
                path,
            ) + seq![line_spec(indent_spec(depth) + seq![seg_spec("]"@, SegColor::Punct)] + comma_spec(comma), path)]
        },
    }
}

/// Lines of the object entries `lo..hi`; every entry but the last has a trailing comma.
pub open spec fn obj_lines(es: Seq<(String, JNode)>, lo: int, hi: int, base: Seq<KeyV>) -> Seq<LineV>
    decreases es, hi - lo,
{
    if lo < 0 || hi <= lo || hi > es.len() {
        Seq::empty()
    } else {
        obj_lines(es, lo, hi - 1, base) + emit_lines(
            es[hi - 1].1,
            base.push(KeyV::Field(es[hi - 1].0@)),
            Some(es[hi - 1].0@),
            hi < es.len(),
        )
    }
}

/// Lines of the array items `lo..hi`; every item but the last has a trailing comma.
pub open spec fn arr_lines(items: Seq<JNode>, lo: int, hi: int, base: Seq<KeyV>) -> Seq<LineV>
    decreases items, hi - lo,
{
    if lo < 0 || hi <= lo || hi > items.len() {
        Seq::empty()
    } else {
        arr_lines(items, lo, hi - 1, base) + emit_lines(
            items[hi - 1],
            base.push(KeyV::Index((hi - 1) as usize)),
            None,
            hi < items.len(),
        )
    }
}

/// The annotated listing of a whole document.
pub open spec fn annotate_spec(root: JNode) -> Seq<LineV> {
    emit_lines(root, Seq::empty(), None, false)
}

// ---------------------------------------------------------------------------
// Printing
// ---------------------------------------------------------------------------

pub fn indent_segs(depth: usize) -> (r: Vec<Seg>)
    ensures
        r.deep_view() == indent_spec(depth as nat),
{
    if depth == 0 {
        let r: Vec<Seg> = Vec::new();
        assert(r.deep_view() =~= indent_spec(depth as nat));
        return r;
    }
    let mut r: Vec<Seg> = Vec::new();
    r.push(Seg { text: repeat_str("  ", depth), color: SegColor::Punct });
    assert(r.deep_view() =~= indent_spec(depth as nat));
    r
}

fn quote(s: &str) -> (r: String)
    ensures
        r@ == quoted(s@),
{
    let mut r = lit("\"");
    append(&mut r, s);
    append(&mut r, "\"");
    r
}

pub fn scalar_seg(s: &JScalar) -> (r: (String, SegColor))
    ensures
        seg_spec(r.0@, r.1) == scalar_seg_spec(*s),
{
    match s {
        JScalar::Null => (lit("null"), SegColor::Null),
        JScalar::Bool(b) => (bool_to_string(*b), SegColor::Bool),
        JScalar::Number(n) => (n.clone(), SegColor::Num),
        JScalar::String(t) => (quote(t.as_str()), SegColor::Str),
    }
}

fn punct(text: &str) -> (r: Seg)
    ensures
        r.deep_view() == seg_spec(text@, SegColor::Punct),
{
    Seg { text: lit(text), color: SegColor::Punct }
}

fn push_comma(segs: &mut Vec<Seg>, comma: bool)
    ensures
        final(segs).deep_view() == old(segs).deep_view() + comma_spec(comma),
{
    if comma {
        segs.push(punct(","));
    }
    assert(segs.deep_view() =~= old(segs).deep_view() + comma_spec(comma));
}

fn emit(node: &JNode, depth: usize, path: &[JKey], key: Option<&str>, comma: bool, out: &mut Vec<AnnotatedLine>)
    requires
        depth == path@.len(),
    ensures
        final(out).deep_view() == old(out).deep_view() + emit_lines(*node, path.deep_view(), key.deep_view(), comma),
    decreases node,
{
    let ghost pv = path.deep_view();
    let ghost kv = key.deep_view();
    let mut prefix = indent_segs(depth);
    if let Some(k) = key {
        prefix.push(Seg { text: quote(k), color: SegColor::Key });
        prefix.push(punct(": "));
    }
    assert(prefix.deep_view() =~= prefix_spec(depth as nat, kv));
    match node {
        JNode::Scalar(s) => {
            let mut segs = prefix;
            let (txt, col) = scalar_seg(s);
            segs.push(Seg { text: txt, color: col });
            push_comma(&mut segs, comma);
            assert(segs.deep_view() =~= prefix_spec(depth as nat, kv) + seq![scalar_seg_spec(*s)] + comma_spec(comma));
            out.push(AnnotatedLine { segs, path: clone_path(path) });
            assert(out.deep_view() =~= old(out).deep_view() + emit_lines(*node, pv, kv, comma));
        },
        JNode::Object { entries, collapsed } => {
            if entries.len() == 0 {
                let mut segs = prefix;
                segs.push(punct("{}"));
                push_comma(&mut segs, comma);
                assert(segs.deep_view() =~= prefix_spec(depth as nat, kv) + seq![seg_spec("{}"@, SegColor::Punct)] + comma_spec(comma));
                out.push(AnnotatedLine { segs, path: clone_path(path) });
                assert(out.deep_view() =~= old(out).deep_view() + emit_lines(*node, pv, kv, comma));
                return;
            }
            let mut open = prefix;
            open.push(punct("{"));
            assert(open.deep_view() =~= prefix_spec(depth as nat, kv) + seq![seg_spec("{"@, SegColor::Punct)]);
            out.push(AnnotatedLine { segs: open, path: clone_path(path) });
            let ghost start = out.deep_view();
            assert(start =~= old(out).deep_view() + seq![line_spec(prefix_spec(depth as nat, kv) + seq![seg_spec("{"@, SegColor::Punct)], pv)]);
            let n = entries.len();
            let mut i: usize = 0;
            while i < n
                invariant
                    *node == (JNode::Object { entries: *entries, collapsed: *collapsed }),
                    n == entries@.len(),
                    i <= n,
                    pv == path.deep_view(),
                    depth == path@.len(),
                    out.deep_view() == start + obj_lines(entries@, 0, i as int, pv),
                decreases n - i,
            {
                let mut cp = clone_path(path);
                cp.push(JKey::Field(entries[i].0.clone()));
                assert(cp.deep_view() =~= pv.push(KeyV::Field(entries@[i as int].0@)));
                proof {
                    assert(decreases_to!(*node => node->entries));
                    assert(decreases_to!(*entries => entries@));
                    assert(decreases_to!(entries@ => entries@[i as int]));
                    assert(decreases_to!(entries@[i as int] => entries@[i as int].1));
                }
                emit(&entries[i].1, cp.len(), &cp, Some(entries[i].0.as_str()), i + 1 < n, out);
                assert(obj_lines(entries@, 0, i + 1, pv) == obj_lines(entries@, 0, i as int, pv) + emit_lines(
                    entries@[i as int].1, pv.push(KeyV::Field(entries@[i as int].0@)), Some(entries@[i as int].0@), i + 1 < n));
                assert(out.deep_view() =~= start + obj_lines(entries@, 0, i + 1, pv));
                i = i + 1;
            }
            let mut close = indent_segs(depth);
            close.push(punct("}"));
            push_comma(&mut close, comma);
            assert(close.deep_view() =~= indent_spec(depth as nat) + seq![seg_spec("}"@, SegColor::Punct)] + comma_spec(comma));
            let ghost mid = out.deep_view();
            out.push(AnnotatedLine { segs: close, path: clone_path(path) });
            assert(out.deep_view() =~= mid + seq![line_spec(indent_spec(depth as nat) + seq![seg_spec("}"@, SegColor::Punct)] + comma_spec(comma), pv)]);
            assert(out.deep_view() =~= old(out).deep_view() + emit_lines(*node, pv, kv, comma));
        },
        JNode::Array { items, collapsed } => {
            if items.len() == 0 {
                let mut segs = prefix;
                segs.push(punct("[]"));
                push_comma(&mut segs, comma);
                assert(segs.deep_view() =~= prefix_spec(depth as nat, kv) + seq![seg_spec("[]"@, SegColor::Punct)] + comma_spec(comma));
                out.push(AnnotatedLine { segs, path: clone_path(path) });
                assert(out.deep_view() =~= old(out).deep_view() + emit_lines(*node, pv, kv, comma));
                return;
            }
            let mut open = prefix;
            open.push(punct("["));
            assert(open.deep_view() =~= prefix_spec(depth as nat, kv) + seq![seg_spec("["@, SegColor::Punct)]);
            out.push(AnnotatedLine { segs: open, path: clone_path(path) });
            let ghost start = out.deep_view();
            assert(start =~= old(out).deep_view() + seq![line_spec(prefix_spec(depth as nat, kv) + seq![seg_spec("["@, SegColor::Punct)], pv)]);
            let n = items.len();
            let mut i: usize = 0;
            while i < n
                invariant
                    *node == (JNode::Array { items: *items, collapsed: *collapsed }),
                    n == items@.len(),
                    i <= n,
                    pv == path.deep_view(),
                    depth == path@.len(),
                    out.deep_view() == start + arr_lines(items@, 0, i as int, pv),
                decreases n - i,
            {
                let mut cp = clone_path(path);
                cp.push(JKey::Index(i));
                assert(cp.deep_view() =~= pv.push(KeyV::Index(i)));
                proof {
                    assert(decreases_to!(*node => node->items));
                    assert(decreases_to!(*items => items@));
                    assert(decreases_to!(items@ => items@[i as int]));
                }
                emit(&items[i], cp.len(), &cp, None, i + 1 < n, out);
                assert(arr_lines(items@, 0, i + 1, pv) == arr_lines(items@, 0, i as int, pv) + emit_lines(
                    items@[i as int], pv.push(KeyV::Index(i)), None, i + 1 < n));
                assert(out.deep_view() =~= start + arr_lines(items@, 0, i + 1, pv));
                i = i + 1;
            }
            let mut close = indent_segs(depth);
            close.push(punct("]"));
            push_comma(&mut close, comma);
            assert(close.deep_view() =~= indent_spec(depth as nat) + seq![seg_spec("]"@, SegColor::Punct)] + comma_spec(comma));
            let ghost mid = out.deep_view();
            out.push(AnnotatedLine { segs: close, path: clone_path(path) });
            assert(out.deep_view() =~= mid + seq![line_spec(indent_spec(depth as nat) + seq![seg_spec("]"@, SegColor::Punct)] + comma_spec(comma), pv)]);
            assert(out.deep_view() =~= old(out).deep_view() + emit_lines(*node, pv, kv, comma));
        },
    }
}

/// The whole document as annotated source lines.
pub fn annotate(root: &JNode) -> (lines: Vec<AnnotatedLine>)
    ensures
        lines.deep_view() == annotate_spec(*root),
{
    let mut lines: Vec<AnnotatedLine> = Vec::new();
    let empty: Vec<JKey> = Vec::new();
    assert(empty.deep_view() =~= Seq::<KeyV>::empty());
    emit(root, 0, &empty, None, false, &mut lines);
    assert(lines.deep_view() =~= annotate_spec(*root));
    lines
}


// ---------------------------------------------------------------------------
// Patching the annotated listing in place
// ---------------------------------------------------------------------------

/// Index of the first line (from `i` on) whose path is `t`.
pub open spec fn first_line_from(lines: Seq<LineV>, t: Seq<KeyV>, i: int) -> Option<int>
    decreases lines.len() - i,
{
    if i < 0 || i >= lines.len() {
        None
    } else if lines[i].path == t {
        Some(i)
    } else {
        first_line_from(lines, t, i + 1)
    }
}

/// From `e` on, the first line whose path does not start with `t` (or the length).
pub open spec fn line_scan_end(lines: Seq<LineV>, t: Seq<KeyV>, e: int) -> int
    decreases lines.len() - e,
{
    if e < 0 || e >= lines.len() {
        lines.len() as int
    } else if is_prefix(t, lines[e].path) {
        line_scan_end(lines, t, e + 1)
    } else {
        e
    }
}

/// The line ends with a `,` punctuation segment.
pub open spec fn ends_with_comma(l: LineV) -> bool {
    l.segs.len() > 0 && l.segs.last().color == SegColor::Punct && l.segs.last().text == ","@
}

/// What patching `lines` for `t` against `root` gives: the start of the replaced block, the
/// number of new lines, and the new listing. The trailing comma of the old block's last line
/// is kept.
pub open spec fn annot_patch(lines: Seq<LineV>, root: JNode, t: Seq<KeyV>) -> Option<(int, int, Seq<LineV>)> {
    match first_line_from(lines, t, 0) {
        None => None,
        Some(s) => match get_spec(root, t) {
            None => None,
            Some(node) => {
                let e = line_scan_end(lines, t, s + 1);
                let new_lines = emit_lines(node, t, ident_key(t), ends_with_comma(lines[e - 1]));
                Some((s, new_lines.len() as int, lines.subrange(0, s) + new_lines + lines.subrange(e, lines.len() as int)))
            },
        },
    }
}

fn field_key(target: &JPath) -> (r: Option<&str>)
    ensures
        r.deep_view() == ident_key(target.deep_view()),
{
    if target.len() == 0 {
        return None;
    }
    let last = target.len() - 1;
    assert(target.deep_view().last() == target@[last as int].deep_view());
    match &target[last] {
        JKey::Field(k) => Some(k.as_str()),
        JKey::Index(_) => None,
    }
}

/// Replaces the block of `annotated` that belongs to `target` (its own lines and every line
/// below it) with freshly printed lines for the subtree now at `target` in `root`, keeping
/// the trailing comma that the old block ended with. `None`, with `annotated` unchanged, when
/// `target` has no line or no node.
pub fn patch_annotated(annotated: &mut Vec<AnnotatedLine>, root: &JNode, target: &JPath) -> (r: Option<PatchSpan>)
    ensures
        match annot_patch(old(annotated).deep_view(), *root, target.deep_view()) {
            Some((s, n, lines)) => r matches Some(span) && span.start == s && span.new_len == n
                && final(annotated).deep_view() == lines,
            None => r is None && *final(annotated) == *old(annotated),
        },
{
    let ghost lines = annotated.deep_view();
    let ghost t = target.deep_view();
    let mut start: usize = 0;
    while start < annotated.len() && !path_eq(&annotated[start].path, target)
        invariant
            start <= annotated@.len(),
            lines == annotated.deep_view(),
            t == target.deep_view(),
            first_line_from(lines, t, 0) == first_line_from(lines, t, start as int),
        decreases annotated@.len() - start,
    {
        start = start + 1;
    }
    if start == annotated.len() {
        return None;
    }
    assert(first_line_from(lines, t, 0) == Some(start as int));
    let mut end: usize = start + 1;
    while end < annotated.len() && starts_with(&annotated[end].path, target)
        invariant
            start < end <= annotated@.len(),
            lines == annotated.deep_view(),
            t == target.deep_view(),
            line_scan_end(lines, t, start + 1) == line_scan_end(lines, t, end as int),
        decreases annotated@.len() - end,
    {
        end = end + 1;
    }
    let node = match get_node_at_path(root, target) {
        Some(n) => n,
        None => {
            return None;
        },
    };
    let last_segs = &annotated[end - 1].segs;
    let had_comma = if last_segs.len() > 0 {
        let seg = &last_segs[last_segs.len() - 1];
        let is_punct = match seg.color {
            SegColor::Punct => true,
            _ => false,
        };
        let comma = lit(",");
        is_punct && seg.text == comma
    } else {
        false
    };
    assert(had_comma == ends_with_comma(lines[end - 1]));
    let key = field_key(target);
    let mut new_lines: Vec<AnnotatedLine> = Vec::new();
    emit(node, target.len(), target, key, had_comma, &mut new_lines);
    assert(new_lines.deep_view() =~= emit_lines(*node, t, ident_key(t), had_comma));
    let new_len = new_lines.len();
    let mut tail = annotated.split_off(end);
    annotated.truncate(start);
    annotated.append(&mut new_lines);
    annotated.append(&mut tail);
    proof {
        assert(line_scan_end(lines, t, start + 1) == end);
        assert(annotated.deep_view() =~= lines.subrange(0, start as int) + emit_lines(*node, t, ident_key(t), had_comma)
            + lines.subrange(end as int, lines.len() as int));
    }
    Some(PatchSpan { start, new_len })
}


// ---------------------------------------------------------------------------
// Why patching agrees with a full reprint
// ---------------------------------------------------------------------------

/// Whether the node at `p` is printed with a trailing comma, `c` being that of `a`.
pub open spec fn comma_at(a: JNode, c: bool, p: Seq<KeyV>) -> bool
    decreases p.len(),
{
    if p.len() == 0 {
        c
    } else {
        match a {
            JNode::Object { entries, .. } => match p[0] {
                KeyV::Field(s) => match find_key(entries@, s) {
                    Some(j) => comma_at(entries@[j].1, j + 1 < entries@.len(), p.drop_first()),
                    None => c,
                },
                KeyV::Index(_) => c,
            },
            JNode::Array { items, .. } => match p[0] {
                KeyV::Index(i) => if i < items@.len() {
                    comma_at(items@[i as int], i + 1 < items@.len(), p.drop_first())
                } else {
                    c
                },
                KeyV::Field(_) => c,
            },
            JNode::Scalar(_) => c,
        }
    }
}

pub open spec fn open_text(a: JNode) -> Seq<char> {
    match a {
        JNode::Array { .. } => "["@,
        _ => "{"@,
    }
}

pub open spec fn close_text(a: JNode) -> Seq<char> {
    match a {
        JNode::Array { .. } => "]"@,
        _ => "}"@,
    }
}

/// Lines of `a` printed before the block of the node at `p`.
pub open spec fn pre_lines(a: JNode, base: Seq<KeyV>, k: Option<Seq<char>>, c: bool, p: Seq<KeyV>) -> Seq<LineV>
    decreases p.len(),
{
    if p.len() == 0 {
        Seq::empty()
    } else {
        let head = seq![line_spec(prefix_spec(base.len(), k) + seq![seg_spec(open_text(a), SegColor::Punct)], base)];
        match a {
            JNode::Object { entries, .. } => match p[0] {
                KeyV::Field(s) => match find_key(entries@, s) {
                    Some(j) => head + obj_lines(entries@, 0, j, base) + pre_lines(
                        entries@[j].1,
                        base.push(KeyV::Field(entries@[j].0@)),
                        Some(entries@[j].0@),
                        j + 1 < entries@.len(),
                        p.drop_first(),
                    ),
                    None => Seq::empty(),
                },
                KeyV::Index(_) => Seq::empty(),
            },
            JNode::Array { items, .. } => match p[0] {
                KeyV::Index(i) => if i < items@.len() {
                    head + arr_lines(items@, 0, i as int, base) + pre_lines(
                        items@[i as int],
                        base.push(KeyV::Index(i)),
                        None,
                        i + 1 < items@.len(),
                        p.drop_first(),
                    )
                } else {
                    Seq::empty()
                },
                KeyV::Field(_) => Seq::empty(),
            },
            JNode::Scalar(_) => Seq::empty(),
        }
    }
}

/// Lines of `a` printed after the block of the node at `p`.
pub open spec fn post_lines(a: JNode, base: Seq<KeyV>, k: Option<Seq<char>>, c: bool, p: Seq<KeyV>) -> Seq<LineV>
    decreases p.len(),
{
    if p.len() == 0 {
        Seq::empty()
    } else {
        let tail = seq![line_spec(indent_spec(base.len()) + seq![seg_spec(close_text(a), SegColor::Punct)] + comma_spec(c), base)];
        match a {
            JNode::Object { entries, .. } => match p[0] {
                KeyV::Field(s) => match find_key(entries@, s) {
                    Some(j) => post_lines(
                        entries@[j].1,
                        base.push(KeyV::Field(entries@[j].0@)),
                        Some(entries@[j].0@),
                        j + 1 < entries@.len(),
                        p.drop_first(),
                    ) + obj_lines(entries@, j + 1, entries@.len() as int, base) + tail,
                    None => Seq::empty(),
                },
                KeyV::Index(_) => Seq::empty(),
            },
            JNode::Array { items, .. } => match p[0] {
                KeyV::Index(i) => if i < items@.len() {
                    post_lines(
                        items@[i as int],
                        base.push(KeyV::Index(i)),
                        None,
                        i + 1 < items@.len(),
                        p.drop_first(),
                    ) + arr_lines(items@, i + 1, items@.len() as int, base) + tail
                } else {
                    Seq::empty()
                },
                KeyV::Field(_) => Seq::empty(),
            },
            JNode::Scalar(_) => Seq::empty(),
        }
    }
}

/// No line of `lines` lies at or below `t`.
pub open spec fn avoid_lines(lines: Seq<LineV>, t: Seq<KeyV>) -> bool {
    forall|i: int| 0 <= i < lines.len() ==> !is_prefix(t, #[trigger] lines[i].path)
}

pub proof fn lemma_obj_lines_split(es: Seq<(String, JNode)>, lo: int, mid: int, hi: int, base: Seq<KeyV>)
    requires
        0 <= lo <= mid <= hi <= es.len(),
    ensures
        obj_lines(es, lo, hi, base) == obj_lines(es, lo, mid, base) + obj_lines(es, mid, hi, base),
    decreases hi - mid,
{
    if hi == mid {
        assert(obj_lines(es, lo, hi, base) =~= obj_lines(es, lo, mid, base) + obj_lines(es, mid, hi, base));
    } else {
        lemma_obj_lines_split(es, lo, mid, hi - 1, base);
        assert(obj_lines(es, lo, hi, base) =~= obj_lines(es, lo, mid, base) + obj_lines(es, mid, hi, base));
    }
}

pub proof fn lemma_arr_lines_split(items: Seq<JNode>, lo: int, mid: int, hi: int, base: Seq<KeyV>)
    requires
        0 <= lo <= mid <= hi <= items.len(),
    ensures
        arr_lines(items, lo, hi, base) == arr_lines(items, lo, mid, base) + arr_lines(items, mid, hi, base),
    decreases hi - mid,
{
    if hi == mid {
        assert(arr_lines(items, lo, hi, base) =~= arr_lines(items, lo, mid, base) + arr_lines(items, mid, hi, base));
    } else {
        lemma_arr_lines_split(items, lo, mid, hi - 1, base);
        assert(arr_lines(items, lo, hi, base) =~= arr_lines(items, lo, mid, base) + arr_lines(items, mid, hi, base));
    }
}

pub proof fn lemma_obj_lines_congruent(e1: Seq<(String, JNode)>, e2: Seq<(String, JNode)>, lo: int, hi: int, base: Seq<KeyV>)
    requires
        0 <= lo,
        hi <= e1.len(),
        e1.len() == e2.len(),
        forall|m: int| lo <= m < hi ==> e1[m] == e2[m],
    ensures
        obj_lines(e1, lo, hi, base) == obj_lines(e2, lo, hi, base),
    decreases hi - lo,
{
    if lo < hi {
        lemma_obj_lines_congruent(e1, e2, lo, hi - 1, base);
    }
}

pub proof fn lemma_arr_lines_congruent(i1: Seq<JNode>, i2: Seq<JNode>, lo: int, hi: int, base: Seq<KeyV>)
    requires
        0 <= lo,
        hi <= i1.len(),
        i1.len() == i2.len(),
        forall|m: int| lo <= m < hi ==> i1[m] == i2[m],
    ensures
        arr_lines(i1, lo, hi, base) == arr_lines(i2, lo, hi, base),
    decreases hi - lo,
{
    if lo < hi {
        lemma_arr_lines_congruent(i1, i2, lo, hi - 1, base);
    }
}

/// Every line printed for `n` at `base` lies at or below `base`.
pub proof fn lemma_lines_prefix(n: JNode, base: Seq<KeyV>, k: Option<Seq<char>>, c: bool)
    ensures
        forall|i: int| 0 <= i < emit_lines(n, base, k, c).len() ==> is_prefix(base, #[trigger] emit_lines(n, base, k, c)[i].path),
    decreases n, 0int,
{
    let ls = emit_lines(n, base, k, c);
    assert(base.subrange(0, base.len() as int) =~= base);
    match n {
        JNode::Object { entries, .. } => {
            if entries@.len() > 0 {
                let mid = obj_lines(entries@, 0, entries@.len() as int, base);
                lemma_obj_lines_prefix(entries@, 0, entries@.len() as int, base);
                assert forall|i: int| 0 <= i < ls.len() implies is_prefix(base, #[trigger] ls[i].path) by {
                    if 0 < i < ls.len() - 1 {
                        assert(ls[i] == mid[i - 1]);
                    }
                }
            }
        },
        JNode::Array { items, .. } => {
            if items@.len() > 0 {
                let mid = arr_lines(items@, 0, items@.len() as int, base);
                lemma_arr_lines_prefix(items@, 0, items@.len() as int, base);
                assert forall|i: int| 0 <= i < ls.len() implies is_prefix(base, #[trigger] ls[i].path) by {
                    if 0 < i < ls.len() - 1 {
                        assert(ls[i] == mid[i - 1]);
                    }
                }
            }
        },
        JNode::Scalar(_) => {},
    }
}

pub proof fn lemma_obj_lines_prefix(es: Seq<(String, JNode)>, lo: int, hi: int, base: Seq<KeyV>)
    ensures
        forall|i: int| 0 <= i < obj_lines(es, lo, hi, base).len() ==> is_prefix(base, #[trigger] obj_lines(es, lo, hi, base)[i].path),
    decreases es, hi - lo,
{
    if !(lo < 0 || hi <= lo || hi > es.len()) {
        let left = obj_lines(es, lo, hi - 1, base);
        let b2 = base.push(KeyV::Field(es[hi - 1].0@));
        let right = emit_lines(es[hi - 1].1, b2, Some(es[hi - 1].0@), hi < es.len());
        lemma_obj_lines_prefix(es, lo, hi - 1, base);
        lemma_lines_prefix(es[hi - 1].1, b2, Some(es[hi - 1].0@), hi < es.len());
        lemma_prefix_push(base, KeyV::Field(es[hi - 1].0@));
        assert forall|i: int| 0 <= i < obj_lines(es, lo, hi, base).len() implies is_prefix(base, #[trigger] obj_lines(es, lo, hi, base)[i].path) by {
            if i >= left.len() {
                assert(obj_lines(es, lo, hi, base)[i] == right[i - left.len()]);
                lemma_prefix_trans(base, b2, right[i - left.len()].path);
            } else {
                assert(obj_lines(es, lo, hi, base)[i] == left[i]);
            }
        }
    }
}

pub proof fn lemma_arr_lines_prefix(items: Seq<JNode>, lo: int, hi: int, base: Seq<KeyV>)
    ensures
        forall|i: int| 0 <= i < arr_lines(items, lo, hi, base).len() ==> is_prefix(base, #[trigger] arr_lines(items, lo, hi, base)[i].path),
    decreases items, hi - lo,
{
    if !(lo < 0 || hi <= lo || hi > items.len()) {
        let left = arr_lines(items, lo, hi - 1, base);
        let b2 = base.push(KeyV::Index((hi - 1) as usize));
        let right = emit_lines(items[hi - 1], b2, None, hi < items.len());
        lemma_arr_lines_prefix(items, lo, hi - 1, base);
        lemma_lines_prefix(items[hi - 1], b2, None, hi < items.len());
        lemma_prefix_push(base, KeyV::Index((hi - 1) as usize));
        assert forall|i: int| 0 <= i < arr_lines(items, lo, hi, base).len() implies is_prefix(base, #[trigger] arr_lines(items, lo, hi, base)[i].path) by {
            if i >= left.len() {
                assert(arr_lines(items, lo, hi, base)[i] == right[i - left.len()]);
                lemma_prefix_trans(base, b2, right[i - left.len()].path);
            } else {
                assert(arr_lines(items, lo, hi, base)[i] == left[i]);
            }
        }
    }
}

pub proof fn lemma_avoid_lines_concat(a: Seq<LineV>, b: Seq<LineV>, t: Seq<KeyV>)
    requires
        avoid_lines(a, t),
        avoid_lines(b, t),
    ensures
        avoid_lines(a + b, t),
{
    assert forall|i: int| 0 <= i < (a + b).len() implies !is_prefix(t, #[trigger] (a + b)[i].path) by {
        if i < a.len() {
            assert((a + b)[i] == a[i]);
        } else {
            assert((a + b)[i] == b[i - a.len()]);
        }
    }
}

pub proof fn lemma_obj_lines_avoid(es: Seq<(String, JNode)>, lo: int, hi: int, base: Seq<KeyV>, t: Seq<KeyV>)
    requires
        0 <= lo,
        hi <= es.len(),
        base.len() < t.len(),
        forall|m: int| lo <= m < hi ==> KeyV::Field(es[m].0@) != t[base.len() as int],
    ensures
        avoid_lines(obj_lines(es, lo, hi, base), t),
    decreases hi - lo,
{
    if lo < hi {
        let x = KeyV::Field(es[hi - 1].0@);
        let right = emit_lines(es[hi - 1].1, base.push(x), Some(es[hi - 1].0@), hi < es.len());
        lemma_obj_lines_avoid(es, lo, hi - 1, base, t);
        lemma_lines_prefix(es[hi - 1].1, base.push(x), Some(es[hi - 1].0@), hi < es.len());
        assert forall|i: int| 0 <= i < right.len() implies !is_prefix(t, #[trigger] right[i].path) by {
            lemma_other_branch(base, x, right[i].path, t);
        }
        lemma_avoid_lines_concat(obj_lines(es, lo, hi - 1, base), right, t);
    } else {
        assert(obj_lines(es, lo, hi, base) =~= Seq::<LineV>::empty());
    }
}

pub proof fn lemma_arr_lines_avoid(items: Seq<JNode>, lo: int, hi: int, base: Seq<KeyV>, t: Seq<KeyV>)
    requires
        0 <= lo,
        hi <= items.len(),
        hi <= usize::MAX + 1,
        base.len() < t.len(),
        t[base.len() as int] matches KeyV::Index(y) ==> !(lo <= y < hi),
    ensures
        avoid_lines(arr_lines(items, lo, hi, base), t),
    decreases hi - lo,
{
    if lo < hi {
        let x = KeyV::Index((hi - 1) as usize);
        let right = emit_lines(items[hi - 1], base.push(x), None, hi < items.len());
        lemma_arr_lines_avoid(items, lo, hi - 1, base, t);
        lemma_lines_prefix(items[hi - 1], base.push(x), None, hi < items.len());
        assert forall|i: int| 0 <= i < right.len() implies !is_prefix(t, #[trigger] right[i].path) by {
            lemma_other_branch(base, x, right[i].path, t);
        }
        lemma_avoid_lines_concat(arr_lines(items, lo, hi - 1, base), right, t);
    } else {
        assert(arr_lines(items, lo, hi, base) =~= Seq::<LineV>::empty());
    }
}

/// The printed form of `a` splits into lines before the node at `p`, that node's own block
/// (printed with the comma it has in `a`), and lines after it.
pub proof fn lemma_emit_decompose(a: JNode, base: Seq<KeyV>, k: Option<Seq<char>>, c: bool, p: Seq<KeyV>)
    requires
        get_spec(a, p) is Some,
    ensures
        emit_lines(a, base, k, c) == pre_lines(a, base, k, c, p) + emit_lines(
            get_spec(a, p).unwrap(),
            base + p,
            sub_key(k, p),
            comma_at(a, c, p),
        ) + post_lines(a, base, k, c, p),
    decreases p.len(),
{
    if p.len() == 0 {
        assert(base + p =~= base);
        assert(emit_lines(a, base, k, c) =~= pre_lines(a, base, k, c, p) + emit_lines(a, base, k, c) + post_lines(a, base, k, c, p));
    } else {
        match a {
            JNode::Object { entries, .. } => {
                let es = entries@;
                let s = p[0]->Field_0;
                lemma_find_key(es, s);
                let j = find_key(es, s).unwrap();
                let kj = es[j].0@;
                lemma_emit_decompose(es[j].1, base.push(KeyV::Field(kj)), Some(kj), j + 1 < es.len(), p.drop_first());
                lemma_emit_decompose_obj(a, base, k, c, p);
            },
            JNode::Array { items, .. } => {
                let i = p[0]->Index_0;
                lemma_emit_decompose(items@[i as int], base.push(KeyV::Index(i)), None, i + 1 < items@.len(), p.drop_first());
                lemma_emit_decompose_arr(a, base, k, c, p);
            },
            JNode::Scalar(_) => {},
        }
    }
}

/// One step of `lemma_emit_decompose` through an object.
#[verifier::spinoff_prover]
#[verifier::rlimit(60)]
pub proof fn lemma_emit_decompose_obj(a: JNode, base: Seq<KeyV>, k: Option<Seq<char>>, c: bool, p: Seq<KeyV>)
    requires
        p.len() > 0,
        get_spec(a, p) is Some,
        a is Object,
        ({
            let es = a->entries@;
            let j = find_key(es, p[0]->Field_0).unwrap();
            let b2 = base.push(KeyV::Field(es[j].0@));
            let cj = j + 1 < es.len();
            emit_lines(es[j].1, b2, Some(es[j].0@), cj) == pre_lines(es[j].1, b2, Some(es[j].0@), cj, p.drop_first())
                + emit_lines(get_spec(es[j].1, p.drop_first()).unwrap(), b2 + p.drop_first(),
                    sub_key(Some(es[j].0@), p.drop_first()), comma_at(es[j].1, cj, p.drop_first()))
                + post_lines(es[j].1, b2, Some(es[j].0@), cj, p.drop_first())
        }),
    ensures
        emit_lines(a, base, k, c) == pre_lines(a, base, k, c, p) + emit_lines(
            get_spec(a, p).unwrap(),
            base + p,
            sub_key(k, p),
            comma_at(a, c, p),
        ) + post_lines(a, base, k, c, p),
{
    let es = a->entries@;
    let s = p[0]->Field_0;
    let rest = p.drop_first();
    lemma_find_key(es, s);
    let j = find_key(es, s).unwrap();
    let kj = es[j].0@;
    let b2 = base.push(KeyV::Field(kj));
    let cj = j + 1 < es.len();
    let child = es[j].1;
    let head = seq![line_spec(prefix_spec(base.len(), k) + seq![seg_spec("{"@, SegColor::Punct)], base)];
    let tail = seq![line_spec(indent_spec(base.len()) + seq![seg_spec("}"@, SegColor::Punct)] + comma_spec(c), base)];
    lemma_obj_lines_split(es, 0, j, es.len() as int, base);
    lemma_obj_lines_split(es, j, j + 1, es.len() as int, base);
    assert(obj_lines(es, j, j, base) =~= Seq::<LineV>::empty());
    assert(obj_lines(es, j, j + 1, base) =~= emit_lines(child, b2, Some(kj), cj));
    assert(b2 + rest =~= base + p);
    if rest.len() > 0 {
        assert(rest.last() == p.last());
    }
    assert(sub_key(k, p) == sub_key(Some(kj), rest));
    assert(comma_at(a, c, p) == comma_at(child, cj, rest));
    assert(get_spec(a, p) == get_spec(child, rest));
    assert(emit_lines(a, base, k, c) == head + obj_lines(es, 0, es.len() as int, base) + tail);
    assert(pre_lines(a, base, k, c, p) == head + obj_lines(es, 0, j, base) + pre_lines(child, b2, Some(kj), cj, rest));
    assert(post_lines(a, base, k, c, p) == post_lines(child, b2, Some(kj), cj, rest) + obj_lines(es, j + 1, es.len() as int, base) + tail);
    let r = emit_lines(get_spec(child, rest).unwrap(), b2 + rest, sub_key(Some(kj), rest), comma_at(child, cj, rest));
    assert(emit_lines(a, base, k, c) =~= pre_lines(a, base, k, c, p) + r + post_lines(a, base, k, c, p));
}

/// One step of `lemma_emit_decompose` through an array.
#[verifier::spinoff_prover]
#[verifier::rlimit(100)]
pub proof fn lemma_emit_decompose_arr(a: JNode, base: Seq<KeyV>, k: Option<Seq<char>>, c: bool, p: Seq<KeyV>)
    requires
        p.len() > 0,
        get_spec(a, p) is Some,
        a is Array,
        ({
            let its = a->items@;
            let i = p[0]->Index_0;
            let b2 = base.push(KeyV::Index(i));
            let ci = i + 1 < its.len();
            emit_lines(its[i as int], b2, None, ci) == pre_lines(its[i as int], b2, None, ci, p.drop_first())
                + emit_lines(get_spec(its[i as int], p.drop_first()).unwrap(), b2 + p.drop_first(),
                    sub_key(None, p.drop_first()), comma_at(its[i as int], ci, p.drop_first()))
                + post_lines(its[i as int], b2, None, ci, p.drop_first())
        }),
    ensures
        emit_lines(a, base, k, c) == pre_lines(a, base, k, c, p) + emit_lines(
            get_spec(a, p).unwrap(),
            base + p,
            sub_key(k, p),
            comma_at(a, c, p),
        ) + post_lines(a, base, k, c, p),
{
    let its = a->items@;
    let i = p[0]->Index_0;
    let rest = p.drop_first();
    let b2 = base.push(KeyV::Index(i));
    let ci = i + 1 < its.len();
    let child = its[i as int];
    let head = seq![line_spec(prefix_spec(base.len(), k) + seq![seg_spec("["@, SegColor::Punct)], base)];
    let tail = seq![line_spec(indent_spec(base.len()) + seq![seg_spec("]"@, SegColor::Punct)] + comma_spec(c), base)];
    lemma_arr_lines_split(its, 0, i as int, its.len() as int, base);
    lemma_arr_lines_split(its, i as int, i + 1, its.len() as int, base);
    assert(arr_lines(its, i as int, i as int, base) =~= Seq::<LineV>::empty());
    assert(arr_lines(its, i as int, i + 1, base) =~= emit_lines(child, b2, None, ci));
    assert(b2 + rest =~= base + p);
    if rest.len() > 0 {
        assert(rest.last() == p.last());
    }
    assert(sub_key(k, p) == sub_key(None, rest));
    assert(comma_at(a, c, p) == comma_at(child, ci, rest));
    assert(get_spec(a, p) == get_spec(child, rest));
    lemma_arr_unfold(a, base, k, c, p);
    let r = emit_lines(get_spec(child, rest).unwrap(), b2 + rest, sub_key(None, rest), comma_at(child, ci, rest));
    assert(emit_lines(a, base, k, c) =~= pre_lines(a, base, k, c, p) + r + post_lines(a, base, k, c, p));
}

proof fn lemma_arr_unfold(a: JNode, base: Seq<KeyV>, k: Option<Seq<char>>, c: bool, p: Seq<KeyV>)
    requires
        p.len() > 0,
        get_spec(a, p) is Some,
        a is Array,
    ensures
        ({
            let its = a->items@;
            let i = p[0]->Index_0;
            let rest = p.drop_first();
            let b2 = base.push(KeyV::Index(i));
            let ci = i + 1 < its.len();
            let head = seq![line_spec(prefix_spec(base.len(), k) + seq![seg_spec("["@, SegColor::Punct)], base)];
            let tail = seq![line_spec(indent_spec(base.len()) + seq![seg_spec("]"@, SegColor::Punct)] + comma_spec(c), base)];
            &&& emit_lines(a, base, k, c) == head + arr_lines(its, 0, its.len() as int, base) + tail
            &&& pre_lines(a, base, k, c, p) == head + arr_lines(its, 0, i as int, base) + pre_lines(its[i as int], b2, None, ci, rest)
            &&& post_lines(a, base, k, c, p) == post_lines(its[i as int], b2, None, ci, rest) + arr_lines(its, i + 1, its.len() as int, base) + tail
        }),
{
}

/// Two documents that agree off the path to `p` print the same lines around the block of
/// `p`, and print that block with the same trailing comma.
pub proof fn lemma_emit_same_except_parts(a: JNode, b: JNode, base: Seq<KeyV>, k: Option<Seq<char>>, c: bool, p: Seq<KeyV>)
    requires
        same_except(a, b, p),
        get_spec(a, p) is Some,
    ensures
        get_spec(b, p) is Some,
        pre_lines(a, base, k, c, p) == pre_lines(b, base, k, c, p),
        post_lines(a, base, k, c, p) == post_lines(b, base, k, c, p),
        comma_at(a, c, p) == comma_at(b, c, p),
    decreases p.len(),
{
    if p.len() > 0 {
        let rest = p.drop_first();
        match a {
            JNode::Object { entries: ea, .. } => {
                let eb = b->entries;
                let s = p[0]->Field_0;
                lemma_find_key(ea@, s);
                let j = find_key(ea@, s).unwrap();
                assert forall|m: int| 0 <= m < ea@.len() implies ea@[m].0@ == eb@[m].0@ by {
                    if m != j {
                        assert(ea@[m] == eb@[m]);
                    }
                }
                lemma_find_key_congruent(ea@, eb@, s, 0);
                let b2 = base.push(KeyV::Field(ea@[j].0@));
                lemma_emit_same_except_parts(ea@[j].1, eb@[j].1, b2, Some(ea@[j].0@), j + 1 < ea@.len(), rest);
                lemma_obj_lines_congruent(ea@, eb@, 0, j, base);
                lemma_obj_lines_congruent(ea@, eb@, j + 1, ea@.len() as int, base);
            },
            JNode::Array { items: ia, .. } => {
                let ib = b->items;
                let i = p[0]->Index_0;
                let b2 = base.push(KeyV::Index(i));
                lemma_emit_same_except_parts(ia@[i as int], ib@[i as int], b2, None, i + 1 < ia@.len(), rest);
                lemma_arr_lines_congruent(ia@, ib@, 0, i as int, base);
                lemma_arr_lines_congruent(ia@, ib@, i + 1, ia@.len() as int, base);
            },
            JNode::Scalar(_) => {},
        }
    }
}

/// No line before or after the block of `p` lies at or below `base + p`.
pub proof fn lemma_emit_parts_avoid(a: JNode, base: Seq<KeyV>, k: Option<Seq<char>>, c: bool, p: Seq<KeyV>)
    requires
        get_spec(a, p) is Some,
        wf_along(a, p),
    ensures
        avoid_lines(pre_lines(a, base, k, c, p), base + p),
        avoid_lines(post_lines(a, base, k, c, p), base + p),
    decreases p.len(),
{
    let t = base + p;
    if p.len() == 0 {
        assert(pre_lines(a, base, k, c, p) =~= Seq::<LineV>::empty());
        assert(post_lines(a, base, k, c, p) =~= Seq::<LineV>::empty());
    } else {
        let rest = p.drop_first();
        let head = seq![line_spec(prefix_spec(base.len(), k) + seq![seg_spec(open_text(a), SegColor::Punct)], base)];
        let tail = seq![line_spec(indent_spec(base.len()) + seq![seg_spec(close_text(a), SegColor::Punct)] + comma_spec(c), base)];
        assert(avoid_lines(head, t));
        assert(avoid_lines(tail, t));
        assert(t[base.len() as int] == p[0]);
        match a {
            JNode::Object { entries, .. } => {
                let es = entries@;
                let s = p[0]->Field_0;
                lemma_find_key(es, s);
                let j = find_key(es, s).unwrap();
                let kj = es[j].0@;
                let b2 = base.push(KeyV::Field(kj));
                let cj = j + 1 < es.len();
                assert(b2 + rest =~= t);
                lemma_emit_parts_avoid(es[j].1, b2, Some(kj), cj, rest);
                lemma_obj_lines_avoid(es, 0, j, base, t);
                lemma_obj_lines_avoid(es, j + 1, es.len() as int, base, t);
                lemma_avoid_lines_concat(head, obj_lines(es, 0, j, base), t);
                lemma_avoid_lines_concat(head + obj_lines(es, 0, j, base), pre_lines(es[j].1, b2, Some(kj), cj, rest), t);
                lemma_avoid_lines_concat(post_lines(es[j].1, b2, Some(kj), cj, rest), obj_lines(es, j + 1, es.len() as int, base), t);
                lemma_avoid_lines_concat(post_lines(es[j].1, b2, Some(kj), cj, rest) + obj_lines(es, j + 1, es.len() as int, base), tail, t);
            },
            JNode::Array { items, .. } => {
                let its = items@;
                let i = p[0]->Index_0;
                let b2 = base.push(KeyV::Index(i));
                let ci = i + 1 < its.len();
                assert(b2 + rest =~= t);
                lemma_emit_parts_avoid(its[i as int], b2, None, ci, rest);
                lemma_arr_lines_avoid(its, 0, i as int, base, t);
                lemma_arr_lines_avoid(its, i + 1, its.len() as int, base, t);
                lemma_avoid_lines_concat(head, arr_lines(its, 0, i as int, base), t);
                lemma_avoid_lines_concat(head + arr_lines(its, 0, i as int, base), pre_lines(its[i as int], b2, None, ci, rest), t);
                lemma_avoid_lines_concat(post_lines(its[i as int], b2, None, ci, rest), arr_lines(its, i + 1, its.len() as int, base), t);
                lemma_avoid_lines_concat(post_lines(its[i as int], b2, None, ci, rest) + arr_lines(its, i + 1, its.len() as int, base), tail, t);
            },
            JNode::Scalar(_) => {},
        }
    }
}

/// The last line printed for a node ends with a comma exactly when it was asked for one.
pub proof fn lemma_last_line_comma(n: JNode, base: Seq<KeyV>, k: Option<Seq<char>>, c: bool)
    ensures
        emit_lines(n, base, k, c).len() > 0,
        ends_with_comma(emit_lines(n, base, k, c).last()) == c,
{
    reveal_strlit(",");
    reveal_strlit("}");
    reveal_strlit("]");
    reveal_strlit("{}");
    reveal_strlit("[]");
    let ls = emit_lines(n, base, k, c);
    let pre = prefix_spec(base.len(), k);
    let segs = ls.last().segs;
    let body: SegV = match n {
        JNode::Scalar(s) => scalar_seg_spec(s),
        JNode::Object { entries, .. } => if entries@.len() == 0 {
            seg_spec("{}"@, SegColor::Punct)
        } else {
            seg_spec("}"@, SegColor::Punct)
        },
        JNode::Array { items, .. } => if items@.len() == 0 {
            seg_spec("[]"@, SegColor::Punct)
        } else {
            seg_spec("]"@, SegColor::Punct)
        },
    };
    let lead = match n {
        JNode::Object { entries, .. } => if entries@.len() == 0 { pre } else { indent_spec(base.len()) },
        JNode::Array { items, .. } => if items@.len() == 0 { pre } else { indent_spec(base.len()) },
        JNode::Scalar(_) => pre,
    };
    assert(segs == lead + seq![body] + comma_spec(c));
    if c {
        assert(segs.last() == seg_spec(","@, SegColor::Punct));
    } else {
        assert(segs =~= lead.push(body));
        assert(segs.last() == body);
        assert(","@.len() == 1 && ","@[0] == ',');
        assert("}"@[0] == '}' && "]"@[0] == ']');
        assert("{}"@.len() == 2 && "[]"@.len() == 2);
        if body.color == SegColor::Punct {
            assert(body.text[0] != ','  || body.text.len() != 1);
        }
        assert(body.color != SegColor::Punct || body.text != ","@);
    }
}

pub proof fn lemma_first_line(lines: Seq<LineV>, t: Seq<KeyV>, i: int, s: int)
    requires
        0 <= i <= s < lines.len(),
        lines[s].path == t,
        forall|m: int| i <= m < s ==> lines[m].path != t,
    ensures
        first_line_from(lines, t, i) == Some(s),
    decreases s - i,
{
    if i < s {
        lemma_first_line(lines, t, i + 1, s);
    }
}

pub proof fn lemma_line_scan_end(lines: Seq<LineV>, t: Seq<KeyV>, e: int, f: int)
    requires
        0 <= e <= f <= lines.len(),
        forall|m: int| e <= m < f ==> is_prefix(t, #[trigger] lines[m].path),
        f == lines.len() || !is_prefix(t, lines[f].path),
    ensures
        line_scan_end(lines, t, e) == f,
    decreases f - e,
{
    if e < f {
        lemma_line_scan_end(lines, t, e + 1, f);
    }
}

/// Patching the annotated listing of the old document for `target` gives exactly the
/// annotated listing of the new document, whenever the two documents differ only at or below
/// `target`, `target` exists in the old one and the containers on the way to it are well
/// formed. The block for `target` starts with `target`'s own first line.
pub proof fn law_patch_annotated_matches_annotate(old_root: JNode, new_root: JNode, target: Seq<KeyV>)
    requires
        same_except(old_root, new_root, target),
        get_spec(old_root, target) is Some,
        wf_along(old_root, target),
    ensures
        annot_patch(annotate_spec(old_root), new_root, target) matches Some((s, n, lines)) && lines == annotate_spec(new_root)
            && 0 <= s < lines.len() && lines[s].path == target,
{
    let e: Seq<KeyV> = Seq::empty();
    assert(e + target =~= target);
    lemma_emit_decompose(old_root, e, None, false, target);
    lemma_emit_same_except_parts(old_root, new_root, e, None, false, target);
    lemma_emit_decompose(new_root, e, None, false, target);
    lemma_emit_parts_avoid(old_root, e, None, false, target);
    let pre = pre_lines(old_root, e, None, false, target);
    let post = post_lines(old_root, e, None, false, target);
    let so = get_spec(old_root, target).unwrap();
    let sn = get_spec(new_root, target).unwrap();
    let cm = comma_at(old_root, false, target);
    let ro = emit_lines(so, target, ident_key(target), cm);
    let rn = emit_lines(sn, target, ident_key(target), cm);
    let old_lines = annotate_spec(old_root);
    assert(old_lines == pre + ro + post);
    assert(annotate_spec(new_root) == pre + rn + post);
    assert(target.subrange(0, target.len() as int) =~= target);
    lemma_last_line_comma(so, target, ident_key(target), cm);
    lemma_last_line_comma(sn, target, ident_key(target), cm);
    assert forall|m: int| 0 <= m < pre.len() implies old_lines[m].path != target by {
        assert(old_lines[m] == pre[m]);
        assert(!is_prefix(target, pre[m].path));
    }
    lemma_lines_prefix(so, target, ident_key(target), cm);
    assert(old_lines[pre.len() as int] == ro[0]);
    lemma_first_line(old_lines, target, 0, pre.len() as int);
    let f: int = (pre.len() + ro.len()) as int;
    assert forall|m: int| pre.len() + 1 <= m < f implies is_prefix(target, #[trigger] old_lines[m].path) by {
        assert(old_lines[m] == ro[m - pre.len()]);
    }
    if f < old_lines.len() {
        assert(old_lines[f] == post[0]);
    }
    lemma_line_scan_end(old_lines, target, pre.len() + 1int, f);
    assert(old_lines[f - 1] == ro.last());
    assert(old_lines.subrange(0, pre.len() as int) =~= pre);
    assert(old_lines.subrange(f, old_lines.len() as int) =~= post);
    let lines = annot_patch(old_lines, new_root, target).unwrap().2;
    assert(lines =~= annotate_spec(new_root));
    assert(lines[pre.len() as int] == rn[0]);
}

} // verus!
