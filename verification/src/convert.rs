//! Tabular export and import: a document flattened into rows of named cells, and CSV text.
use vstd::prelude::*;
use crate::json::{
    items_text, json_canonical, json_read_error, json_text, json_text_as, json_tree, json_walks, push_json, read_json_tree, to_json_text, to_json_text_as,
};
use crate::text::{append, chars_of, lit, push_char, trim, trim_spec};
use crate::tree::{JNode, JScalar};

verus! {

// ---------------------------------------------------------------------------
// Rows of named cells
// ---------------------------------------------------------------------------

/// The cells of a row, as (column name, text) pairs.
pub open spec fn cells_of(r: Seq<(String, String)>) -> Seq<(Seq<char>, Seq<char>)> {
    Seq::new(r.len(), |i: int| (r[i].0@, r[i].1@))
}

/// The cells of each row.
pub open spec fn rows_of(rs: Seq<Vec<(String, String)>>) -> Seq<Seq<(Seq<char>, Seq<char>)>> {
    Seq::new(rs.len(), |i: int| cells_of(rs[i]@))
}

/// Position of the first cell named `k` at or after `i`.
pub open spec fn cell_index_from(r: Seq<(Seq<char>, Seq<char>)>, k: Seq<char>, i: int) -> Option<int>
    decreases r.len() - i,
{
    if i < 0 || i >= r.len() {
        None
    } else if r[i].0 == k {
        Some(i)
    } else {
        cell_index_from(r, k, i + 1)
    }
}

/// Setting column `k` to `v`: an existing column keeps its place and takes the new text, a
/// new one goes at the end.
pub open spec fn cell_insert(r: Seq<(Seq<char>, Seq<char>)>, k: Seq<char>, v: Seq<char>) -> Seq<(Seq<char>, Seq<char>)> {
    match cell_index_from(r, k, 0) {
        Some(i) => r.update(i, (k, v)),
        None => r.push((k, v)),
    }
}

/// The cells of `b` set one after the other on `a`.
pub open spec fn cells_extend(a: Seq<(Seq<char>, Seq<char>)>, b: Seq<(Seq<char>, Seq<char>)>) -> Seq<(Seq<char>, Seq<char>)>
    decreases b.len(),
{
    if b.len() == 0 {
        a
    } else {
        cell_insert(cells_extend(a, b.drop_last()), b.last().0, b.last().1)
    }
}

/// The text of column `k`, empty where the row has no such column.
pub open spec fn cell_lookup(r: Seq<(Seq<char>, Seq<char>)>, k: Seq<char>) -> Seq<char> {
    match cell_index_from(r, k, 0) {
        Some(i) => r[i].1,
        None => Seq::empty(),
    }
}

proof fn lemma_cells_push(r: Seq<(String, String)>, x: (String, String))
    ensures
        cells_of(r.push(x)) == cells_of(r).push((x.0@, x.1@)),
{
    assert(cells_of(r.push(x)) =~= cells_of(r).push((x.0@, x.1@)));
}

proof fn lemma_rows_push(rs: Seq<Vec<(String, String)>>, x: Vec<(String, String)>)
    ensures
        rows_of(rs.push(x)) == rows_of(rs).push(cells_of(x@)),
{
    assert(rows_of(rs.push(x)) =~= rows_of(rs).push(cells_of(x@)));
}

fn find_cell(row: &Vec<(String, String)>, k: &String) -> (r: Option<usize>)
    ensures
        match r {
            Some(i) => i < row@.len() && cell_index_from(cells_of(row@), k@, 0) == Some(i as int),
            None => cell_index_from(cells_of(row@), k@, 0) is None,
        },
{
    let mut i: usize = 0;
    while i < row.len()
        invariant
            i <= row@.len(),
            cell_index_from(cells_of(row@), k@, 0) == cell_index_from(cells_of(row@), k@, i as int),
        decreases row@.len() - i,
    {
        if row[i].0 == *k {
            return Some(i);
        }
        i = i + 1;
    }
    None
}

/// Sets column `k` of the row to `v`.
pub fn row_insert(row: &mut Vec<(String, String)>, k: String, v: String)
    ensures
        cells_of(final(row)@) == cell_insert(cells_of(old(row)@), k@, v@),
{
    let ghost kv = k@;
    let ghost vv = v@;
    match find_cell(row, &k) {
        Some(i) => {
            row.set(i, (k, v));
            assert(cells_of(row@) =~= cells_of(old(row)@).update(i as int, (kv, vv)));
        },
        None => {
            row.push((k, v));
            assert(cells_of(row@) =~= cells_of(old(row)@).push((kv, vv)));
        },
    }
}

/// Sets every column of `other` on the row, in order.
pub fn row_extend(row: &mut Vec<(String, String)>, other: &Vec<(String, String)>)
    ensures
        cells_of(final(row)@) == cells_extend(cells_of(old(row)@), cells_of(other@)),
{
    let ghost start = cells_of(row@);
    let mut j: usize = 0;
    while j < other.len()
        invariant
            j <= other@.len(),
            cells_of(row@) == cells_extend(start, cells_of(other@).take(j as int)),
        decreases other@.len() - j,
    {
        let k = other[j].0.clone();
        let v = other[j].1.clone();
        row_insert(row, k, v);
        proof {
            let t = cells_of(other@).take(j + 1);
            assert(t.drop_last() =~= cells_of(other@).take(j as int));
            assert(t.last() == cells_of(other@)[j as int]);
        }
        j = j + 1;
    }
    assert(cells_of(other@).take(other@.len() as int) =~= cells_of(other@));
}

fn clone_row(row: &Vec<(String, String)>) -> (r: Vec<(String, String)>)
    ensures
        cells_of(r@) == cells_of(row@),
{
    let mut r: Vec<(String, String)> = Vec::new();
    let mut i: usize = 0;
    while i < row.len()
        invariant
            i <= row@.len(),
            cells_of(r@) == cells_of(row@).take(i as int),
        decreases row@.len() - i,
    {
        let a = row[i].0.clone();
        let b = row[i].1.clone();
        let ghost prev = r@;
        r.push((a, b));
        proof {
            lemma_cells_push(prev, row@[i as int]);
        }
        assert(cells_of(r@) =~= cells_of(row@).take(i + 1));
        i = i + 1;
    }
    assert(cells_of(row@).take(row@.len() as int) =~= cells_of(row@));
    r
}

// ---------------------------------------------------------------------------
// Flattening
// ---------------------------------------------------------------------------

/// The text of a value in one cell: a string as itself, null as nothing, anything else as
/// its compact JSON text.
pub open spec fn scalar_cell(n: JNode) -> Seq<char> {
    match n {
        JNode::Scalar(JScalar::String(s)) => s@,
        JNode::Scalar(JScalar::Null) => Seq::empty(),
        _ => json_text(n),
    }
}

pub open spec fn all_scalars(items: Seq<JNode>) -> bool {
    forall|i: int| 0 <= i < items.len() ==> items[i] is Scalar
}

pub open spec fn all_objects(items: Seq<JNode>) -> bool {
    forall|i: int| 0 <= i < items.len() ==> items[i] is Object
}

/// The cells of the first `n` items, joined by `;`.
pub open spec fn joined_cells(items: Seq<JNode>, n: int) -> Seq<char>
    decreases n,
{
    if n <= 0 {
        Seq::empty()
    } else if n == 1 {
        scalar_cell(items[0])
    } else {
        joined_cells(items, n - 1) + seq![';'] + scalar_cell(items[n - 1])
    }
}

/// An array in one cell: scalars joined by `;`, or the compact JSON text of the array when
/// it holds a container.
pub open spec fn array_cell(items: Seq<JNode>) -> Seq<char> {
    if all_scalars(items) {
        joined_cells(items, items.len() as int)
    } else {
        seq!['['] + items_text(items, items.len() as int) + seq![']']
    }
}

/// Column name of a field below `prefix`: dotted, or the field's name at the top.
pub open spec fn full_key(prefix: Seq<char>, k: Seq<char>) -> Seq<char> {
    if prefix.len() == 0 { k } else { prefix + seq!['.'] + k }
}

/// The rows of a value. A non-object makes one row with one cell, named `prefix` (or
/// `value` at the top). An object makes one row of its scalar fields and flattened
/// sub-objects; where exploding is allowed, its first non-empty array of objects instead
/// makes one row per row of each of its items, each beginning with the object's own cells.
pub open spec fn flat_rows(n: JNode, prefix: Seq<char>, explode: bool) -> Seq<Seq<(Seq<char>, Seq<char>)>>
    decreases n, 0int,
{
    match n {
        JNode::Object { entries, .. } => obj_rows(entries@, prefix, explode),
        _ => seq![seq![(if prefix.len() == 0 { "value"@ } else { prefix }, scalar_cell(n))]],
    }
}

/// The base row of an object's first `n` entries, with the index of the entry chosen to
/// explode, if any.
pub open spec fn obj_scan(es: Seq<(String, JNode)>, n: int, prefix: Seq<char>, explode: bool)
    -> (Seq<(Seq<char>, Seq<char>)>, Option<int>)
    decreases es, n,
{
    if n <= 0 || n > es.len() {
        (Seq::empty(), None)
    } else {
        let st = obj_scan(es, n - 1, prefix, explode);
        let full = full_key(prefix, es[n - 1].0@);
        let v = es[n - 1].1;
        match v {
            JNode::Scalar(JScalar::Null) => (cell_insert(st.0, full, Seq::empty()), st.1),
            JNode::Scalar(JScalar::String(s)) => (cell_insert(st.0, full, s@), st.1),
            JNode::Scalar(_) => (cell_insert(st.0, full, json_text(v)), st.1),
            JNode::Object { .. } => {
                let sub = flat_rows(v, full, false);
                (if sub.len() > 0 { cells_extend(st.0, sub[0]) } else { st.0 }, st.1)
            },
            JNode::Array { items, .. } => if explode && st.1 is None && items@.len() > 0 && all_objects(items@) {
                (st.0, Some(n - 1))
            } else {
                (cell_insert(st.0, full, array_cell(items@)), st.1)
            },
        }
    }
}

/// Number of items of an array; zero for anything else.
pub open spec fn child_count(n: JNode) -> int {
    match n {
        JNode::Array { items, .. } => items@.len() as int,
        _ => 0,
    }
}

/// The rows of an object's entries.
pub open spec fn obj_rows(es: Seq<(String, JNode)>, prefix: Seq<char>, explode: bool) -> Seq<Seq<(Seq<char>, Seq<char>)>>
    decreases es, es.len() + 1,
{
    let st = obj_scan(es, es.len() as int, prefix, explode);
    match st.1 {
        Some(i) => if 0 <= i < es.len() {
            explode_rows(st.0, es[i].1, full_key(prefix, es[i].0@), child_count(es[i].1))
        } else {
            seq![st.0]
        },
        None => seq![st.0],
    }
}

/// `base` extended by each of `sub`.
pub open spec fn extended_rows(base: Seq<(Seq<char>, Seq<char>)>, sub: Seq<Seq<(Seq<char>, Seq<char>)>>) -> Seq<Seq<(Seq<char>, Seq<char>)>> {
    Seq::new(sub.len(), |j: int| cells_extend(base, sub[j]))
}

/// The rows made from the first `m` items of an exploded array.
pub open spec fn explode_rows(base: Seq<(Seq<char>, Seq<char>)>, arr: JNode, key: Seq<char>, m: int) -> Seq<Seq<(Seq<char>, Seq<char>)>>
    decreases arr, m,
{
    match arr {
        JNode::Array { items, .. } => if m <= 0 || m > items@.len() {
            Seq::empty()
        } else {
            explode_rows(base, arr, key, m - 1) + extended_rows(base, flat_rows(items@[m - 1], key, false))
        },
        _ => Seq::empty(),
    }
}

fn scalar_cell_text(n: &JNode) -> (s: String)
    ensures
        s@ == scalar_cell(*n),
{
    match n {
        JNode::Scalar(JScalar::String(s)) => s.clone(),
        JNode::Scalar(JScalar::Null) => String::new(),
        _ => to_json_text(n),
    }
}

fn all_scalars_exec(items: &Vec<JNode>) -> (r: bool)
    ensures
        r == all_scalars(items@),
{
    let mut i: usize = 0;
    while i < items.len()
        invariant
            i <= items@.len(),
            forall|m: int| 0 <= m < i ==> items@[m] is Scalar,
        decreases items@.len() - i,
    {
        match &items[i] {
            JNode::Scalar(_) => {},
            _ => return false,
        }
        i = i + 1;
    }
    true
}

fn all_objects_exec(items: &Vec<JNode>) -> (r: bool)
    ensures
        r == all_objects(items@),
{
    let mut i: usize = 0;
    while i < items.len()
        invariant
            i <= items@.len(),
            forall|m: int| 0 <= m < i ==> items@[m] is Object,
        decreases items@.len() - i,
    {
        match &items[i] {
            JNode::Object { .. } => {},
            _ => return false,
        }
        i = i + 1;
    }
    true
}

/// The text of an array in one cell.
pub fn array_cell_text(items: &Vec<JNode>) -> (s: String)
    ensures
        s@ == array_cell(items@),
{
    let mut s = String::new();
    if all_scalars_exec(items) {
        let mut i: usize = 0;
        while i < items.len()
            invariant
                i <= items@.len(),
                s@ == joined_cells(items@, i as int),
            decreases items@.len() - i,
        {
            if i > 0 {
                push_char(&mut s, ';');
            }
            let c = scalar_cell_text(&items[i]);
            append(&mut s, c.as_str());
            i = i + 1;
        }
    } else {
        push_char(&mut s, '[');
        let ghost start = s@;
        let mut i: usize = 0;
        while i < items.len()
            invariant
                i <= items@.len(),
                start == seq!['['],
                s@ == start + items_text(items@, i as int),
            decreases items@.len() - i,
        {
            if i > 0 {
                push_char(&mut s, ',');
            }
            push_json(&mut s, &items[i]);
            i = i + 1;
        }
        push_char(&mut s, ']');
    }
    s
}

fn full_key_text(prefix: &str, k: &String) -> (s: String)
    ensures
        s@ == full_key(prefix@, k@),
{
    if prefix.is_empty() {
        k.clone()
    } else {
        let mut s = lit(prefix);
        push_char(&mut s, '.');
        append(&mut s, k.as_str());
        s
    }
}

/// The rows of `value` below the column prefix `prefix` (see `flat_rows`).
pub fn flatten_to_rows(value: &JNode, prefix: &str, allow_explode: bool) -> (rows: Vec<Vec<(String, String)>>)
    ensures
        rows_of(rows@) == flat_rows(*value, prefix@, allow_explode),
    decreases value,
{
    match value {
        JNode::Object { entries, collapsed } => {
            let mut base: Vec<(String, String)> = Vec::new();
            let mut explode: Option<usize> = None;
            let mut i: usize = 0;
            while i < entries.len()
                invariant
                    *value == (JNode::Object { entries: *entries, collapsed: *collapsed }),
                    i <= entries@.len(),
                    obj_scan(entries@, i as int, prefix@, allow_explode) == (cells_of(base@), match explode {
                        Some(j) => Some(j as int),
                        None => None::<int>,
                    }),
                    explode matches Some(j) ==> j < i,
                decreases entries@.len() - i,
            {
                let full = full_key_text(prefix, &entries[i].0);
                match &entries[i].1 {
                    JNode::Scalar(JScalar::Null) => row_insert(&mut base, full, String::new()),
                    JNode::Scalar(JScalar::String(s)) => row_insert(&mut base, full, s.clone()),
                    JNode::Scalar(_) => {
                        let t = to_json_text(&entries[i].1);
                        row_insert(&mut base, full, t);
                    },
                    JNode::Object { .. } => {
                        proof {
                            assert(decreases_to!(*value => value->entries));
                            assert(decreases_to!(*entries => entries@));
                            assert(decreases_to!(entries@ => entries@[i as int]));
                            assert(decreases_to!(entries@[i as int] => entries@[i as int].1));
                        }
                        let sub = flatten_to_rows(&entries[i].1, full.as_str(), false);
                        if sub.len() > 0 {
                            row_extend(&mut base, &sub[0]);
                        }
                    },
                    JNode::Array { items, .. } => {
                        if allow_explode && explode.is_none() && items.len() > 0 && all_objects_exec(items) {
                            explode = Some(i);
                        } else {
                            let t = array_cell_text(items);
                            row_insert(&mut base, full, t);
                        }
                    },
                }
                i = i + 1;
            }
            match explode {
                Some(j) => {
                    let key = full_key_text(prefix, &entries[j].0);
                    let mut result: Vec<Vec<(String, String)>> = Vec::new();
                    let arr = &entries[j].1;
                    match arr {
                        JNode::Array { items, collapsed: ac } => {
                            let mut m: usize = 0;
                            while m < items.len()
                                invariant
                                    *value == (JNode::Object { entries: *entries, collapsed: *collapsed }),
                                    j < entries@.len(),
                                    *arr == entries@[j as int].1,
                                    *arr == (JNode::Array { items: *items, collapsed: *ac }),
                                    m <= items@.len(),
                                    rows_of(result@) == explode_rows(cells_of(base@), *arr, key@, m as int),
                                decreases items@.len() - m,
                            {
                                proof {
                                    assert(decreases_to!(*value => value->entries));
                                    assert(decreases_to!(*entries => entries@));
                                    assert(decreases_to!(entries@ => entries@[j as int]));
                                    assert(decreases_to!(entries@[j as int] => entries@[j as int].1));
                                    assert(decreases_to!(*arr => arr->items));
                                    assert(decreases_to!(*items => items@));
                                    assert(decreases_to!(items@ => items@[m as int]));
                                }
                                let sub = flatten_to_rows(&items[m], key.as_str(), false);
                                let ghost before = rows_of(result@);
                                let mut t: usize = 0;
                                while t < sub.len()
                                    invariant
                                        t <= sub@.len(),
                                        rows_of(result@) == before + extended_rows(cells_of(base@), rows_of(sub@)).take(t as int),
                                    decreases sub@.len() - t,
                                {
                                    let mut row = clone_row(&base);
                                    row_extend(&mut row, &sub[t]);
                                    let ghost rc = cells_of(row@);
                                    assert(rc == extended_rows(cells_of(base@), rows_of(sub@))[t as int]);
                                    let ghost prev = result@;
                                    result.push(row);
                                    proof {
                                        lemma_rows_push(prev, result@.last());
                                    }
                                    assert(rows_of(result@) =~= before + extended_rows(cells_of(base@), rows_of(sub@)).take(t + 1));
                                    t = t + 1;
                                }
                                assert(extended_rows(cells_of(base@), rows_of(sub@)).take(sub@.len() as int)
                                    =~= extended_rows(cells_of(base@), rows_of(sub@)));
                                m = m + 1;
                            }
                        },
                        _ => {},
                    }
                    result
                },
                None => {
                    let mut result: Vec<Vec<(String, String)>> = Vec::new();
                    result.push(base);
                    assert(rows_of(result@) =~= seq![cells_of(base@)]);
                    result
                },
            }
        },
        _ => {
            let name = if prefix.is_empty() { lit("value") } else { lit(prefix) };
            let mut row: Vec<(String, String)> = Vec::new();
            row.push((name, scalar_cell_text(value)));
            let mut result: Vec<Vec<(String, String)>> = Vec::new();
            result.push(row);
            assert(cells_of(row@) =~= seq![(if prefix@.len() == 0 { "value"@ } else { prefix@ }, scalar_cell(*value))]);
            assert(rows_of(result@) =~= seq![cells_of(row@)]);
            result
        },
    }
}

// ---------------------------------------------------------------------------
// CSV out
// ---------------------------------------------------------------------------

/// Why a conversion could not be done.
#[derive(Debug, Clone, PartialEq)]
pub enum ConvertError {
    /// The requested output format is not one of json, yaml, toml, csv, jsonl; carries its
    /// name.
    UnsupportedFormat(String),
    /// CSV export of a document whose root is neither an object nor an array.
    NotTabular,
    /// TOML export of a document that holds a null.
    NullInToml,
    /// The CSV reader or writer failed; carries its message.
    Csv(String),
    /// The JSON, YAML or TOML writer failed; carries its message.
    Serialize(String),
    /// The text does not read as JSON; carries the reader's message.
    Json(String),
    /// The text does not read as YAML; carries the reader's message.
    Yaml(String),
    /// The text does not read as TOML; carries the reader's message.
    Toml(String),
    /// The value read could not be walked into a document.
    Unwalkable,
}

/// The message shown for an error.
pub open spec fn error_message(e: ConvertError) -> Seq<char> {
    match e {
        ConvertError::UnsupportedFormat(f) => "unsupported format: "@ + f@ + " (supported: json, yaml, toml, csv, jsonl)"@,
        ConvertError::NotTabular => "CSV export requires a JSON object or array at root"@,
        ConvertError::NullInToml => "TOML does not support null values"@,
        ConvertError::Csv(m) => m@,
        ConvertError::Serialize(m) => m@,
        ConvertError::Json(m) => "invalid JSON: "@ + m@,
        ConvertError::Yaml(m) => "invalid YAML: "@ + m@,
        ConvertError::Toml(m) => "invalid TOML: "@ + m@,
        ConvertError::Unwalkable => "the document could not be read"@,
    }
}

impl ConvertError {
    /// The message shown for this error.
    pub fn message(&self) -> (m: String)
        ensures
            m@ == error_message(*self),
    {
        match self {
            ConvertError::UnsupportedFormat(f) => {
                let mut m = lit("unsupported format: ");
                append(&mut m, f.as_str());
                append(&mut m, " (supported: json, yaml, toml, csv, jsonl)");
                m
            },
            ConvertError::NotTabular => lit("CSV export requires a JSON object or array at root"),
            ConvertError::NullInToml => lit("TOML does not support null values"),
            ConvertError::Csv(m) => m.clone(),
            ConvertError::Serialize(m) => m.clone(),
            ConvertError::Json(m) => {
                let mut t = lit("invalid JSON: ");
                append(&mut t, m.as_str());
                t
            },
            ConvertError::Yaml(m) => {
                let mut t = lit("invalid YAML: ");
                append(&mut t, m.as_str());
                t
            },
            ConvertError::Toml(m) => {
                let mut t = lit("invalid TOML: ");
                append(&mut t, m.as_str());
                t
            },
            ConvertError::Unwalkable => lit("the document could not be read"),
        }
    }
}

/// The rows of the first `n` roots, each flattened with exploding allowed.
pub open spec fn roots_rows(items: Seq<JNode>, n: int) -> Seq<Seq<(Seq<char>, Seq<char>)>>
    decreases n,
{
    if n <= 0 {
        Seq::empty()
    } else {
        roots_rows(items, n - 1) + flat_rows(items[n - 1], Seq::empty(), true)
    }
}

/// The rows a document exports as: one root per array item, or the object itself;
/// `None` for a scalar.
pub open spec fn export_rows(value: JNode) -> Option<Seq<Seq<(Seq<char>, Seq<char>)>>> {
    match value {
        JNode::Array { items, .. } => Some(roots_rows(items@, items@.len() as int)),
        JNode::Object { .. } => Some(flat_rows(value, Seq::empty(), true)),
        JNode::Scalar(_) => None,
    }
}

/// `hs` with the column names of the first `n` cells of `row` that it lacks, in order.
pub open spec fn add_headers(hs: Seq<Seq<char>>, row: Seq<(Seq<char>, Seq<char>)>, n: int) -> Seq<Seq<char>>
    decreases n,
{
    if n <= 0 {
        hs
    } else {
        let h = add_headers(hs, row, n - 1);
        if h.contains(row[n - 1].0) { h } else { h.push(row[n - 1].0) }
    }
}

/// Column names of the first `n` rows, in the order they are first seen.
pub open spec fn headers_of(rows: Seq<Seq<(Seq<char>, Seq<char>)>>, n: int) -> Seq<Seq<char>>
    decreases n,
{
    if n <= 0 {
        Seq::empty()
    } else {
        add_headers(headers_of(rows, n - 1), rows[n - 1], rows[n - 1].len() as int)
    }
}

/// The CSV records of a table: the header record, then each row's texts under the headers.
pub open spec fn csv_table(rows: Seq<Seq<(Seq<char>, Seq<char>)>>) -> Seq<Seq<Seq<char>>> {
    let hs = headers_of(rows, rows.len() as int);
    seq![hs] + Seq::new(rows.len(), |i: int| Seq::new(hs.len(), |j: int| cell_lookup(rows[i], hs[j])))
}

/// The texts of a list of strings.
pub open spec fn texts_of(v: Seq<String>) -> Seq<Seq<char>> {
    Seq::new(v.len(), |i: int| v[i]@)
}

/// The texts of each record.
pub open spec fn records_of(v: Seq<Vec<String>>) -> Seq<Seq<Seq<char>>> {
    Seq::new(v.len(), |i: int| texts_of(v[i]@))
}

proof fn lemma_texts_push(v: Seq<String>, x: String)
    ensures
        texts_of(v.push(x)) == texts_of(v).push(x@),
{
    assert(texts_of(v.push(x)) =~= texts_of(v).push(x@));
}

proof fn lemma_records_push(v: Seq<Vec<String>>, x: Vec<String>)
    ensures
        records_of(v.push(x)) == records_of(v).push(texts_of(x@)),
{
    assert(records_of(v.push(x)) =~= records_of(v).push(texts_of(x@)));
}

/// What `csv::Writer` (default settings, writing into memory) produces for these records,
/// read back as UTF-8: the text, or the message of the error met.
pub uninterp spec fn csv_written(records: Seq<Seq<Seq<char>>>) -> Result<Seq<char>, Seq<char>>;

/// Writes each record with `csv::Writer::write_record` into a `Vec<u8>`, takes the bytes
/// back with `into_inner` and reads them with `String::from_utf8`; an error becomes its
/// message. The result is named by the records alone.
#[verifier::external_body]
fn write_csv(records: &Vec<Vec<String>>) -> (r: Result<String, String>)
    ensures
        match r {
            Ok(s) => csv_written(records_of(records@)) == Ok::<Seq<char>, Seq<char>>(s@),
            Err(e) => csv_written(records_of(records@)) == Err::<Seq<char>, Seq<char>>(e@),
        },
{
    let mut wtr = csv::Writer::from_writer(Vec::new());
    for rec in records {
        wtr.write_record(rec).map_err(|e| e.to_string())?;
    }
    let bytes = wtr.into_inner().map_err(|e| e.to_string())?;
    String::from_utf8(bytes).map_err(|e| e.to_string())
}

fn contains_text(hs: &Vec<String>, k: &String) -> (r: bool)
    ensures
        r == texts_of(hs@).contains(k@),
{
    let mut i: usize = 0;
    while i < hs.len()
        invariant
            i <= hs@.len(),
            forall|m: int| 0 <= m < i ==> hs@[m]@ != k@,
        decreases hs@.len() - i,
    {
        if hs[i] == *k {
            assert(texts_of(hs@)[i as int] == k@);
            return true;
        }
        i = i + 1;
    }
    proof {
        if texts_of(hs@).contains(k@) {
            let m = choose|m: int| 0 <= m < texts_of(hs@).len() && texts_of(hs@)[m] == k@;
            assert(hs@[m]@ == k@);
        }
    }
    false
}

fn lookup_cell(row: &Vec<(String, String)>, k: &String) -> (s: String)
    ensures
        s@ == cell_lookup(cells_of(row@), k@),
{
    match find_cell(row, k) {
        Some(i) => row[i].1.clone(),
        None => String::new(),
    }
}

/// The record of one row under the headers `hs`.
pub open spec fn row_record(row: Seq<(Seq<char>, Seq<char>)>, hs: Seq<Seq<char>>) -> Seq<Seq<char>> {
    Seq::new(hs.len(), |b: int| cell_lookup(row, hs[b]))
}

fn headers(rows: &Vec<Vec<(String, String)>>) -> (hs: Vec<String>)
    ensures
        texts_of(hs@) == headers_of(rows_of(rows@), rows@.len() as int),
{
    let ghost rv = rows_of(rows@);
    let mut hs: Vec<String> = Vec::new();
    let mut i: usize = 0;
    while i < rows.len()
        invariant
            i <= rows@.len(),
            rv == rows_of(rows@),
            texts_of(hs@) == headers_of(rv, i as int),
        decreases rows@.len() - i,
    {
        let row = &rows[i];
        let ghost h0 = texts_of(hs@);
        let mut c: usize = 0;
        while c < row.len()
            invariant
                i < rows@.len(),
                rv == rows_of(rows@),
                *row == rows@[i as int],
                c <= row@.len(),
                texts_of(hs@) == add_headers(h0, rv[i as int], c as int),
            decreases row@.len() - c,
        {
            if !contains_text(&hs, &row[c].0) {
                let k = row[c].0.clone();
                proof {
                    lemma_texts_push(hs@, k);
                }
                hs.push(k);
            }
            c = c + 1;
        }
        i = i + 1;
    }
    hs
}

fn record_of(row: &Vec<(String, String)>, hs: &Vec<String>) -> (rec: Vec<String>)
    ensures
        texts_of(rec@) == row_record(cells_of(row@), texts_of(hs@)),
{
    let ghost want = row_record(cells_of(row@), texts_of(hs@));
    let mut rec: Vec<String> = Vec::new();
    let mut j: usize = 0;
    while j < hs.len()
        invariant
            j <= hs@.len(),
            want == row_record(cells_of(row@), texts_of(hs@)),
            texts_of(rec@) == want.take(j as int),
        decreases hs@.len() - j,
    {
        let t = lookup_cell(row, &hs[j]);
        proof {
            lemma_texts_push(rec@, t);
        }
        rec.push(t);
        assert(texts_of(rec@) =~= want.take(j + 1));
        j = j + 1;
    }
    assert(want.take(hs@.len() as int) =~= want);
    rec
}

/// The CSV records of a table of rows (see `csv_table`).
pub fn table_records(rows: &Vec<Vec<(String, String)>>) -> (recs: Vec<Vec<String>>)
    ensures
        records_of(recs@) == csv_table(rows_of(rows@)),
{
    let ghost rv = rows_of(rows@);
    let hs = headers(rows);
    let ghost hv = texts_of(hs@);
    let ghost tail = Seq::new(rv.len(), |a: int| row_record(rv[a], hv));
    let mut recs: Vec<Vec<String>> = Vec::new();
    let mut head: Vec<String> = Vec::new();
    let mut j: usize = 0;
    while j < hs.len()
        invariant
            j <= hs@.len(),
            texts_of(head@) == hv.take(j as int),
            hv == texts_of(hs@),
        decreases hs@.len() - j,
    {
        let h = hs[j].clone();
        proof {
            lemma_texts_push(head@, h);
        }
        head.push(h);
        assert(texts_of(head@) =~= hv.take(j + 1));
        j = j + 1;
    }
    assert(hv.take(hv.len() as int) =~= hv);
    proof {
        lemma_records_push(recs@, head);
    }
    recs.push(head);
    assert(records_of(recs@) =~= seq![hv]);
    let mut i: usize = 0;
    while i < rows.len()
        invariant
            i <= rows@.len(),
            rv == rows_of(rows@),
            hv == texts_of(hs@),
            tail == Seq::new(rv.len(), |a: int| row_record(rv[a], hv)),
            records_of(recs@) == seq![hv] + tail.take(i as int),
        decreases rows@.len() - i,
    {
        let rec = record_of(&rows[i], &hs);
        proof {
            lemma_records_push(recs@, rec);
        }
        recs.push(rec);
        assert(records_of(recs@) =~= seq![hv] + tail.take(i + 1));
        i = i + 1;
    }
    assert(tail.take(rv.len() as int) =~= tail);
    assert(csv_table(rv) =~= seq![hv] + tail);
    recs
}

/// The rows a document exports as (see `export_rows`).
pub fn export_table(value: &JNode) -> (r: Option<Vec<Vec<(String, String)>>>)
    ensures
        match r {
            Some(t) => export_rows(*value) == Some(rows_of(t@)),
            None => export_rows(*value) is None,
        },
{
    proof {
        reveal_strlit("");
    }
    match value {
        JNode::Array { items, collapsed } => {
            let mut all: Vec<Vec<(String, String)>> = Vec::new();
            let mut i: usize = 0;
            while i < items.len()
                invariant
                    *value == (JNode::Array { items: *items, collapsed: *collapsed }),
                    i <= items@.len(),
                    ""@ == Seq::<char>::empty(),
                    rows_of(all@) == roots_rows(items@, i as int),
                decreases items@.len() - i,
            {
                let sub = flatten_to_rows(&items[i], "", true);
                let ghost target = roots_rows(items@, i + 1);
                let mut t: usize = 0;
                let ghost before = rows_of(all@);
                while t < sub.len()
                    invariant
                        t <= sub@.len(),
                        target == before + rows_of(sub@),
                        rows_of(all@) == before + rows_of(sub@).take(t as int),
                    decreases sub@.len() - t,
                {
                    let row = clone_row(&sub[t]);
                    proof {
                        lemma_rows_push(all@, row);
                    }
                    all.push(row);
                    assert(rows_of(all@) =~= before + rows_of(sub@).take(t + 1));
                    t = t + 1;
                }
                assert(rows_of(sub@).take(sub@.len() as int) =~= rows_of(sub@));
                i = i + 1;
            }
            assert(export_rows(*value) == Some(rows_of(all@)));
            Some(all)
        },
        JNode::Object { .. } => {
            let rows = flatten_to_rows(value, "", true);
            assert(""@ =~= Seq::<char>::empty());
            assert(export_rows(*value) == Some(rows_of(rows@)));
            Some(rows)
        },
        JNode::Scalar(_) => None,
    }
}

/// What CSV export gives for a document (see `json_to_csv`): refused when it is not
/// tabular, nothing for no rows, else the table as the CSV writer writes it.
pub open spec fn csv_exported(value: JNode, r: Result<String, ConvertError>) -> bool {
    match export_rows(value) {
        None => r matches Err(ConvertError::NotTabular),
        Some(rows) => if rows.len() == 0 {
            r matches Ok(s) && s@.len() == 0
        } else {
            match csv_written(csv_table(rows)) {
                Ok(t) => r matches Ok(s) && s@ == t,
                Err(e) => r matches Err(ConvertError::Csv(m)) && m@ == e,
            }
        },
    }
}

/// The CSV text of a document. Its root must be an object or an array; a document without
/// rows gives the empty text, any other the records of `csv_table` as the CSV writer writes
/// them.
pub fn json_to_csv(value: &JNode) -> (r: Result<String, ConvertError>)
    ensures
        csv_exported(*value, r),
{
    match export_table(value) {
        None => Err(ConvertError::NotTabular),
        Some(rows) => {
            if rows.len() == 0 {
                return Ok(String::new());
            }
            let recs = table_records(&rows);
            match write_csv(&recs) {
                Ok(t) => Ok(t),
                Err(e) => Err(ConvertError::Csv(e)),
            }
        },
    }
}

// ---------------------------------------------------------------------------
// CSV in
// ---------------------------------------------------------------------------

/// What `csv::Reader` (default settings: a header record, all records of one length) reads
/// from a text: the header fields and the records, or the message of the first error.
pub uninterp spec fn csv_parsed(src: Seq<char>) -> Result<(Seq<Seq<char>>, Seq<Seq<Seq<char>>>), Seq<char>>;

/// Reads `src` with `csv::Reader::from_reader`: its `headers`, then each of its `records`,
/// every field as a string; an error becomes its message. The result is named by the text
/// alone.
#[verifier::external_body]
fn read_csv(src: &str) -> (r: Result<(Vec<String>, Vec<Vec<String>>), String>)
    ensures
        match r {
            Ok(t) => csv_parsed(src@) == Ok::<(Seq<Seq<char>>, Seq<Seq<Seq<char>>>), Seq<char>>((texts_of(t.0@), records_of(t.1@))),
            Err(e) => csv_parsed(src@) == Err::<(Seq<Seq<char>>, Seq<Seq<Seq<char>>>), Seq<char>>(e@),
        },
{
    let mut rdr = csv::Reader::from_reader(src.as_bytes());
    let headers: Vec<String> = rdr.headers().map_err(|e| e.to_string())?.iter().map(|f| f.to_string()).collect();
    let mut records: Vec<Vec<String>> = Vec::new();
    for rec in rdr.records() {
        records.push(rec.map_err(|e| e.to_string())?.iter().map(|f| f.to_string()).collect());
    }
    Ok((headers, records))
}

/// The shorter of the two lengths: headers and fields are paired up to it.
pub open spec fn paired_len(hs: Seq<Seq<char>>, rec: Seq<Seq<char>>) -> int {
    if hs.len() < rec.len() { hs.len() as int } else { rec.len() as int }
}

/// The first `n` fields of a record set under their headers, in order.
pub open spec fn record_cells(hs: Seq<Seq<char>>, rec: Seq<Seq<char>>, n: int) -> Seq<(Seq<char>, Seq<char>)>
    decreases n,
{
    if n <= 0 {
        Seq::empty()
    } else {
        cell_insert(record_cells(hs, rec, n - 1), hs[n - 1], rec[n - 1])
    }
}

/// `n` is an expanded object whose entries are these names with these string values.
pub open spec fn is_text_object(n: JNode, cells: Seq<(Seq<char>, Seq<char>)>) -> bool {
    match n {
        JNode::Object { entries, collapsed } => {
            &&& !collapsed
            &&& entries@.len() == cells.len()
            &&& forall|i: int| 0 <= i < cells.len() ==> {
                &&& (#[trigger] entries@[i]).0@ == cells[i].0
                &&& entries@[i].1 matches JNode::Scalar(JScalar::String(v)) && v@ == cells[i].1
            }
        },
        _ => false,
    }
}

/// `n` is the document read from a CSV table: an expanded array with one object per record.
pub open spec fn is_csv_document(n: JNode, hs: Seq<Seq<char>>, recs: Seq<Seq<Seq<char>>>) -> bool {
    match n {
        JNode::Array { items, collapsed } => {
            &&& !collapsed
            &&& items@.len() == recs.len()
            &&& forall|i: int| 0 <= i < recs.len() ==>
                is_text_object(#[trigger] items@[i], record_cells(hs, recs[i], paired_len(hs, recs[i])))
        },
        _ => false,
    }
}

fn text_object(hs: &Vec<String>, rec: &Vec<String>) -> (n: JNode)
    ensures
        is_text_object(n, record_cells(texts_of(hs@), texts_of(rec@), paired_len(texts_of(hs@), texts_of(rec@)))),
{
    let ghost hv = texts_of(hs@);
    let ghost rv = texts_of(rec@);
    let n = if hs.len() < rec.len() { hs.len() } else { rec.len() };
    let mut cells: Vec<(String, String)> = Vec::new();
    let mut j: usize = 0;
    while j < n
        invariant
            n as int == paired_len(hv, rv),
            n <= hs@.len(),
            n <= rec@.len(),
            hv == texts_of(hs@),
            rv == texts_of(rec@),
            j <= n,
            cells_of(cells@) == record_cells(hv, rv, j as int),
        decreases n - j,
    {
        row_insert(&mut cells, hs[j].clone(), rec[j].clone());
        j = j + 1;
    }
    let ghost want = cells_of(cells@);
    let mut entries: Vec<(String, JNode)> = Vec::new();
    let mut c: usize = 0;
    while c < cells.len()
        invariant
            c <= cells@.len(),
            want == cells_of(cells@),
            entries@.len() == c,
            forall|i: int| 0 <= i < c ==> {
                &&& (#[trigger] entries@[i]).0@ == want[i].0
                &&& entries@[i].1 matches JNode::Scalar(JScalar::String(v)) && v@ == want[i].1
            },
        decreases cells@.len() - c,
    {
        let k = cells[c].0.clone();
        let v = cells[c].1.clone();
        entries.push((k, JNode::Scalar(JScalar::String(v))));
        c = c + 1;
    }
    JNode::Object { entries, collapsed: false }
}

/// The document made of CSV headers and records: an array holding, for each record, an
/// object that maps each header to the record's field as a string.
pub fn csv_records_to_json(hs: &Vec<String>, recs: &Vec<Vec<String>>) -> (n: JNode)
    ensures
        is_csv_document(n, texts_of(hs@), records_of(recs@)),
{
    let ghost hv = texts_of(hs@);
    let ghost rv = records_of(recs@);
    let mut items: Vec<JNode> = Vec::new();
    let mut i: usize = 0;
    while i < recs.len()
        invariant
            i <= recs@.len(),
            hv == texts_of(hs@),
            rv == records_of(recs@),
            items@.len() == i,
            forall|m: int| 0 <= m < i ==>
                is_text_object(#[trigger] items@[m], record_cells(hv, rv[m], paired_len(hv, rv[m]))),
        decreases recs@.len() - i,
    {
        let o = text_object(hs, &recs[i]);
        items.push(o);
        i = i + 1;
    }
    JNode::Array { items, collapsed: false }
}

/// The document read from CSV text (see `csv_records_to_json`). A reader error is reported
/// with its message.
pub fn csv_to_json(src: &str) -> (r: Result<JNode, ConvertError>)
    ensures
        match csv_parsed(src@) {
            Ok(t) => (r matches Ok(n) && is_csv_document(n, t.0, t.1)),
            Err(e) => (r matches Err(ConvertError::Csv(m)) && m@ == e),
        },
{
    match read_csv(src) {
        Err(e) => Err(ConvertError::Csv(e)),
        Ok((hs, recs)) => Ok(csv_records_to_json(&hs, &recs)),
    }
}

// ---------------------------------------------------------------------------
// Formats
// ---------------------------------------------------------------------------

/// Whether a null occurs anywhere in a document.
pub open spec fn has_null(n: JNode) -> bool
    decreases n, 1int,
{
    match n {
        JNode::Scalar(JScalar::Null) => true,
        JNode::Scalar(_) => false,
        JNode::Array { items, .. } => any_null(items@, items@.len() as int),
        JNode::Object { entries, .. } => any_null_entry(entries@, entries@.len() as int),
    }
}

pub open spec fn any_null(items: Seq<JNode>, k: int) -> bool
    decreases items, k,
{
    if k <= 0 || k > items.len() {
        false
    } else {
        any_null(items, k - 1) || has_null(items[k - 1])
    }
}

pub open spec fn any_null_entry(es: Seq<(String, JNode)>, k: int) -> bool
    decreases es, k,
{
    if k <= 0 || k > es.len() {
        false
    } else {
        any_null_entry(es, k - 1) || has_null(es[k - 1].1)
    }
}

proof fn lemma_any_null(items: Seq<JNode>, i: int, k: int)
    requires
        0 <= i < k <= items.len(),
        has_null(items[i]),
    ensures
        any_null(items, k),
    decreases k,
{
    if i < k - 1 {
        lemma_any_null(items, i, k - 1);
    }
}

proof fn lemma_any_null_entry(es: Seq<(String, JNode)>, i: int, k: int)
    requires
        0 <= i < k <= es.len(),
        has_null(es[i].1),
    ensures
        any_null_entry(es, k),
    decreases k,
{
    if i < k - 1 {
        lemma_any_null_entry(es, i, k - 1);
    }
}

fn contains_null(n: &JNode) -> (r: bool)
    ensures
        r == has_null(*n),
    decreases n,
{
    match n {
        JNode::Scalar(JScalar::Null) => true,
        JNode::Scalar(_) => false,
        JNode::Array { items, collapsed } => {
            let mut i: usize = 0;
            while i < items.len()
                invariant
                    *n == (JNode::Array { items: *items, collapsed: *collapsed }),
                    i <= items@.len(),
                    !any_null(items@, i as int),
                decreases items@.len() - i,
            {
                proof {
                    assert(decreases_to!(*n => n->items));
                    assert(decreases_to!(*items => items@));
                    assert(decreases_to!(items@ => items@[i as int]));
                }
                if contains_null(&items[i]) {
                    proof {
                        lemma_any_null(items@, i as int, items@.len() as int);
                    }
                    return true;
                }
                i = i + 1;
            }
            false
        },
        JNode::Object { entries, collapsed } => {
            let mut i: usize = 0;
            while i < entries.len()
                invariant
                    *n == (JNode::Object { entries: *entries, collapsed: *collapsed }),
                    i <= entries@.len(),
                    !any_null_entry(entries@, i as int),
                decreases entries@.len() - i,
            {
                proof {
                    assert(decreases_to!(*n => n->entries));
                    assert(decreases_to!(*entries => entries@));
                    assert(decreases_to!(entries@ => entries@[i as int]));
                    assert(decreases_to!(entries@[i as int] => entries@[i as int].1));
                }
                if contains_null(&entries[i].1) {
                    proof {
                        lemma_any_null_entry(entries@, i as int, entries@.len() as int);
                    }
                    return true;
                }
                i = i + 1;
            }
            false
        },
    }
}

/// A document can be written as TOML only if it holds no null.
pub fn check_toml(value: &JNode) -> (r: Result<(), ConvertError>)
    ensures
        r is Ok <==> !has_null(*value),
        r is Err ==> r matches Err(ConvertError::NullInToml),
{
    if contains_null(value) {
        Err(ConvertError::NullInToml)
    } else {
        Ok(())
    }
}

/// A document format for reading and writing.
#[derive(Debug, Clone, Copy, PartialEq, Eq, Structural)]
pub enum Format {
    Json,
    Yaml,
    Toml,
    Csv,
    Jsonl,
}

/// The format of an input file, from its extension: yaml or yml, toml, csv, jsonl, and JSON
/// for anything else.
pub open spec fn input_format_spec(hint: Seq<char>) -> Format {
    if hint == "yaml"@ || hint == "yml"@ {
        Format::Yaml
    } else if hint == "toml"@ {
        Format::Toml
    } else if hint == "csv"@ {
        Format::Csv
    } else if hint == "jsonl"@ {
        Format::Jsonl
    } else {
        Format::Json
    }
}

/// The format of an input file, from its extension.
pub fn input_format(hint: &str) -> (f: Format)
    ensures
        f == input_format_spec(hint@),
{
    let h = lit(hint);
    if h == lit("yaml") || h == lit("yml") {
        Format::Yaml
    } else if h == lit("toml") {
        Format::Toml
    } else if h == lit("csv") {
        Format::Csv
    } else if h == lit("jsonl") {
        Format::Jsonl
    } else {
        Format::Json
    }
}

/// The output format names.
pub open spec fn known_format(fmt: Seq<char>) -> bool {
    fmt == "json"@ || fmt == "yaml"@ || fmt == "yml"@ || fmt == "toml"@ || fmt == "csv"@ || fmt == "jsonl"@
}

/// The format named by an output option: json, yaml or yml, toml, csv, jsonl.
pub fn output_format(fmt: &str) -> (r: Result<Format, ConvertError>)
    ensures
        fmt@ == "json"@ ==> r matches Ok(Format::Json),
        fmt@ == "yaml"@ || fmt@ == "yml"@ ==> r matches Ok(Format::Yaml),
        fmt@ == "toml"@ ==> r matches Ok(Format::Toml),
        fmt@ == "csv"@ ==> r matches Ok(Format::Csv),
        fmt@ == "jsonl"@ ==> r matches Ok(Format::Jsonl),
        !known_format(fmt@) ==> (r matches Err(ConvertError::UnsupportedFormat(f)) && f@ == fmt@),
{
    proof {
        reveal_strlit("json");
        reveal_strlit("yaml");
        reveal_strlit("yml");
        reveal_strlit("toml");
        reveal_strlit("csv");
        reveal_strlit("jsonl");
        assert("jsonl"@.len() != "json"@.len() && "jsonl"@[0] != "yaml"@[0] && "jsonl"@[0] != "yml"@[0]);
        assert("jsonl"@[0] != "toml"@[0] && "jsonl"@[0] != "csv"@[0]);
        assert("json"@[0] != "yaml"@[0] && "json"@[0] != "yml"@[0] && "json"@[0] != "toml"@[0] && "json"@[0] != "csv"@[0]);
        assert("yaml"@[1] != "yml"@[1] && "yaml"@[0] != "toml"@[0] && "yaml"@[0] != "csv"@[0]);
        assert("yml"@[0] != "toml"@[0] && "yml"@[0] != "csv"@[0] && "toml"@[0] != "csv"@[0]);
    }
    let f = lit(fmt);
    if f == lit("json") {
        Ok(Format::Json)
    } else if f == lit("yaml") || f == lit("yml") {
        Ok(Format::Yaml)
    } else if f == lit("toml") {
        Ok(Format::Toml)
    } else if f == lit("csv") {
        Ok(Format::Csv)
    } else if f == lit("jsonl") {
        Ok(Format::Jsonl)
    } else {
        Err(ConvertError::UnsupportedFormat(f))
    }
}

// ---------------------------------------------------------------------------
// Reading a document
// ---------------------------------------------------------------------------

/// What `serde_yaml` reads from the text `s` as a `serde_json::Value`, written back as JSON
/// text with `to_string`; the reader's message when it does not read.
pub uninterp spec fn yaml_as_json(s: Seq<char>) -> Result<Seq<char>, Seq<char>>;

/// What `toml` reads from the text `s` as a `toml::Value`, written as JSON text by
/// `serde_json::to_string` (a date-time as a one-entry table, see
/// `crate::json::toml_date_key`); the message of the step that failed.
pub uninterp spec fn toml_as_json(s: Seq<char>) -> Result<Seq<char>, Seq<char>>;

/// `serde_yaml::from_str::<serde_json::Value>(s)` written with `to_string`. The result is
/// named by the text alone.
#[verifier::external_body]
fn yaml_json_text(s: &str) -> (r: Result<String, String>)
    ensures
        text_result(r) == yaml_as_json(s@),
{
    let v: serde_json::Value = serde_yaml::from_str(s).map_err(|e| e.to_string())?;
    Ok(v.to_string())
}

/// `toml::from_str::<toml::Value>(s)` written with `serde_json::to_string`. The result is
/// named by the text alone.
#[verifier::external_body]
fn toml_json_text(s: &str) -> (r: Result<String, String>)
    ensures
        text_result(r) == toml_as_json(s@),
{
    let v: toml::Value = toml::from_str(s).map_err(|e| e.to_string())?;
    serde_json::to_string(&v).map_err(|e| e.to_string())
}

/// `r` is the document read from the JSON text `t` (see `crate::json::json_tree`; with
/// `dates`, TOML date-time tables become their text): the reader's message when `t` does
/// not read, `Unwalkable` when the value cannot be walked.
pub open spec fn json_read(t: Seq<char>, dates: bool, r: Result<JNode, ConvertError>) -> bool {
    if json_canonical(t) is None {
        r matches Err(ConvertError::Json(m)) && m@ == json_read_error(t)
    } else if json_walks(t, Seq::empty(), usize::MAX as nat, dates) {
        r matches Ok(n) && json_tree(n, t, Seq::empty(), usize::MAX as nat, dates)
    } else {
        r matches Err(ConvertError::Unwalkable)
    }
}

fn read_tree(t: &str, dates: bool) -> (r: Result<JNode, ConvertError>)
    ensures
        json_read(t@, dates, r),
{
    match read_json_tree(t, dates) {
        Err(e) => Err(ConvertError::Json(e)),
        Ok(None) => Err(ConvertError::Unwalkable),
        Ok(Some(n)) => Ok(n),
    }
}

/// Reads a JSON text into a document (see `json_read`).
pub fn parse_json_document(t: &str) -> (r: Result<JNode, ConvertError>)
    ensures
        json_read(t@, false, r),
{
    read_tree(t, false)
}

/// `r` is what reading a text in another format gives: the reader's message, or the
/// document read from the JSON text it was turned into.
pub open spec fn via_json(conv: Result<Seq<char>, Seq<char>>, yaml: bool, r: Result<JNode, ConvertError>) -> bool {
    match conv {
        Err(e) => if yaml {
            r matches Err(ConvertError::Yaml(m)) && m@ == e
        } else {
            r matches Err(ConvertError::Toml(m)) && m@ == e
        },
        Ok(t) => json_read(t, !yaml, r),
    }
}

/// The error a JSONL line gives: the reader's message, or `Unwalkable`.
pub open spec fn line_error(l: Seq<char>, e: ConvertError) -> bool {
    if json_canonical(l) is None {
        e matches ConvertError::Json(m) && m@ == json_read_error(l)
    } else {
        e is Unwalkable
    }
}

/// A JSONL line reads and walks.
pub open spec fn line_reads(l: Seq<char>) -> bool {
    json_canonical(l) is Some && json_walks(l, Seq::empty(), usize::MAX as nat, false)
}

/// `r` is the document read from JSONL text with the non-blank lines `ls`: an unfolded
/// array of one document per line, in order, when every line reads; else the error of the
/// first line that does not.
pub open spec fn jsonl_read(ls: Seq<Seq<char>>, r: Result<JNode, ConvertError>) -> bool {
    match r {
        Ok(n) => {
            &&& forall|i: int| 0 <= i < ls.len() ==> line_reads(#[trigger] ls[i])
            &&& n matches JNode::Array { items, collapsed } && !collapsed && items@.len() == ls.len() && forall|i: int|
                0 <= i < ls.len() ==> json_tree(#[trigger] items@[i], ls[i], Seq::empty(), usize::MAX as nat, false)
        },
        Err(e) => exists|k: int| {
            &&& 0 <= k < ls.len()
            &&& (forall|i: int| 0 <= i < k ==> line_reads(#[trigger] ls[i]))
            &&& !line_reads(ls[k])
            &&& #[trigger] line_error(ls[k], e)
        },
    }
}

fn parse_jsonl(src: &str) -> (r: Result<JNode, ConvertError>)
    ensures
        jsonl_read(lines_scan(src@, 0, Seq::empty()), r),
{
    let lines = jsonl_lines(src);
    let ghost ls = lines.deep_view();
    let mut items: Vec<JNode> = Vec::new();
    let mut i: usize = 0;
    while i < lines.len()
        invariant
            ls == lines.deep_view(),
            ls == lines_scan(src@, 0, Seq::empty()),
            i <= ls.len(),
            items@.len() == i,
            forall|k: int| 0 <= k < i ==> line_reads(#[trigger] ls[k]),
            forall|k: int| 0 <= k < i ==> json_tree(#[trigger] items@[k], ls[k], Seq::empty(), usize::MAX as nat, false),
        decreases ls.len() - i,
    {
        let ghost l = ls[i as int];
        assert(lines[i as int]@ == l);
        match read_tree(lines[i].as_str(), false) {
            Ok(n) => {
                items.push(n);
            },
            Err(e) => {
                assert(!line_reads(l));
                assert(line_error(l, e));
                return Err(e);
            },
        }
        i = i + 1;
    }
    Ok(JNode::Array { items, collapsed: false })
}

/// Reads a document from `src` in the format its file extension `hint` names (see
/// `input_format_spec`): JSON, YAML and TOML through `serde_json`, `serde_yaml` and `toml`
/// (see `json_read`, `via_json`), CSV as `csv_to_json` reads it, JSONL one JSON document
/// per non-blank line (see `jsonl_read`).
pub fn parse_document(src: &str, hint: &str) -> (r: Result<JNode, ConvertError>)
    ensures
        match input_format_spec(hint@) {
            Format::Json => json_read(src@, false, r),
            Format::Yaml => via_json(yaml_as_json(src@), true, r),
            Format::Toml => via_json(toml_as_json(src@), false, r),
            Format::Csv => match csv_parsed(src@) {
                Ok(t) => (r matches Ok(n) && is_csv_document(n, t.0, t.1)),
                Err(e) => (r matches Err(ConvertError::Csv(m)) && m@ == e),
            },
            Format::Jsonl => jsonl_read(lines_scan(src@, 0, Seq::empty()), r),
        },
{
    match input_format(hint) {
        Format::Json => read_tree(src, false),
        Format::Yaml => match yaml_json_text(src) {
            Err(e) => Err(ConvertError::Yaml(e)),
            Ok(t) => read_tree(t.as_str(), false),
        },
        Format::Toml => match toml_json_text(src) {
            Err(e) => Err(ConvertError::Toml(e)),
            Ok(t) => read_tree(t.as_str(), true),
        },
        Format::Csv => csv_to_json(src),
        Format::Jsonl => parse_jsonl(src),
    }
}

// ---------------------------------------------------------------------------
// Writing a document
// ---------------------------------------------------------------------------

/// What `serde_json` makes of the JSON text `s`, read as a `serde_json::Value` and written
/// back with `to_string_pretty`; the reader's message when it does not read.
pub uninterp spec fn json_pretty(s: Seq<char>) -> Result<Seq<char>, Seq<char>>;

/// What `serde_yaml::to_string` writes for the JSON text `s` read as a `serde_json::Value`;
/// the message of the step that failed.
pub uninterp spec fn yaml_of_json(s: Seq<char>) -> Result<Seq<char>, Seq<char>>;

/// What `toml::to_string_pretty` writes for the JSON text `s` read (by `serde_json`) as a
/// `toml::Value`; the message of the step that failed.
pub uninterp spec fn toml_of_json(s: Seq<char>) -> Result<Seq<char>, Seq<char>>;

/// Reads `s` with `serde_json::from_str::<serde_json::Value>` and writes the value with
/// `serde_json::to_string_pretty`. The result is named by the text alone.
#[verifier::external_body]
fn pretty_json_text(s: &str) -> (r: Result<String, String>)
    ensures
        text_result(r) == json_pretty(s@),
{
    let v: serde_json::Value = serde_json::from_str(s).map_err(|e| e.to_string())?;
    serde_json::to_string_pretty(&v).map_err(|e| e.to_string())
}

/// Reads `s` with `serde_json::from_str::<serde_json::Value>` and writes the value with
/// `serde_yaml::to_string`. The result is named by the text alone.
#[verifier::external_body]
fn yaml_text(s: &str) -> (r: Result<String, String>)
    ensures
        text_result(r) == yaml_of_json(s@),
{
    let v: serde_json::Value = serde_json::from_str(s).map_err(|e| e.to_string())?;
    serde_yaml::to_string(&v).map_err(|e| e.to_string())
}

/// Reads `s` with `serde_json::from_str::<toml::Value>` (where an integer above `i64::MAX`
/// is refused, and a number with a fraction read as a float) and writes the value with `toml::to_string_pretty`. The result is named by
/// the text alone.
#[verifier::external_body]
fn toml_text(s: &str) -> (r: Result<String, String>)
    ensures
        text_result(r) == toml_of_json(s@),
{
    let v: toml::Value = serde_json::from_str(s).map_err(|e| e.to_string())?;
    toml::to_string_pretty(&v).map_err(|e| e.to_string())
}

/// A result of texts, by the texts' characters.
pub open spec fn text_result(r: Result<String, String>) -> Result<Seq<char>, Seq<char>> {
    match r {
        Ok(t) => Ok(t@),
        Err(e) => Err(e@),
    }
}

/// A writer's result as the library's: its message becomes `Serialize`.
pub open spec fn written(r: Result<Seq<char>, Seq<char>>, out: Result<String, ConvertError>) -> bool {
    match r {
        Ok(t) => out matches Ok(s) && s@ == t,
        Err(e) => out matches Err(ConvertError::Serialize(m)) && m@ == e,
    }
}

fn as_written(r: Result<String, String>) -> (out: Result<String, ConvertError>)
    ensures
        written(text_result(r), out),
{
    match r {
        Ok(t) => Ok(t),
        Err(e) => Err(ConvertError::Serialize(e)),
    }
}

/// The JSONL text of a document: each element of an array root on a line of its own, any
/// other root on one line; every line is compact JSON ended by a newline.
pub open spec fn jsonl_spec(n: JNode) -> Seq<char> {
    match n {
        JNode::Array { items, .. } => json_lines(items@, items@.len() as int),
        _ => json_text(n) + "\n"@,
    }
}

/// The first `k` items, one compact JSON line each.
pub open spec fn json_lines(items: Seq<JNode>, k: int) -> Seq<char>
    decreases k,
{
    if k <= 0 || k > items.len() {
        Seq::empty()
    } else {
        json_lines(items, k - 1) + json_text(items[k - 1]) + "\n"@
    }
}

/// Writes a document as JSONL (see `jsonl_spec`).
pub fn to_jsonl(value: &JNode) -> (s: String)
    ensures
        s@ == jsonl_spec(*value),
{
    let mut s = String::new();
    match value {
        JNode::Array { items, .. } => {
            let mut i: usize = 0;
            while i < items.len()
                invariant
                    i <= items@.len(),
                    s@ == json_lines(items@, i as int),
                decreases items@.len() - i,
            {
                push_json(&mut s, &items[i]);
                append(&mut s, "\n");
                proof {
                    reveal_strlit("\n");
                }
                i = i + 1;
            }
        },
        _ => {
            push_json(&mut s, value);
            append(&mut s, "\n");
            proof {
                reveal_strlit("\n");
            }
        },
    }
    s
}

/// The lines of `s` from `i` on that hold more than white space, `cur` being the part of the
/// line already read; lines end at `\n`.
pub open spec fn lines_scan(s: Seq<char>, i: int, cur: Seq<char>) -> Seq<Seq<char>>
    decreases s.len() - i,
{
    if i < 0 || i >= s.len() {
        kept_line(cur)
    } else if s[i] == '\n' {
        kept_line(cur) + lines_scan(s, i + 1, Seq::empty())
    } else {
        lines_scan(s, i + 1, cur.push(s[i]))
    }
}

/// A line, kept unless it is blank.
pub open spec fn kept_line(line: Seq<char>) -> Seq<Seq<char>> {
    if trim_spec(line).len() > 0 { seq![line] } else { Seq::empty() }
}

/// The values of JSONL text, one per line, blank lines skipped (each is then read as JSON).
pub fn jsonl_lines(src: &str) -> (ls: Vec<String>)
    ensures
        ls.deep_view() == lines_scan(src@, 0, Seq::empty()),
{
    let cs = chars_of(src);
    let mut out: Vec<String> = Vec::new();
    let mut cur = String::new();
    let mut i: usize = 0;
    while i < cs.len()
        invariant
            cs@ == src@,
            i <= cs@.len(),
            out.deep_view() + lines_scan(cs@, i as int, cur@) == lines_scan(cs@, 0, Seq::empty()),
        decreases cs@.len() - i,
    {
        let ghost before = out.deep_view();
        let ghost line = cur@;
        if cs[i] == '\n' {
            let t = trim(cur.as_str());
            if !t.as_str().is_empty() {
                out.push(cur);
                assert(out.deep_view() =~= before.push(line));
            } else {
                assert(t@ =~= Seq::<char>::empty());
            }
            cur = String::new();
            assert(out.deep_view() =~= before + kept_line(line));
            assert(lines_scan(cs@, i as int, line) == kept_line(line) + lines_scan(cs@, i + 1, Seq::empty()));
            assert(cur@ =~= Seq::<char>::empty());
        } else {
            push_char(&mut cur, cs[i]);
            assert(lines_scan(cs@, i as int, line) == lines_scan(cs@, i + 1, line.push(cs@[i as int])));
        }
        i = i + 1;
    }
    let ghost before = out.deep_view();
    let ghost line = cur@;
    let t = trim(cur.as_str());
    if !t.as_str().is_empty() {
        out.push(cur);
        assert(out.deep_view() =~= before.push(line));
    } else {
        assert(t@ =~= Seq::<char>::empty());
    }
    assert(out.deep_view() =~= before + kept_line(line));
    out
}

/// Writes a document in the format `fmt` names: an unknown name is refused first; JSON is
/// the document's compact text (`crate::json::json_text`) written back pretty by
/// `serde_json`; YAML is that text written by `serde_yaml`; TOML is that text, with each
/// integer above `i64::MAX` given a fraction (TOML integers are 64-bit signed, so such a
/// number goes over as a float), written by `toml`, a document holding a null refused;
/// CSV is `json_to_csv`; JSONL is `jsonl_spec`.
pub fn serialize_document(value: &JNode, fmt: &str) -> (r: Result<String, ConvertError>)
    ensures
        !known_format(fmt@) ==> (r matches Err(ConvertError::UnsupportedFormat(f)) && f@ == fmt@),
        fmt@ == "jsonl"@ ==> (r matches Ok(s) && s@ == jsonl_spec(*value)),
        fmt@ == "json"@ ==> written(json_pretty(json_text(*value)), r),
        fmt@ == "yaml"@ || fmt@ == "yml"@ ==> written(yaml_of_json(json_text(*value)), r),
        fmt@ == "toml"@ ==> if has_null(*value) {
            r matches Err(ConvertError::NullInToml)
        } else {
            written(toml_of_json(json_text_as(*value, true)), r)
        },
        fmt@ == "csv"@ ==> csv_exported(*value, r),
{
    let format = match output_format(fmt) {
        Ok(f) => f,
        Err(e) => {
            return Err(e);
        },
    };
    match format {
        Format::Json => as_written(pretty_json_text(to_json_text(value).as_str())),
        Format::Yaml => as_written(yaml_text(to_json_text(value).as_str())),
        Format::Toml => {
            match check_toml(value) {
                Ok(()) => {},
                Err(e) => {
                    return Err(e);
                },
            }
            as_written(toml_text(to_json_text_as(value, true).as_str()))
        },
        Format::Csv => json_to_csv(value),
        Format::Jsonl => Ok(to_jsonl(value)),
    }
}

// ---------------------------------------------------------------------------
// Laws
// ---------------------------------------------------------------------------

proof fn lemma_scan_without_explode(es: Seq<(String, JNode)>, n: int, prefix: Seq<char>)
    ensures
        obj_scan(es, n, prefix, false).1 is None,
    decreases n,
{
    if 0 < n <= es.len() {
        lemma_scan_without_explode(es, n - 1, prefix);
    }
}

/// Where exploding is not allowed, a value flattens into exactly one row.
pub proof fn law_no_explode_gives_one_row(n: JNode, prefix: Seq<char>)
    ensures
        flat_rows(n, prefix, false).len() == 1,
{
    match n {
        JNode::Object { entries, .. } => {
            lemma_scan_without_explode(entries@, entries@.len() as int, prefix);
        },
        _ => {},
    }
}

/// Every record of an exported table, the header record included, has one field per column.
pub proof fn law_csv_records_are_rectangular(rows: Seq<Seq<(Seq<char>, Seq<char>)>>, i: int)
    requires
        0 <= i < csv_table(rows).len(),
    ensures
        csv_table(rows)[i].len() == headers_of(rows, rows.len() as int).len(),
{
}

/// A value that an object's row can be exploded on: a non-empty array whose items are all
/// objects.
pub open spec fn explodable(v: JNode) -> bool {
    v matches JNode::Array { items, .. } && items@.len() > 0 && forall|j: int| 0 <= j < items@.len() ==> (
    #[trigger] items@[j]) is Object
}

/// Where exploding is allowed, an object's row is exploded on its first field that holds a
/// non-empty array of objects, and on nothing when no field does; an empty array is never
/// exploded on (it stays a cell of the row).
pub proof fn law_explodes_on_first_array_of_objects(es: Seq<(String, JNode)>, n: int, prefix: Seq<char>)
    requires
        0 <= n <= es.len(),
    ensures
        match obj_scan(es, n, prefix, true).1 {
            Some(i) => 0 <= i < n && explodable(es[i].1) && forall|j: int| 0 <= j < i ==> !explodable(#[trigger] es[j].1),
            None => forall|j: int| 0 <= j < n ==> !explodable(#[trigger] es[j].1),
        },
    decreases n,
{
    if n > 0 {
        law_explodes_on_first_array_of_objects(es, n - 1, prefix);
        let v = es[n - 1].1;
        match v {
            JNode::Array { items, .. } => {
                if explodable(v) {
                    assert(all_objects(items@));
                }
                if all_objects(items@) && items@.len() > 0 {
                    assert(explodable(v));
                }
            },
            _ => {},
        }
    }
}

/// Every value flattens into at least one row: exploding never loses an object's row.
pub proof fn law_flatten_keeps_a_row(n: JNode, prefix: Seq<char>, explode: bool)
    ensures
        flat_rows(n, prefix, explode).len() >= 1,
{
    match n {
        JNode::Object { entries, .. } => {
            let es = entries@;
            if explode {
                law_explodes_on_first_array_of_objects(es, es.len() as int, prefix);
            } else {
                lemma_scan_without_explode(es, es.len() as int, prefix);
            }
            let st = obj_scan(es, es.len() as int, prefix, explode);
            match st.1 {
                Some(i) => {
                    let arr = es[i].1;
                    let items = arr->items;
                    let m = items@.len() as int;
                    assert(child_count(arr) == m);
                    law_no_explode_gives_one_row(items@[m - 1], full_key(prefix, es[i].0@));
                    let sub = flat_rows(items@[m - 1], full_key(prefix, es[i].0@), false);
                    assert(explode_rows(st.0, arr, full_key(prefix, es[i].0@), m) == explode_rows(
                        st.0,
                        arr,
                        full_key(prefix, es[i].0@),
                        m - 1,
                    ) + extended_rows(st.0, sub));
                    assert(extended_rows(st.0, sub).len() == 1);
                },
                None => {},
            }
        },
        _ => {},
    }
}

} // verus!
