//! Compact JSON text of a document tree, as handed to outside tools, and JSON text read back
//! into a tree.
use vstd::prelude::*;
use crate::text::{append, beyond_i64, beyond_i64_text, bool_text, chars_of, decimal, lit, push_char, push_decimal};
use crate::tree::{JNode, JScalar};

verus! {

/// A hexadecimal digit, lower case.
pub open spec fn hex_digit(d: nat) -> char {
    if d == 0 { '0' } else if d == 1 { '1' } else if d == 2 { '2' } else if d == 3 { '3' }
    else if d == 4 { '4' } else if d == 5 { '5' } else if d == 6 { '6' } else if d == 7 { '7' }
    else if d == 8 { '8' } else if d == 9 { '9' } else if d == 10 { 'a' } else if d == 11 { 'b' }
    else if d == 12 { 'c' } else if d == 13 { 'd' } else if d == 14 { 'e' } else { 'f' }
}

/// How a character is written inside a JSON string: `"` and `\` and control characters are
/// escaped (with the short forms where JSON has them), everything else stands as itself.
pub open spec fn escape_char(c: char) -> Seq<char> {
    if c == '"' {
        seq!['\\', '"']
    } else if c == '\\' {
        seq!['\\', '\\']
    } else if c == '\u{8}' {
        seq!['\\', 'b']
    } else if c == '\u{c}' {
        seq!['\\', 'f']
    } else if c == '\n' {
        seq!['\\', 'n']
    } else if c == '\r' {
        seq!['\\', 'r']
    } else if c == '\t' {
        seq!['\\', 't']
    } else if (c as u32) < 0x20 {
        seq!['\\', 'u', '0', '0', hex_digit((c as u32 / 16) as nat), hex_digit((c as u32 % 16) as nat)]
    } else {
        seq![c]
    }
}

/// The characters of `s`, each as written inside a JSON string.
pub open spec fn escaped(s: Seq<char>) -> Seq<char>
    decreases s.len(),
{
    if s.len() == 0 {
        Seq::empty()
    } else {
        escaped(s.drop_last()) + escape_char(s.last())
    }
}

/// A JSON string literal.
pub open spec fn json_string(s: Seq<char>) -> Seq<char> {
    seq!['"'] + escaped(s) + seq!['"']
}

/// What `serde_json` makes of a text when it reads it as a JSON value and writes that value
/// back compactly; `None` when it does not read.
pub uninterp spec fn json_canonical(s: Seq<char>) -> Option<Seq<char>>;

/// Reads `s` with `serde_json::from_str::<serde_json::Value>` and, when that succeeds,
/// writes the value back with `to_string`. The result is named by the text alone.
#[verifier::external_body]
fn canonical_json(s: &str) -> (r: Option<String>)
    ensures
        r.deep_view() == json_canonical(s@),
{
    serde_json::from_str::<serde_json::Value>(s).ok().map(|v| v.to_string())
}

/// The text of a number in compact JSON: as `serde_json` writes it back, or a string where
/// the text is not JSON. With `wide_as_float`, an integer above `i64::MAX` is given a
/// fraction, so that a reader keeping integers in `i64` reads it as a float.
pub open spec fn number_text(s: Seq<char>, wide_as_float: bool) -> Seq<char> {
    match json_canonical(s) {
        Some(t) => if wide_as_float && beyond_i64(t) {
            t + ".0"@
        } else {
            t
        },
        None => json_string(s),
    }
}

/// Compact JSON text of a document. A number whose text is JSON is written as `serde_json`
/// writes it back; one whose text is not becomes a string.
pub open spec fn json_text(n: JNode) -> Seq<char> {
    json_text_as(n, false)
}

/// The first `n` items of an array, comma separated, as `json_text` writes them.
pub open spec fn items_text(items: Seq<JNode>, n: int) -> Seq<char> {
    items_text_as(items, n, false)
}

/// Compact JSON text of a document, its numbers written by `number_text`.
pub open spec fn json_text_as(n: JNode, wide_as_float: bool) -> Seq<char>
    decreases n, 2int,
{
    match n {
        JNode::Scalar(JScalar::Null) => "null"@,
        JNode::Scalar(JScalar::Bool(b)) => bool_text(b),
        JNode::Scalar(JScalar::Number(s)) => number_text(s@, wide_as_float),
        JNode::Scalar(JScalar::String(s)) => json_string(s@),
        JNode::Array { items, .. } => seq!['['] + items_text_as(items@, items@.len() as int, wide_as_float)
            + seq![']'],
        JNode::Object { entries, .. } => seq!['{'] + entries_text_as(
            entries@,
            entries@.len() as int,
            wide_as_float,
        ) + seq!['}'],
    }
}

/// The first `n` items, comma separated.
pub open spec fn items_text_as(items: Seq<JNode>, n: int, wide_as_float: bool) -> Seq<char>
    decreases items, n,
{
    if n <= 0 || n > items.len() {
        Seq::empty()
    } else if n == 1 {
        json_text_as(items[0], wide_as_float)
    } else {
        items_text_as(items, n - 1, wide_as_float) + seq![','] + json_text_as(items[n - 1], wide_as_float)
    }
}

/// The first `n` entries as `"key":value`, comma separated.
pub open spec fn entries_text_as(es: Seq<(String, JNode)>, n: int, wide_as_float: bool) -> Seq<char>
    decreases es, n,
{
    if n <= 0 || n > es.len() {
        Seq::empty()
    } else if n == 1 {
        json_string(es[0].0@) + seq![':'] + json_text_as(es[0].1, wide_as_float)
    } else {
        entries_text_as(es, n - 1, wide_as_float) + seq![','] + json_string(es[n - 1].0@) + seq![':']
            + json_text_as(es[n - 1].1, wide_as_float)
    }
}

fn hex(d: u32) -> (c: char)
    requires
        d < 16,
    ensures
        c == hex_digit(d as nat),
{
    if d == 0 { '0' } else if d == 1 { '1' } else if d == 2 { '2' } else if d == 3 { '3' }
    else if d == 4 { '4' } else if d == 5 { '5' } else if d == 6 { '6' } else if d == 7 { '7' }
    else if d == 8 { '8' } else if d == 9 { '9' } else if d == 10 { 'a' } else if d == 11 { 'b' }
    else if d == 12 { 'c' } else if d == 13 { 'd' } else if d == 14 { 'e' } else { 'f' }
}

/// Appends a JSON string literal.
pub fn push_json_string(out: &mut String, s: &str)
    ensures
        final(out)@ == old(out)@ + json_string(s@),
{
    let cs = chars_of(s);
    push_char(out, '"');
    let ghost start = out@;
    let mut i: usize = 0;
    while i < cs.len()
        invariant
            i <= cs@.len(),
            cs@ == s@,
            start == old(out)@ + seq!['"'],
            out@ == start + escaped(cs@.subrange(0, i as int)),
        decreases cs@.len() - i,
    {
        let c = cs[i];
        let ghost before = out@;
        if c == '"' {
            push_char(out, '\\');
            push_char(out, '"');
        } else if c == '\\' {
            push_char(out, '\\');
            push_char(out, '\\');
        } else if c == '\u{8}' {
            push_char(out, '\\');
            push_char(out, 'b');
        } else if c == '\u{c}' {
            push_char(out, '\\');
            push_char(out, 'f');
        } else if c == '\n' {
            push_char(out, '\\');
            push_char(out, 'n');
        } else if c == '\r' {
            push_char(out, '\\');
            push_char(out, 'r');
        } else if c == '\t' {
            push_char(out, '\\');
            push_char(out, 't');
        } else if (c as u32) < 0x20 {
            push_char(out, '\\');
            push_char(out, 'u');
            push_char(out, '0');
            push_char(out, '0');
            push_char(out, hex(c as u32 / 16));
            push_char(out, hex(c as u32 % 16));
        } else {
            push_char(out, c);
        }
        proof {
            let q = cs@.subrange(0, i + 1);
            assert(q.drop_last() =~= cs@.subrange(0, i as int));
            assert(q.last() == c);
            assert(out@ =~= before + escape_char(c));
        }
        i = i + 1;
    }
    assert(cs@.subrange(0, cs@.len() as int) =~= cs@);
    push_char(out, '"');
    assert(final(out)@ =~= old(out)@ + json_string(s@));
}

/// Appends the compact JSON text of a node, its numbers written by `number_text`.
pub fn push_json_as(out: &mut String, n: &JNode, wide_as_float: bool)
    ensures
        final(out)@ == old(out)@ + json_text_as(*n, wide_as_float),
    decreases n,
{
    match n {
        JNode::Scalar(JScalar::Null) => append(out, "null"),
        JNode::Scalar(JScalar::Bool(b)) => {
            if *b {
                append(out, "true");
            } else {
                append(out, "false");
            }
        },
        JNode::Scalar(JScalar::Number(s)) => match canonical_json(s.as_str()) {
            Some(t) => {
                append(out, t.as_str());
                if wide_as_float && beyond_i64_text(t.as_str()) {
                    append(out, ".0");
                }
            },
            None => push_json_string(out, s.as_str()),
        },
        JNode::Scalar(JScalar::String(s)) => push_json_string(out, s.as_str()),
        JNode::Array { items, collapsed } => {
            push_char(out, '[');
            let ghost start = out@;
            let mut i: usize = 0;
            while i < items.len()
                invariant
                    *n == (JNode::Array { items: *items, collapsed: *collapsed }),
                    i <= items@.len(),
                    out@ == start + items_text_as(items@, i as int, wide_as_float),
                decreases items@.len() - i,
            {
                if i > 0 {
                    push_char(out, ',');
                }
                proof {
                    assert(decreases_to!(*n => n->items));
                    assert(decreases_to!(*items => items@));
                    assert(decreases_to!(items@ => items@[i as int]));
                }
                push_json_as(out, &items[i], wide_as_float);
                i = i + 1;
            }
            push_char(out, ']');
            assert(final(out)@ =~= old(out)@ + json_text_as(*n, wide_as_float));
        },
        JNode::Object { entries, collapsed } => {
            push_char(out, '{');
            let ghost start = out@;
            let mut i: usize = 0;
            while i < entries.len()
                invariant
                    *n == (JNode::Object { entries: *entries, collapsed: *collapsed }),
                    i <= entries@.len(),
                    out@ == start + entries_text_as(entries@, i as int, wide_as_float),
                decreases entries@.len() - i,
            {
                if i > 0 {
                    push_char(out, ',');
                }
                push_json_string(out, entries[i].0.as_str());
                push_char(out, ':');
                proof {
                    assert(decreases_to!(*n => n->entries));
                    assert(decreases_to!(*entries => entries@));
                    assert(decreases_to!(entries@ => entries@[i as int]));
                    assert(decreases_to!(entries@[i as int] => entries@[i as int].1));
                }
                push_json_as(out, &entries[i].1, wide_as_float);
                i = i + 1;
            }
            push_char(out, '}');
            assert(final(out)@ =~= old(out)@ + json_text_as(*n, wide_as_float));
        },
    }
}

/// Appends the compact JSON text of a node.
pub fn push_json(out: &mut String, n: &JNode)
    ensures
        final(out)@ == old(out)@ + json_text(*n),
{
    push_json_as(out, n, false);
}

/// The compact JSON text of a node.
pub fn to_json_text(n: &JNode) -> (s: String)
    ensures
        s@ == json_text(*n),
{
    to_json_text_as(n, false)
}

/// The compact JSON text of a node, its numbers written by `number_text`.
pub fn to_json_text_as(n: &JNode, wide_as_float: bool) -> (s: String)
    ensures
        s@ == json_text_as(*n, wide_as_float),
{
    let mut s = String::new();
    push_json_as(&mut s, n, wide_as_float);
    assert(s@ =~= json_text_as(*n, wide_as_float));
    s
}

// ---------------------------------------------------------------------------
// Reading JSON text into a document tree
// ---------------------------------------------------------------------------

#[verifier::external_type_specification]
#[verifier::external_body]
pub struct ExJsonValue(serde_json::Value);

/// What a JSON value is at one place, without what lies below: a scalar, an array by its
/// length, an object by its keys in order.
#[derive(Debug, Clone, PartialEq)]
pub enum JsonLevel {
    Null,
    Bool(bool),
    Number(String),
    Str(String),
    Array(usize),
    Object(Vec<String>),
}

pub enum JsonLevelV {
    Null,
    Bool(bool),
    Number(Seq<char>),
    Str(Seq<char>),
    Array(usize),
    Object(Seq<Seq<char>>),
}

impl DeepView for JsonLevel {
    type V = JsonLevelV;

    open spec fn deep_view(&self) -> JsonLevelV {
        match self {
            JsonLevel::Null => JsonLevelV::Null,
            JsonLevel::Bool(b) => JsonLevelV::Bool(*b),
            JsonLevel::Number(t) => JsonLevelV::Number(t@),
            JsonLevel::Str(t) => JsonLevelV::Str(t@),
            JsonLevel::Array(n) => JsonLevelV::Array(*n),
            JsonLevel::Object(ks) => JsonLevelV::Object(ks.deep_view()),
        }
    }
}

/// What `serde_json` finds at the JSON pointer `ptr` (RFC 6901) in the value it reads from
/// the text `t`: the level there (numbers written back with `Number::to_string`, object keys
/// in their order), or nothing when the pointer leads nowhere or the text does not read.
pub uninterp spec fn json_level(t: Seq<char>, ptr: Seq<char>) -> Option<JsonLevelV>;

/// The message `serde_json` gives when the text `t` does not read as a JSON value.
pub uninterp spec fn json_read_error(t: Seq<char>) -> Seq<char>;

/// A JSON text read by `serde_json`, kept with the value read from it. Only `read_json`
/// makes one, so the value is always the one read from the text.
pub struct JsonDoc {
    text: String,
    value: serde_json::Value,
}

impl JsonDoc {
    /// The text the document was read from.
    pub closed spec fn text(&self) -> Seq<char> {
        self.text@
    }
}

/// `serde_json::from_str::<serde_json::Value>(s)`: the document, or the reader's message.
/// Whether it reads is what `canonical_json` also finds (the same reader).
#[verifier::external_body]
fn read_json(s: &str) -> (r: Result<JsonDoc, String>)
    ensures
        r is Ok <==> json_canonical(s@) is Some,
        r matches Ok(d) ==> d.text() == s@,
        r matches Err(e) ==> e@ == json_read_error(s@),
{
    let value: serde_json::Value = serde_json::from_str(s).map_err(|e| e.to_string())?;
    Ok(JsonDoc { text: s.to_string(), value })
}

/// `serde_json::Value::pointer(ptr)` on the document's value, the level found there told
/// apart by variant: what `json_level` names for the document's text.
#[verifier::external_body]
fn json_at(d: &JsonDoc, ptr: &str) -> (r: Option<JsonLevel>)
    ensures
        r.deep_view() == json_level(d.text(), ptr@),
{
    match d.value.pointer(ptr) {
        None => None,
        Some(serde_json::Value::Null) => Some(JsonLevel::Null),
        Some(serde_json::Value::Bool(b)) => Some(JsonLevel::Bool(*b)),
        Some(serde_json::Value::Number(n)) => Some(JsonLevel::Number(n.to_string())),
        Some(serde_json::Value::String(t)) => Some(JsonLevel::Str(t.clone())),
        Some(serde_json::Value::Array(a)) => Some(JsonLevel::Array(a.len())),
        Some(serde_json::Value::Object(m)) => Some(JsonLevel::Object(m.keys().cloned().collect())),
    }
}

/// The key `k` as a JSON pointer step: `~` written `~0`, `/` written `~1`.
pub open spec fn ptr_token(k: Seq<char>) -> Seq<char>
    decreases k.len(),
{
    if k.len() == 0 {
        Seq::empty()
    } else {
        ptr_token(k.drop_last()) + if k.last() == '~' {
            seq!['~', '0']
        } else if k.last() == '/' {
            seq!['~', '1']
        } else {
            seq![k.last()]
        }
    }
}

/// The pointer to the item `i` of the array at `ptr`.
pub open spec fn item_ptr(ptr: Seq<char>, i: nat) -> Seq<char> {
    ptr + seq!['/'] + decimal(i)
}

/// The pointer to the entry `k` of the object at `ptr`.
pub open spec fn entry_ptr(ptr: Seq<char>, k: Seq<char>) -> Seq<char> {
    ptr + seq!['/'] + ptr_token(k)
}

/// The key under which `toml` hands on a date-time: a table with this one key holding its
/// text (`toml_datetime::datetime::FIELD`).
pub open spec fn toml_date_key() -> Seq<char> {
    "$__toml_private_datetime"@
}

/// A table that stands for a TOML date-time: its only key is `toml_date_key`, holding a
/// string.
pub open spec fn date_table(t: Seq<char>, ptr: Seq<char>, keys: Seq<Seq<char>>) -> Option<Seq<char>> {
    if keys.len() == 1 && keys[0] == toml_date_key() {
        match json_level(t, entry_ptr(ptr, keys[0])) {
            Some(JsonLevelV::Str(x)) => Some(x),
            _ => None,
        }
    } else {
        None
    }
}

/// `n` is the tree of the value at `ptr` in the JSON text `t`, met within `fuel` levels:
/// scalars as they are (a number by its text), arrays and objects unfolded with their items
/// and entries in order; with `dates`, a date-time table becomes its text.
pub open spec fn json_tree(n: JNode, t: Seq<char>, ptr: Seq<char>, fuel: nat, dates: bool) -> bool
    decreases fuel,
{
    fuel > 0 && match json_level(t, ptr) {
        Some(JsonLevelV::Null) => n == JNode::Scalar(JScalar::Null),
        Some(JsonLevelV::Bool(b)) => n == JNode::Scalar(JScalar::Bool(b)),
        Some(JsonLevelV::Number(x)) => n matches JNode::Scalar(JScalar::Number(s)) && s@ == x,
        Some(JsonLevelV::Str(x)) => n matches JNode::Scalar(JScalar::String(s)) && s@ == x,
        Some(JsonLevelV::Array(len)) => n matches JNode::Array { items, collapsed } && !collapsed && items@.len() == len
            && forall|i: int| 0 <= i < len ==> json_tree(#[trigger] items@[i], t, item_ptr(ptr, i as nat), (fuel - 1) as nat, dates),
        Some(JsonLevelV::Object(keys)) => if dates && date_table(t, ptr, keys) is Some {
            n matches JNode::Scalar(JScalar::String(s)) && s@ == date_table(t, ptr, keys)->0
        } else {
            n matches JNode::Object { entries, collapsed } && !collapsed && entries@.len() == keys.len()
                && forall|i: int| 0 <= i < keys.len() ==> (#[trigger] entries@[i]).0@ == keys[i] && json_tree(
                entries@[i].1,
                t,
                entry_ptr(ptr, keys[i]),
                (fuel - 1) as nat,
                dates,
            )
        },
        None => false,
    }
}

/// The value at `ptr` in the JSON text `t` can be walked within `fuel` levels: every place
/// the walk asks about is found.
pub open spec fn json_walks(t: Seq<char>, ptr: Seq<char>, fuel: nat, dates: bool) -> bool
    decreases fuel,
{
    fuel > 0 && match json_level(t, ptr) {
        Some(JsonLevelV::Array(len)) => forall|i: int| 0 <= i < len ==> json_walks(t, #[trigger] item_ptr(ptr, i as nat), (fuel - 1) as nat, dates),
        Some(JsonLevelV::Object(keys)) => (dates && date_table(t, ptr, keys) is Some) || forall|i: int|
            0 <= i < keys.len() ==> json_walks(t, #[trigger] entry_ptr(ptr, keys[i]), (fuel - 1) as nat, dates),
        Some(_) => true,
        None => false,
    }
}

fn push_ptr_token(out: &mut String, k: &str)
    ensures
        final(out)@ == old(out)@ + ptr_token(k@),
{
    let cs = chars_of(k);
    let mut i: usize = 0;
    while i < cs.len()
        invariant
            i <= cs@.len(),
            cs@ == k@,
            out@ == old(out)@ + ptr_token(cs@.subrange(0, i as int)),
        decreases cs@.len() - i,
    {
        let c = cs[i];
        assert(cs@.subrange(0, i + 1).drop_last() =~= cs@.subrange(0, i as int));
        if c == '~' {
            push_char(out, '~');
            push_char(out, '0');
        } else if c == '/' {
            push_char(out, '~');
            push_char(out, '1');
        } else {
            push_char(out, c);
        }
        i = i + 1;
        assert(out@ =~= old(out)@ + ptr_token(cs@.subrange(0, i as int)));
    }
    assert(cs@.subrange(0, cs@.len() as int) =~= k@);
}

fn child_ptr_item(ptr: &String, i: usize) -> (r: String)
    ensures
        r@ == item_ptr(ptr@, i as nat),
{
    let mut r = ptr.clone();
    push_char(&mut r, '/');
    push_decimal(&mut r, i);
    r
}

fn child_ptr_entry(ptr: &String, k: &str) -> (r: String)
    ensures
        r@ == entry_ptr(ptr@, k@),
{
    let mut r = ptr.clone();
    push_char(&mut r, '/');
    push_ptr_token(&mut r, k);
    r
}

/// The date-time text of a table, when it stands for one (see `date_table`).
fn date_table_text(d: &JsonDoc, ptr: &String, keys: &Vec<String>) -> (r: Option<String>)
    ensures
        r.deep_view() == date_table(d.text(), ptr@, keys.deep_view()),
{
    proof {
        reveal_strlit("$__toml_private_datetime");
    }
    if keys.len() == 1 && keys[0] == lit("$__toml_private_datetime") {
        let p = child_ptr_entry(ptr, keys[0].as_str());
        match json_at(d, p.as_str()) {
            Some(JsonLevel::Str(x)) => Some(x),
            _ => None,
        }
    } else {
        None
    }
}

/// Walks the value at `ptr` in the document into a tree (see `json_tree`), or nothing when
/// the walk cannot be made within `fuel` levels (see `json_walks`).
fn tree_at(d: &JsonDoc, ptr: &String, fuel: usize, dates: bool) -> (r: Option<JNode>)
    ensures
        r is Some <==> json_walks(d.text(), ptr@, fuel as nat, dates),
        r matches Some(n) ==> json_tree(n, d.text(), ptr@, fuel as nat, dates),
    decreases fuel,
{
    if fuel == 0 {
        return None;
    }
    let ghost t = d.text();
    let ghost f: nat = (fuel - 1) as nat;
    assert(f == ((fuel as nat) - 1) as nat);
    match json_at(d, ptr.as_str()) {
        None => None,
        Some(JsonLevel::Null) => Some(JNode::Scalar(JScalar::Null)),
        Some(JsonLevel::Bool(b)) => Some(JNode::Scalar(JScalar::Bool(b))),
        Some(JsonLevel::Number(x)) => Some(JNode::Scalar(JScalar::Number(x))),
        Some(JsonLevel::Str(x)) => Some(JNode::Scalar(JScalar::String(x))),
        Some(JsonLevel::Array(len)) => {
            let mut items: Vec<JNode> = Vec::new();
            let mut i: usize = 0;
            while i < len
                invariant
                    0 < fuel,
                    f == ((fuel as nat) - 1) as nat,
                    t == d.text(),
                    json_level(t, ptr@) == Some(JsonLevelV::Array(len)),
                    i <= len,
                    items@.len() == i,
                    forall|k: int| 0 <= k < i ==> json_tree(#[trigger] items@[k], t, item_ptr(ptr@, k as nat), f, dates),
                    forall|k: int| 0 <= k < i ==> json_walks(t, #[trigger] item_ptr(ptr@, k as nat), f, dates),
                decreases len - i,
            {
                let p = child_ptr_item(ptr, i);
                match tree_at(d, &p, fuel - 1, dates) {
                    Some(n) => {
                        items.push(n);
                    },
                    None => {
                        let ghost ii: int = i as int;
                        assert(item_ptr(ptr@, ii as nat) == item_ptr(ptr@, i as nat));
                        assert(!json_walks(t, item_ptr(ptr@, ii as nat), f, dates));
                        assert(!json_walks(t, ptr@, fuel as nat, dates));
                        return None;
                    },
                }
                i = i + 1;
            }
            let n = JNode::Array { items, collapsed: false };
            assert(json_walks(t, ptr@, fuel as nat, dates));
            assert(json_tree(n, t, ptr@, fuel as nat, dates));
            Some(n)
        },
        Some(JsonLevel::Object(keys)) => {
            if dates {
                match date_table_text(d, ptr, &keys) {
                    Some(x) => {
                        return Some(JNode::Scalar(JScalar::String(x)));
                    },
                    None => {},
                }
            }
            let ghost kv = keys.deep_view();
            let mut entries: Vec<(String, JNode)> = Vec::new();
            let mut i: usize = 0;
            while i < keys.len()
                invariant
                    0 < fuel,
                    f == ((fuel as nat) - 1) as nat,
                    t == d.text(),
                    kv == keys.deep_view(),
                    json_level(t, ptr@) == Some(JsonLevelV::Object(kv)),
                    !(dates && date_table(t, ptr@, kv) is Some),
                    i <= keys@.len(),
                    entries@.len() == i,
                    forall|k: int| 0 <= k < i ==> (#[trigger] entries@[k]).0@ == kv[k] && json_tree(entries@[k].1, t,
                        entry_ptr(ptr@, kv[k]), f, dates),
                    forall|k: int| 0 <= k < i ==> json_walks(t, #[trigger] entry_ptr(ptr@, kv[k]), f, dates),
                decreases keys@.len() - i,
            {
                let p = child_ptr_entry(ptr, keys[i].as_str());
                match tree_at(d, &p, fuel - 1, dates) {
                    Some(n) => {
                        entries.push((keys[i].clone(), n));
                    },
                    None => {
                        assert(!json_walks(t, entry_ptr(ptr@, kv[i as int]), f, dates));
                        assert(!json_walks(t, ptr@, fuel as nat, dates));
                        return None;
                    },
                }
                i = i + 1;
            }
            let n = JNode::Object { entries, collapsed: false };
            assert(json_walks(t, ptr@, fuel as nat, dates));
            assert(json_tree(n, t, ptr@, fuel as nat, dates));
            Some(n)
        },
    }
}

/// The tree of a JSON text: the document `serde_json` reads from it walked from its root
/// (see `json_tree`; with `dates`, TOML date-time tables become their text), or the reader's
/// message; `None` in the `Ok` place when the walk cannot be made.
pub fn read_json_tree(s: &str, dates: bool) -> (r: Result<Option<JNode>, String>)
    ensures
        match r {
            Err(e) => json_canonical(s@) is None && e@ == json_read_error(s@),
            Ok(None) => json_canonical(s@) is Some && !json_walks(s@, Seq::empty(), usize::MAX as nat, dates),
            Ok(Some(n)) => json_canonical(s@) is Some && json_walks(s@, Seq::empty(), usize::MAX as nat, dates)
                && json_tree(n, s@, Seq::empty(), usize::MAX as nat, dates),
        },
{
    let d = match read_json(s) {
        Ok(d) => d,
        Err(e) => {
            return Err(e);
        },
    };
    let root = String::new();
    Ok(tree_at(&d, &root, usize::MAX, dates))
}

} // verus!
