//! Masking sensitive values before an export. Mask-only: key names and the document's shape
//! stay, only values are replaced.
//!
//! Two passes share one list of names: an object key equal to a name (ignoring case) has its
//! whole value masked; and every string value is scanned for `name=value` occurrences (URL
//! query style), of which only the value part is masked.
use vstd::prelude::*;
use crate::text::{append, chars_of, push_char};
use crate::tree::{deep_same, JNode, JScalar};

verus! {

/// What replaces a masked value.
pub const REDACT_MASK: &'static str = "***REDACTED***";

#[verifier::external_type_specification]
#[verifier::external_body]
pub struct ExRegex(regex::Regex);

/// What `str::to_lowercase` gives for `s`.
pub uninterp spec fn lowercase(s: Seq<char>) -> Seq<char>;

/// The characters `regex` treats as meta characters.
pub open spec fn is_regex_meta(c: char) -> bool {
    c == '\\' || c == '.' || c == '+' || c == '*' || c == '?' || c == '(' || c == ')' || c == '|' || c == '['
        || c == ']' || c == '{' || c == '}' || c == '^' || c == '$' || c == '#' || c == '&' || c == '-' || c == '~'
}

/// What `regex::escape` gives for `s`: each meta character preceded by a backslash.
pub open spec fn regex_escaped(s: Seq<char>) -> Seq<char>
    decreases s.len(),
{
    if s.len() == 0 {
        Seq::empty()
    } else {
        regex_escaped(s.drop_last()) + if is_regex_meta(s.last()) { seq!['\\', s.last()] } else { seq![s.last()] }
    }
}

/// Whether `regex::Regex::new` accepts the pattern `p`.
pub uninterp spec fn regex_valid(p: Seq<char>) -> bool;

/// What `Regex::replace_all` gives for the regex compiled from `p`, the text `s` and the
/// replacement template `rep` (where `$1` stands for the first group).
pub uninterp spec fn regex_replace_all(p: Seq<char>, s: Seq<char>, rep: Seq<char>) -> Seq<char>;

/// `str::to_lowercase`; the result is named by the text alone.
#[verifier::external_body]
pub(crate) fn to_lowercase(s: &str) -> (r: String)
    ensures
        r@ == lowercase(s@),
{
    s.to_lowercase()
}

fn is_meta(c: char) -> (r: bool)
    ensures
        r == is_regex_meta(c),
{
    c == '\\' || c == '.' || c == '+' || c == '*' || c == '?' || c == '(' || c == ')' || c == '|' || c == '['
        || c == ']' || c == '{' || c == '}' || c == '^' || c == '$' || c == '#' || c == '&' || c == '-' || c == '~'
}

/// `s` with a backslash before each character that `regex` treats as a meta character, as
/// `regex::escape` writes it.
fn escape_for_regex(s: &str) -> (r: String)
    ensures
        r@ == regex_escaped(s@),
{
    let cs = chars_of(s);
    let mut r = String::new();
    let mut i: usize = 0;
    while i < cs.len()
        invariant
            cs@ == s@,
            i <= cs@.len(),
            r@ == regex_escaped(cs@.take(i as int)),
        decreases cs@.len() - i,
    {
        assert(cs@.take(i + 1).drop_last() =~= cs@.take(i as int));
        if is_meta(cs[i]) {
            push_char(&mut r, '\\');
        }
        push_char(&mut r, cs[i]);
        i = i + 1;
        assert(r@ =~= regex_escaped(cs@.take(i as int)));
    }
    assert(cs@.take(cs@.len() as int) =~= cs@);
    r
}

/// `regex::Regex::new(p).ok()`: whether it compiles is named by the pattern alone.
#[verifier::external_body]
fn compile_regex(p: &str) -> (r: Option<regex::Regex>)
    ensures
        r is Some == regex_valid(p@),
{
    regex::Regex::new(p).ok()
}

/// A compiled regex together with the pattern it was compiled from.
pub struct InlinePattern {
    pattern: String,
    re: regex::Regex,
}

impl InlinePattern {
    /// The pattern the regex was compiled from.
    pub closed spec fn source(&self) -> Seq<char> {
        self.pattern@
    }

    /// Compiles a pattern; `None` when `regex` refuses it.
    pub fn compile(p: &str) -> (r: Option<InlinePattern>)
        ensures
            r is Some == regex_valid(p@),
            r matches Some(ip) ==> ip.source() == p@,
    {
        match compile_regex(p) {
            Some(re) => Some(InlinePattern { pattern: String::from_str(p), re }),
            None => None,
        }
    }
}

/// `Regex::replace_all(s, rep)` with the regex of `pat`; the result is named by the pattern,
/// the text and the replacement alone.
#[verifier::external_body]
fn replace_all(pat: &InlinePattern, s: &str, rep: &str) -> (r: String)
    ensures
        r@ == regex_replace_all(pat.source(), s@, rep@),
{
    pat.re.replace_all(s, rep).into_owned()
}

/// The names joined with `|`.
pub open spec fn alternation(names: Seq<Seq<char>>) -> Seq<char>
    decreases names.len(),
{
    if names.len() == 0 {
        Seq::empty()
    } else if names.len() == 1 {
        names[0]
    } else {
        alternation(names.drop_last()) + "|"@ + names.last()
    }
}

/// The one regex for all names: a name (escaped, any case, at a word start), `=`, then the
/// value up to the next `&` or white space.
pub open spec fn inline_pattern_text(keys: Seq<Seq<char>>) -> Seq<char> {
    "(?i)\\b("@ + alternation(keys.map_values(|k: Seq<char>| regex_escaped(k))) + ")=([^&\\s]+)"@
}

/// The replacement template: the name as written, `=`, the mask.
pub open spec fn replacement_text() -> Seq<char> {
    "$1="@ + REDACT_MASK@
}

/// The inline pattern in use: none without names or when `regex` refuses it.
pub open spec fn inline_pattern(keys: Seq<Seq<char>>) -> Option<Seq<char>> {
    if keys.len() > 0 && regex_valid(inline_pattern_text(keys)) {
        Some(inline_pattern_text(keys))
    } else {
        None
    }
}

/// The names compared against keys: lower-cased.
pub open spec fn targets(keys: Seq<Seq<char>>) -> Seq<Seq<char>> {
    keys.map_values(|k: Seq<char>| lowercase(k))
}

/// A masked value.
pub open spec fn is_mask(n: JNode) -> bool {
    n matches JNode::Scalar(JScalar::String(s)) && s@ == REDACT_MASK@
}

/// `b` is `a` masked: objects keep their keys, order and folding, a value under a key whose
/// lower-cased form is a target is the mask, every other value is masked in turn; arrays
/// keep their length and folding; a string is passed through the inline pattern when there
/// is one; other scalars stay.
pub open spec fn redacted(a: JNode, b: JNode, target: Seq<Seq<char>>, pat: Option<Seq<char>>) -> bool
    decreases a,
{
    match a {
        JNode::Object { entries: ea, collapsed: ca } => match b {
            JNode::Object { entries: eb, collapsed: cb } => {
                &&& cb == ca
                &&& eb@.len() == ea@.len()
                &&& forall|i: int| 0 <= i < ea@.len() ==> (#[trigger] eb@[i]).0 == ea@[i].0
                &&& forall|i: int| 0 <= i < ea@.len() ==> if target.contains(lowercase((#[trigger] ea@[i]).0@)) {
                    is_mask(eb@[i].1)
                } else {
                    redacted(ea@[i].1, eb@[i].1, target, pat)
                }
            },
            _ => false,
        },
        JNode::Array { items: ia, collapsed: ca } => match b {
            JNode::Array { items: ib, collapsed: cb } => {
                &&& cb == ca
                &&& ib@.len() == ia@.len()
                &&& forall|i: int| 0 <= i < ia@.len() ==> redacted(#[trigger] ia@[i], ib@[i], target, pat)
            },
            _ => false,
        },
        JNode::Scalar(JScalar::String(s)) => match b {
            JNode::Scalar(JScalar::String(t)) => t@ == match pat {
                Some(p) => regex_replace_all(p, s@, replacement_text()),
                None => s@,
            },
            _ => false,
        },
        _ => b == a,
    }
}

fn is_target(target: &Vec<String>, key: &String) -> (r: bool)
    ensures
        r == target.deep_view().contains(lowercase(key@)),
{
    let k = to_lowercase(key.as_str());
    let mut i: usize = 0;
    while i < target.len()
        invariant
            i <= target@.len(),
            k@ == lowercase(key@),
            forall|j: int| 0 <= j < i ==> target.deep_view()[j] != k@,
        decreases target@.len() - i,
    {
        if target[i] == k {
            assert(target.deep_view()[i as int] == k@);
            return true;
        }
        i = i + 1;
    }
    false
}

fn mask_string() -> (r: String)
    ensures
        r@ == REDACT_MASK@,
{
    String::from_str(REDACT_MASK)
}

fn redact_node(
    n: &JNode,
    target: &Vec<String>,
    inline: &Option<InlinePattern>,
    rep: &String,
) -> (r: JNode)
    requires
        rep@ == replacement_text(),
    ensures
        redacted(*n, r, target.deep_view(), match inline {
            Some(ip) => Some(ip.source()),
            None => None,
        }),
    decreases n,
{
    let ghost pat = match inline {
        Some(ip) => Some(ip.source()),
        None => None::<Seq<char>>,
    };
    match n {
        JNode::Object { entries, collapsed } => {
            let mut out: Vec<(String, JNode)> = Vec::new();
            let mut i: usize = 0;
            while i < entries.len()
                invariant
                    *n == (JNode::Object { entries: *entries, collapsed: *collapsed }),
                    rep@ == replacement_text(),
                    pat == (match inline {
                        Some(ip) => Some(ip.source()),
                        None => None::<Seq<char>>,
                    }),
                    i <= entries@.len(),
                    out@.len() == i,
                    forall|j: int| 0 <= j < i ==> (#[trigger] out@[j]).0 == entries@[j].0,
                    forall|j: int| 0 <= j < i ==> if target.deep_view().contains(lowercase((#[trigger] entries@[j]).0@)) {
                        is_mask(out@[j].1)
                    } else {
                        redacted(entries@[j].1, out@[j].1, target.deep_view(), pat)
                    },
                decreases entries@.len() - i,
            {
                let v = if is_target(target, &entries[i].0) {
                    JNode::Scalar(JScalar::String(mask_string()))
                } else {
                    proof {
                        assert(decreases_to!(*n => n->entries));
                        assert(decreases_to!(*entries => entries@));
                        assert(decreases_to!(entries@ => entries@[i as int]));
                        assert(decreases_to!(entries@[i as int] => entries@[i as int].1));
                    }
                    redact_node(&entries[i].1, target, inline, rep)
                };
                out.push((entries[i].0.clone(), v));
                i = i + 1;
            }
            JNode::Object { entries: out, collapsed: *collapsed }
        },
        JNode::Array { items, collapsed } => {
            let mut out: Vec<JNode> = Vec::new();
            let mut i: usize = 0;
            while i < items.len()
                invariant
                    *n == (JNode::Array { items: *items, collapsed: *collapsed }),
                    rep@ == replacement_text(),
                    pat == (match inline {
                        Some(ip) => Some(ip.source()),
                        None => None::<Seq<char>>,
                    }),
                    i <= items@.len(),
                    out@.len() == i,
                    forall|j: int| 0 <= j < i ==> redacted(#[trigger] items@[j], out@[j], target.deep_view(), pat),
                decreases items@.len() - i,
            {
                proof {
                    assert(decreases_to!(*n => n->items));
                    assert(decreases_to!(*items => items@));
                    assert(decreases_to!(items@ => items@[i as int]));
                }
                let v = redact_node(&items[i], target, inline, rep);
                out.push(v);
                i = i + 1;
            }
            JNode::Array { items: out, collapsed: *collapsed }
        },
        JNode::Scalar(JScalar::String(s)) => match inline {
            Some(ip) => JNode::Scalar(JScalar::String(replace_all(ip, s.as_str(), rep.as_str()))),
            None => JNode::Scalar(JScalar::String(s.clone())),
        },
        JNode::Scalar(JScalar::Number(s)) => JNode::Scalar(JScalar::Number(s.clone())),
        JNode::Scalar(JScalar::Bool(b)) => JNode::Scalar(JScalar::Bool(*b)),
        JNode::Scalar(JScalar::Null) => JNode::Scalar(JScalar::Null),
    }
}

/// The inline pattern's text for the names.
fn build_pattern_text(keys: &Vec<String>) -> (r: String)
    requires
        keys@.len() > 0,
    ensures
        r@ == inline_pattern_text(keys.deep_view()),
{
    let ghost kv = keys.deep_view();
    let ghost esc = kv.map_values(|k: Seq<char>| regex_escaped(k));
    let mut alt = String::new();
    let mut i: usize = 0;
    while i < keys.len()
        invariant
            i <= keys@.len(),
            kv == keys.deep_view(),
            esc == kv.map_values(|k: Seq<char>| regex_escaped(k)),
            alt@ == alternation(esc.subrange(0, i as int)),
        decreases keys@.len() - i,
    {
        if i > 0 {
            append(&mut alt, "|");
        }
        let e = escape_for_regex(keys[i].as_str());
        append(&mut alt, e.as_str());
        proof {
            let q = esc.subrange(0, i + 1);
            assert(q.drop_last() =~= esc.subrange(0, i as int));
            assert(q.last() == regex_escaped(kv[i as int]));
            if i == 0 {
                assert(alt@ =~= alternation(q));
            }
        }
        i = i + 1;
    }
    assert(esc.subrange(0, esc.len() as int) =~= esc);
    let mut p = String::from_str("(?i)\\b(");
    append(&mut p, alt.as_str());
    append(&mut p, ")=([^&\\s]+)");
    p
}

/// The document with every value under a listed key (any case) masked and every
/// `name=value` occurrence inside a string masked in its value part. With no names it is
/// the document itself.
pub fn redact(value: &JNode, keys: &Vec<String>) -> (r: JNode)
    ensures
        redacted(*value, r, targets(keys.deep_view()), inline_pattern(keys.deep_view())),
{
    let ghost kv = keys.deep_view();
    let mut target: Vec<String> = Vec::new();
    let mut i: usize = 0;
    while i < keys.len()
        invariant
            i <= keys@.len(),
            kv == keys.deep_view(),
            target.deep_view() == targets(kv).subrange(0, i as int),
        decreases keys@.len() - i,
    {
        let l = to_lowercase(keys[i].as_str());
        let ghost before = target.deep_view();
        target.push(l);
        assert(kv[i as int] == keys@[i as int]@);
        assert(targets(kv)[i as int] == lowercase(kv[i as int]));
        assert(target.deep_view() =~= before.push(l@));
        assert(target.deep_view() =~= targets(kv).subrange(0, i + 1));
        i = i + 1;
    }
    assert(targets(kv).subrange(0, kv.len() as int) =~= targets(kv));
    let inline = if keys.len() == 0 {
        None
    } else {
        let p = build_pattern_text(keys);
        InlinePattern::compile(p.as_str())
    };
    let mut rep = String::from_str("$1=");
    append(&mut rep, REDACT_MASK);
    redact_node(value, &target, &inline, &rep)
}


// ---------------------------------------------------------------------------
// Laws
// ---------------------------------------------------------------------------

proof fn lemma_redacted_nothing(a: JNode, b: JNode)
    requires
        redacted(a, b, Seq::empty(), None),
    ensures
        deep_same(a, b),
    decreases a,
{
    match a {
        JNode::Object { entries: ea, .. } => {
            let eb = b->entries;
            assert forall|i: int| 0 <= i < ea@.len() implies deep_same((#[trigger] ea@[i]).1, eb@[i].1) by {
                assert(!Seq::<Seq<char>>::empty().contains(lowercase(ea@[i].0@)));
                lemma_redacted_nothing(ea@[i].1, eb@[i].1);
            }
        },
        JNode::Array { items: ia, .. } => {
            let ib = b->items;
            assert forall|i: int| 0 <= i < ia@.len() implies deep_same(#[trigger] ia@[i], ib@[i]) by {
                lemma_redacted_nothing(ia@[i], ib@[i]);
            }
        },
        JNode::Scalar(_) => {},
    }
}

/// With no names to mask, redacting gives a copy of the document.
pub proof fn law_redact_without_names_is_copy(a: JNode, b: JNode)
    requires
        redacted(a, b, targets(Seq::empty()), inline_pattern(Seq::empty())),
    ensures
        deep_same(a, b),
{
    assert(targets(Seq::<Seq<char>>::empty()) =~= Seq::<Seq<char>>::empty());
    lemma_redacted_nothing(a, b);
}

/// `b` has the shape of `a`: the same kinds of nodes, arrays of the same lengths, objects
/// with the same keys in the same order, all the way down except below a key whose
/// lower-cased form is a target.
pub open spec fn shape_kept(a: JNode, b: JNode, target: Seq<Seq<char>>) -> bool
    decreases a,
{
    match a {
        JNode::Object { entries: ea, .. } => match b {
            JNode::Object { entries: eb, .. } => {
                &&& eb@.len() == ea@.len()
                &&& forall|i: int| 0 <= i < ea@.len() ==> (#[trigger] eb@[i]).0 == ea@[i].0
                &&& forall|i: int| 0 <= i < ea@.len() ==> target.contains(lowercase((#[trigger] ea@[i]).0@))
                    || shape_kept(ea@[i].1, eb@[i].1, target)
            },
            _ => false,
        },
        JNode::Array { items: ia, .. } => match b {
            JNode::Array { items: ib, .. } => {
                &&& ib@.len() == ia@.len()
                &&& forall|i: int| 0 <= i < ia@.len() ==> shape_kept(#[trigger] ia@[i], ib@[i], target)
            },
            _ => false,
        },
        JNode::Scalar(_) => b is Scalar,
    }
}

/// Redacting keeps the document's shape and every key name, at every depth; only values
/// change.
pub proof fn law_redact_keeps_keys(a: JNode, b: JNode, target: Seq<Seq<char>>, pat: Option<Seq<char>>)
    requires
        redacted(a, b, target, pat),
    ensures
        shape_kept(a, b, target),
    decreases a,
{
    match a {
        JNode::Object { entries: ea, .. } => {
            let eb = b->entries;
            assert forall|i: int| 0 <= i < ea@.len() implies target.contains(lowercase((#[trigger] ea@[i]).0@))
                || shape_kept(ea@[i].1, eb@[i].1, target) by {
                if !target.contains(lowercase(ea@[i].0@)) {
                    assert(decreases_to!(a => ea));
                    assert(decreases_to!(ea => ea@));
                    assert(decreases_to!(ea@ => ea@[i]));
                    assert(decreases_to!(ea@[i] => ea@[i].1));
                    law_redact_keeps_keys(ea@[i].1, eb@[i].1, target, pat);
                }
            }
        },
        JNode::Array { items: ia, .. } => {
            let ib = b->items;
            assert forall|i: int| 0 <= i < ia@.len() implies shape_kept(#[trigger] ia@[i], ib@[i], target) by {
                assert(decreases_to!(a => ia));
                assert(decreases_to!(ia => ia@));
                assert(decreases_to!(ia@ => ia@[i]));
                law_redact_keeps_keys(ia@[i], ib@[i], target, pat);
            }
        },
        JNode::Scalar(_) => {},
    }
}

/// Redacting an already redacted document changes nothing more (up to equal text), as long
/// as passing a string through the inline pattern twice gives what passing it once gives.
pub proof fn law_redact_twice(a: JNode, b: JNode, c: JNode, target: Seq<Seq<char>>, pat: Option<Seq<char>>)
    requires
        redacted(a, b, target, pat),
        redacted(b, c, target, pat),
        pat matches Some(p) ==> forall|s: Seq<char>|
            #[trigger] regex_replace_all(p, regex_replace_all(p, s, replacement_text()), replacement_text())
                == regex_replace_all(p, s, replacement_text()),
    ensures
        deep_same(b, c),
    decreases a,
{
    match a {
        JNode::Object { entries: ea, .. } => {
            let eb = b->entries;
            let ec = c->entries;
            assert forall|i: int| 0 <= i < eb@.len() implies deep_same((#[trigger] eb@[i]).1, ec@[i].1) by {
                if target.contains(lowercase(ea@[i].0@)) {
                    assert(eb@[i].0 == ea@[i].0);
                } else {
                    assert(decreases_to!(a => ea));
                    assert(decreases_to!(ea => ea@));
                    assert(decreases_to!(ea@ => ea@[i]));
                    assert(decreases_to!(ea@[i] => ea@[i].1));
                    law_redact_twice(ea@[i].1, eb@[i].1, ec@[i].1, target, pat);
                }
            }
        },
        JNode::Array { items: ia, .. } => {
            let ib = b->items;
            let ic = c->items;
            assert forall|i: int| 0 <= i < ib@.len() implies deep_same(#[trigger] ib@[i], ic@[i]) by {
                assert(decreases_to!(a => ia));
                assert(decreases_to!(ia => ia@));
                assert(decreases_to!(ia@ => ia@[i]));
                law_redact_twice(ia@[i], ib@[i], ic@[i], target, pat);
            }
        },
        JNode::Scalar(JScalar::String(s)) => {
            match pat {
                Some(p) => {
                    assert(regex_replace_all(p, regex_replace_all(p, s@, replacement_text()), replacement_text())
                        == regex_replace_all(p, s@, replacement_text()));
                },
                None => {},
            }
        },
        JNode::Scalar(_) => {},
    }
}

} // verus!
