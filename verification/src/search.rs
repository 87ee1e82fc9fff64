//! Searching the listing: which rows a query matches, by key name or by scalar value, without
//! regard to case.
use vstd::prelude::*;
use crate::diff::{scalar_str, scalar_str_spec};
use crate::redact::{lowercase, to_lowercase};
use crate::text::chars_of;
use crate::tree::{get_node_at_path, get_spec, FlatRow, JNode, RowV};

verus! {

/// `needle` occurs in `hay` at `i`.
pub open spec fn occurs_at(hay: Seq<char>, needle: Seq<char>, i: int) -> bool {
    0 <= i && i + needle.len() <= hay.len() && hay.subrange(i, i + needle.len()) == needle
}

/// `needle` occurs somewhere in `hay`.
pub open spec fn occurs_in(hay: Seq<char>, needle: Seq<char>) -> bool {
    exists|i: int| #[trigger] occurs_at(hay, needle, i)
}

/// Whether `needle` occurs in `hay`.
pub fn contains_text(hay: &str, needle: &str) -> (r: bool)
    ensures
        r == occurs_in(hay@, needle@),
{
    let h = chars_of(hay);
    let n = chars_of(needle);
    if n.len() > h.len() {
        assert forall|i: int| !#[trigger] occurs_at(hay@, needle@, i) by {}
        return false;
    }
    let hl = h.len();
    let mut i: usize = 0;
    while n.len() <= h.len() - i
        invariant
            h@ == hay@,
            n@ == needle@,
            n@.len() <= h@.len(),
            hl == h@.len(),
            i <= h@.len(),
            forall|m: int| 0 <= m < i ==> !#[trigger] occurs_at(hay@, needle@, m),
        decreases h@.len() - i,
    {
        let mut j: usize = 0;
        let mut ok = true;
        while ok && j < n.len()
            invariant
                h@ == hay@,
                n@ == needle@,
                i + n@.len() <= h@.len(),
                hl == h@.len(),
                j <= n@.len(),
                forall|m: int| 0 <= m < j ==> h@[i + m] == n@[m],
                !ok ==> j < n@.len() && h@[i + j] != n@[j as int],
            decreases n@.len() - j, if ok { 1int } else { 0int },
        {
            if h[i + j] != n[j] {
                ok = false;
            } else {
                j = j + 1;
            }
        }
        if ok {
            assert(hay@.subrange(i as int, i + needle@.len()) =~= needle@);
            assert(occurs_at(hay@, needle@, i as int));
            return true;
        }
        proof {
            assert(h@[i + j] != n@[j as int]);
            if occurs_at(hay@, needle@, i as int) {
                assert(hay@.subrange(i as int, i + needle@.len())[j as int] == h@[i + j]);
            }
        }
        i = i + 1;
    }
    assert forall|m: int| !#[trigger] occurs_at(hay@, needle@, m) by {
        if 0 <= m && m + needle@.len() <= hay@.len() {
            assert(m < i);
        }
    }
    false
}

/// A row matches the query `q`: the lower-cased query occurs in the lower-cased key name of
/// the row, or in the lower-cased text of the scalar the row lists.
pub open spec fn row_matches(row: RowV, root: JNode, q: Seq<char>) -> bool {
    let lq = lowercase(q);
    ||| row.key matches Some(k) && occurs_in(lowercase(k), lq)
    ||| get_spec(root, row.path) matches Some(JNode::Scalar(s)) && occurs_in(lowercase(scalar_str_spec(s)), lq)
}

/// Indexes of the first `n` rows that match the query, in order; none for an empty query.
pub open spec fn search_hits(rows: Seq<RowV>, root: JNode, q: Seq<char>, n: int) -> Seq<usize>
    decreases n,
{
    if n <= 0 || n > rows.len() || q.len() == 0 {
        Seq::empty()
    } else if row_matches(rows[n - 1], root, q) {
        search_hits(rows, root, q, n - 1).push((n - 1) as usize)
    } else {
        search_hits(rows, root, q, n - 1)
    }
}

/// Every hit is the index of a row, and the hits rise.
pub proof fn lemma_search_hits(rows: Seq<RowV>, root: JNode, q: Seq<char>, n: int)
    requires
        0 <= n <= rows.len(),
        rows.len() <= usize::MAX,
    ensures
        forall|i: int| 0 <= i < search_hits(rows, root, q, n).len() ==> #[trigger] search_hits(rows, root, q, n)[i] < n,
        forall|i: int, j: int| 0 <= i < j < search_hits(rows, root, q, n).len() ==> search_hits(rows, root, q, n)[i]
            < search_hits(rows, root, q, n)[j],
    decreases n,
{
    if n > 0 && q.len() > 0 {
        lemma_search_hits(rows, root, q, n - 1);
        let prev = search_hits(rows, root, q, n - 1);
        let cur = search_hits(rows, root, q, n);
        assert(((n - 1) as usize) as int == n - 1);
        assert forall|i: int| 0 <= i < cur.len() implies #[trigger] cur[i] < n by {
            if i < prev.len() {
                assert(cur[i] == prev[i]);
            }
        }
        assert forall|i: int, j: int| 0 <= i < j < cur.len() implies cur[i] < cur[j] by {
            if j < prev.len() {
                assert(cur[i] == prev[i] && cur[j] == prev[j]);
            } else {
                assert(cur[i] == prev[i]);
            }
        }
    }
}

/// Whether the row `row` of the listing of `root` matches the query `q`.
pub fn row_matches_query(row: &FlatRow, root: &JNode, q: &str) -> (r: bool)
    ensures
        r == row_matches(row.deep_view(), *root, q@),
{
    let lq = to_lowercase(q);
    let by_key = match &row.key {
        Some(k) => contains_text(to_lowercase(k.as_str()).as_str(), lq.as_str()),
        None => false,
    };
    if by_key {
        return true;
    }
    match get_node_at_path(root, row.path.as_slice()) {
        Some(JNode::Scalar(s)) => contains_text(to_lowercase(scalar_str(s).as_str()).as_str(), lq.as_str()),
        _ => false,
    }
}

/// The indexes of the rows that match the query, in order (none for an empty query).
pub fn search_matches(rows: &Vec<FlatRow>, root: &JNode, q: &str) -> (r: Vec<usize>)
    ensures
        r@ == search_hits(rows.deep_view(), *root, q@, rows@.len() as int),
{
    let mut out: Vec<usize> = Vec::new();
    let ghost rv = rows.deep_view();
    if q.is_empty() {
        return out;
    }
    let mut i: usize = 0;
    while i < rows.len()
        invariant
            rv == rows.deep_view(),
            q@.len() > 0,
            i <= rows@.len(),
            out@ == search_hits(rv, *root, q@, i as int),
        decreases rows@.len() - i,
    {
        assert(rv[i as int] == rows@[i as int].deep_view());
        if row_matches_query(&rows[i], root, q) {
            out.push(i);
        }
        i = i + 1;
    }
    out
}

/// A row is among the hits of a non-empty query exactly when the lower-cased query occurs in
/// its lower-cased key name or in the lower-cased text of the scalar it lists, whatever the
/// row (a field, an array item or the root); an empty query has no hits.
pub proof fn law_search_hits_are_the_matching_rows(rows: Seq<RowV>, root: JNode, q: Seq<char>, i: int)
    requires
        0 <= i < rows.len(),
        rows.len() <= usize::MAX,
    ensures
        search_hits(rows, root, q, rows.len() as int).contains(i as usize) <==> (q.len() > 0 && (
            (rows[i].key matches Some(k) && occurs_in(lowercase(k), lowercase(q)))
            || (get_spec(root, rows[i].path) matches Some(JNode::Scalar(s)) && occurs_in(
                lowercase(scalar_str_spec(s)),
                lowercase(q),
            )))),
{
    lemma_hits_upto(rows, root, q, i, rows.len() as int);
}

proof fn lemma_hits_upto(rows: Seq<RowV>, root: JNode, q: Seq<char>, i: int, n: int)
    requires
        0 <= i < rows.len(),
        0 <= n <= rows.len(),
        rows.len() <= usize::MAX,
    ensures
        search_hits(rows, root, q, n).contains(i as usize) <==> (i < n && q.len() > 0 && row_matches(rows[i], root, q)),
    decreases n,
{
    if n > 0 && q.len() > 0 {
        lemma_hits_upto(rows, root, q, i, n - 1);
        lemma_search_hits(rows, root, q, n - 1);
        let prev = search_hits(rows, root, q, n - 1);
        assert(((n - 1) as usize) as int == n - 1);
        assert((i as usize) as int == i);
        if row_matches(rows[n - 1], root, q) {
            let cur = prev.push((n - 1) as usize);
            assert(search_hits(rows, root, q, n) == cur);
            if cur.contains(i as usize) && !prev.contains(i as usize) {
                let k = choose|k: int| 0 <= k < cur.len() && cur[k] == i as usize;
                assert(k == prev.len());
            }
            if i == n - 1 {
                assert(cur[prev.len() as int] == i as usize);
            }
            if prev.contains(i as usize) {
                let k = choose|k: int| 0 <= k < prev.len() && prev[k] == i as usize;
                assert(cur[k] == i as usize);
            }
        }
        if i == n - 1 && prev.contains(i as usize) {
            let k = choose|k: int| 0 <= k < prev.len() && prev[k] == i as usize;
            assert(prev[k] < n - 1);
        }
    }
}

/// There are no more hits than rows searched.
pub proof fn lemma_search_hits_len(rows: Seq<RowV>, root: JNode, q: Seq<char>, n: int)
    requires
        0 <= n,
    ensures
        search_hits(rows, root, q, n).len() <= n,
    decreases n,
{
    if n > 0 {
        lemma_search_hits_len(rows, root, q, n - 1);
    }
}

} // verus!
