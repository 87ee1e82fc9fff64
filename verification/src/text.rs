//! Small string building blocks shared by the renderers.
use vstd::prelude::*;
use vstd::string::StringExecFns;

verus! {

/// Appends one character to a string (`String::push`).
#[verifier::external_body]
pub(crate) fn push_char(s: &mut String, c: char)
    ensures
        final(s)@ == old(s)@.push(c),
{
    s.push(c);
}

/// The character of a decimal digit.
pub open spec fn digit_char(d: nat) -> char {
    if d == 0 { '0' }
    else if d == 1 { '1' }
    else if d == 2 { '2' }
    else if d == 3 { '3' }
    else if d == 4 { '4' }
    else if d == 5 { '5' }
    else if d == 6 { '6' }
    else if d == 7 { '7' }
    else if d == 8 { '8' }
    else { '9' }
}

/// Decimal notation of a natural number, without sign or leading zeros.
pub open spec fn decimal(n: nat) -> Seq<char>
    decreases n,
{
    if n < 10 {
        seq![digit_char(n)]
    } else {
        decimal(n / 10).push(digit_char(n % 10))
    }
}

fn digit_to_char(d: usize) -> (c: char)
    requires
        d < 10,
    ensures
        c == digit_char(d as nat),
{
    if d == 0 { '0' }
    else if d == 1 { '1' }
    else if d == 2 { '2' }
    else if d == 3 { '3' }
    else if d == 4 { '4' }
    else if d == 5 { '5' }
    else if d == 6 { '6' }
    else if d == 7 { '7' }
    else if d == 8 { '8' }
    else { '9' }
}

/// Appends the decimal notation of `n` to `out`.
pub fn push_decimal(out: &mut String, n: usize)
    ensures
        final(out)@ == old(out)@ + decimal(n as nat),
    decreases n,
{
    if n >= 10 {
        push_decimal(out, n / 10);
        let c = digit_to_char(n % 10);
        push_char(out, c);
        assert(final(out)@ =~= old(out)@ + decimal(n as nat));
    } else {
        let c = digit_to_char(n);
        push_char(out, c);
        assert(final(out)@ =~= old(out)@ + decimal(n as nat));
    }
}

/// Appends the decimal notation of `n` to `out`.
pub fn push_decimal_u64(out: &mut String, n: u64)
    ensures
        final(out)@ == old(out)@ + decimal(n as nat),
    decreases n,
{
    if n >= 10 {
        push_decimal_u64(out, n / 10);
        let c = digit_to_char((n % 10) as usize);
        push_char(out, c);
        assert(final(out)@ =~= old(out)@ + decimal(n as nat));
    } else {
        let c = digit_to_char(n as usize);
        push_char(out, c);
        assert(final(out)@ =~= old(out)@ + decimal(n as nat));
    }
}

/// The decimal notation of `n` as a new string.
pub fn usize_to_string(n: usize) -> (s: String)
    ensures
        s@ == decimal(n as nat),
{
    let mut s = String::new();
    push_decimal(&mut s, n);
    assert(s@ =~= decimal(n as nat));
    s
}

/// A string holding the characters of a literal.
pub fn lit(s: &str) -> (r: String)
    ensures
        r@ == s@,
{
    String::from_str(s)
}

/// Appends a string to another.
pub fn append(out: &mut String, s: &str)
    ensures
        final(out)@ == old(out)@ + s@,
{
    out.append(s);
}

/// `"true"` or `"false"`.
pub open spec fn bool_text(b: bool) -> Seq<char> {
    if b { "true"@ } else { "false"@ }
}

pub fn bool_to_string(b: bool) -> (s: String)
    ensures
        s@ == bool_text(b),
{
    if b { lit("true") } else { lit("false") }
}

/// `s` repeated `n` times.
pub open spec fn repeat(s: Seq<char>, n: nat) -> Seq<char>
    decreases n,
{
    if n == 0 { Seq::empty() } else { repeat(s, (n - 1) as nat) + s }
}

/// `n` copies of `s` are `n` times as long as `s`.
pub proof fn lemma_repeat_len(s: Seq<char>, n: nat)
    ensures
        repeat(s, n).len() == n * s.len(),
    decreases n,
{
    if n > 0 {
        lemma_repeat_len(s, (n - 1) as nat);
        let m = (n - 1) as nat;
        assert(repeat(s, n) == repeat(s, m) + s);
        assert(m * s.len() + s.len() == n * s.len()) by (nonlinear_arith)
            requires
                n == m + 1,
        ;
    } else {
        assert(n * s.len() == 0) by (nonlinear_arith)
            requires
                n == 0,
        ;
    }
}

pub fn repeat_str(s: &str, n: usize) -> (r: String)
    ensures
        r@ == repeat(s@, n as nat),
{
    let mut r = String::new();
    let mut i: usize = 0;
    while i < n
        invariant
            i <= n,
            r@ == repeat(s@, i as nat),
        decreases n - i,
    {
        r.append(s);
        i = i + 1;
    }
    r
}


/// The characters of a string, in order.
pub fn chars_of(s: &str) -> (r: Vec<char>)
    ensures
        r@ == s@,
{
    let mut r: Vec<char> = Vec::new();
    for c in it: s.chars()
        invariant
            it.seq() == s@,
            r@ == it.seq().take(it.index() as int),
    {
        r.push(c);
    }
    r
}

/// A string holding the given characters.
pub fn string_of(cs: &[char]) -> (r: String)
    ensures
        r@ == cs@,
{
    let mut r = String::new();
    let mut i: usize = 0;
    while i < cs.len()
        invariant
            i <= cs@.len(),
            r@ == cs@.take(i as int),
        decreases cs@.len() - i,
    {
        push_char(&mut r, cs[i]);
        i = i + 1;
        assert(r@ =~= cs@.take(i as int));
    }
    assert(cs@.take(cs@.len() as int) =~= cs@);
    r
}


/// Whether `c` has the Unicode `White_Space` property, which `char::is_whitespace` tests:
/// the tab to carriage-return controls, space, next line, no-break space, the Ogham space
/// mark, the spaces from en quad to hair space, the line and paragraph separators, the
/// narrow no-break space, the medium mathematical space and the ideographic space.
pub open spec fn white_space(c: char) -> bool {
    let u = c as u32;
    ||| 0x09 <= u <= 0x0D
    ||| u == 0x20
    ||| u == 0x85
    ||| u == 0xA0
    ||| u == 0x1680
    ||| 0x2000 <= u <= 0x200A
    ||| u == 0x2028
    ||| u == 0x2029
    ||| u == 0x202F
    ||| u == 0x205F
    ||| u == 0x3000
}

/// Whether `char::is_alphabetic` holds of `c` (the Unicode `Alphabetic` property).
pub uninterp spec fn alphabetic(c: char) -> bool;

/// Whether `char::is_alphanumeric` holds of `c` (`Alphabetic` or a numeric category).
pub uninterp spec fn alphanumeric(c: char) -> bool;

/// Whether `c` is white space, as `char::is_whitespace` answers it.
pub(crate) fn is_whitespace(c: char) -> (r: bool)
    ensures
        r == white_space(c),
{
    let u = c as u32;
    (0x09 <= u && u <= 0x0D) || u == 0x20 || u == 0x85 || u == 0xA0 || u == 0x1680 || (0x2000 <= u
        && u <= 0x200A) || u == 0x2028 || u == 0x2029 || u == 0x202F || u == 0x205F || u == 0x3000
}

/// `char::is_alphabetic`; the contract ties the answer to the character only.
#[verifier::external_body]
pub(crate) fn is_alphabetic(c: char) -> (r: bool)
    ensures
        r == alphabetic(c),
{
    c.is_alphabetic()
}

/// `char::is_alphanumeric`; the contract ties the answer to the character only.
#[verifier::external_body]
pub(crate) fn is_alphanumeric(c: char) -> (r: bool)
    ensures
        r == alphanumeric(c),
{
    c.is_alphanumeric()
}

/// An ASCII decimal digit.
pub open spec fn ascii_digit(c: char) -> bool {
    '0' <= c && c <= '9'
}

/// Value of a decimal digit (a character that is none counts as zero).
pub open spec fn digit_val(c: char) -> nat {
    if ascii_digit(c) { (c as int - '0' as int) as nat } else { 0 }
}

/// Value of a run of decimal digits.
pub open spec fn digits_value(s: Seq<char>) -> nat
    decreases s.len(),
{
    if s.len() == 0 {
        0
    } else {
        digits_value(s.drop_last()) * 10 + digit_val(s.last())
    }
}

pub proof fn lemma_digits_value_grows(s: Seq<char>, i: int)
    requires
        0 <= i <= s.len(),
    ensures
        digits_value(s.subrange(0, i)) <= digits_value(s),
    decreases s.len() - i,
{
    if i < s.len() {
        lemma_digits_value_grows(s, i + 1);
        let a = s.subrange(0, i + 1);
        assert(a.drop_last() =~= s.subrange(0, i));
    } else {
        assert(s.subrange(0, i) =~= s);
    }
}

/// A non-empty run of decimal digits whose number is above `i64::MAX`.
pub open spec fn beyond_i64(t: Seq<char>) -> bool {
    &&& t.len() > 0
    &&& forall|i: int| 0 <= i < t.len() ==> ascii_digit(#[trigger] t[i])
    &&& digits_value(t) > i64::MAX
}

/// Whether `t` is a run of decimal digits for a number above `i64::MAX`.
pub fn beyond_i64_text(t: &str) -> (r: bool)
    ensures
        r == beyond_i64(t@),
{
    let cs = chars_of(t);
    let n = cs.len();
    if n == 0 {
        return false;
    }
    let mut i: usize = 0;
    while i < n
        invariant
            n == cs@.len(),
            cs@ == t@,
            i <= n,
            forall|k: int| 0 <= k < i ==> ascii_digit(#[trigger] cs@[k]),
        decreases n - i,
    {
        if !('0' <= cs[i] && cs[i] <= '9') {
            assert(!ascii_digit(t@[i as int]));
            return false;
        }
        i = i + 1;
    }
    let mut v: u128 = 0;
    let mut j: usize = 0;
    while j < n && v <= 9223372036854775807
        invariant
            n == cs@.len(),
            cs@ == t@,
            j <= n,
            forall|k: int| 0 <= k < n ==> ascii_digit(#[trigger] cs@[k]),
            v == digits_value(cs@.subrange(0, j as int)),
        decreases n - j,
    {
        let c = cs[j];
        assert(ascii_digit(cs@[j as int]));
        let d: u128 = (c as u32 - '0' as u32) as u128;
        assert(cs@.subrange(0, j + 1).drop_last() =~= cs@.subrange(0, j as int));
        v = v * 10 + d;
        j = j + 1;
    }
    proof {
        lemma_digits_value_grows(cs@, j as int);
        if j == n {
            assert(cs@.subrange(0, j as int) =~= cs@);
        }
    }
    v > 9223372036854775807
}

/// Index of the first character at or after `i` that is not white space.
pub open spec fn skip_space(cs: Seq<char>, i: int) -> int
    decreases cs.len() - i,
{
    if 0 <= i < cs.len() && white_space(cs[i]) {
        skip_space(cs, i + 1)
    } else {
        i
    }
}

/// Index just past the last character before `j` that is not white space (down to `lo`).
pub open spec fn trim_end_at(cs: Seq<char>, lo: int, j: int) -> int
    decreases j - lo,
{
    if lo < j && j <= cs.len() && white_space(cs[j - 1]) {
        trim_end_at(cs, lo, j - 1)
    } else {
        j
    }
}

/// `s` without leading and trailing white space (`str::trim`).
pub open spec fn trim_spec(s: Seq<char>) -> Seq<char> {
    let lo = skip_space(s, 0);
    s.subrange(lo, trim_end_at(s, lo, s.len() as int))
}

proof fn lemma_skip_space(cs: Seq<char>, i: int)
    requires
        0 <= i <= cs.len(),
    ensures
        i <= skip_space(cs, i) <= cs.len(),
    decreases cs.len() - i,
{
    if i < cs.len() && white_space(cs[i]) {
        lemma_skip_space(cs, i + 1);
    }
}

proof fn lemma_trim_end_at(cs: Seq<char>, lo: int, j: int)
    requires
        0 <= lo <= j <= cs.len(),
    ensures
        lo <= trim_end_at(cs, lo, j) <= j,
    decreases j - lo,
{
    if lo < j && white_space(cs[j - 1]) {
        lemma_trim_end_at(cs, lo, j - 1);
    }
}

/// Whether the two texts are the same.
pub fn text_eq(a: &str, b: &str) -> (r: bool)
    ensures
        r == (a@ == b@),
{
    let x = chars_of(a);
    let y = chars_of(b);
    if x.len() != y.len() {
        return false;
    }
    let mut i: usize = 0;
    while i < x.len()
        invariant
            x@ == a@,
            y@ == b@,
            x@.len() == y@.len(),
            i <= x@.len(),
            forall|m: int| 0 <= m < i ==> x@[m] == y@[m],
        decreases x@.len() - i,
    {
        if x[i] != y[i] {
            return false;
        }
        i = i + 1;
    }
    assert(a@ =~= b@);
    true
}

/// `s` without leading and trailing white space.
pub fn trim(s: &str) -> (r: String)
    ensures
        r@ == trim_spec(s@),
{
    let cs = chars_of(s);
    let mut lo: usize = 0;
    while lo < cs.len() && is_whitespace(cs[lo])
        invariant
            lo <= cs@.len(),
            cs@ == s@,
            skip_space(cs@, 0) == skip_space(cs@, lo as int),
        decreases cs@.len() - lo,
    {
        lo = lo + 1;
    }
    let mut hi: usize = cs.len();
    while hi > lo && is_whitespace(cs[hi - 1])
        invariant
            lo <= hi <= cs@.len(),
            cs@ == s@,
            skip_space(cs@, 0) == lo,
            trim_end_at(cs@, lo as int, cs@.len() as int) == trim_end_at(cs@, lo as int, hi as int),
        decreases hi - lo,
    {
        hi = hi - 1;
    }
    let mut r = String::new();
    let mut i: usize = lo;
    while i < hi
        invariant
            lo <= i <= hi <= cs@.len(),
            r@ == cs@.subrange(lo as int, i as int),
        decreases hi - i,
    {
        push_char(&mut r, cs[i]);
        i = i + 1;
        assert(r@ =~= cs@.subrange(lo as int, i as int));
    }
    r
}

} // verus!
