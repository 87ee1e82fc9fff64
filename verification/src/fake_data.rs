//! The `fake` plugin: a small language describing the shape of random JSON to generate.
//!
//! ```text
//! expr      := object | array | type_atom
//! object    := "{" field ("," field)* "}"        field := ident (":" expr)?
//! array     := "[" count "]" expr
//! type_atom := ident ("(" number ("," number)* ")")? ("@" locale)?
//! ```
//!
//! Reading a description is purely syntactic; checking each leaf's name, arguments and locale
//! is a separate step, and only then are values drawn.
use vstd::prelude::*;
use fake::Fake;
use crate::tree::{find_entry, find_key, lemma_find_key, JNode, JScalar};
use crate::text::{
    alphabetic, alphanumeric, append, ascii_digit, digit_val, digits_value, lemma_digits_value_grows, chars_of, decimal, push_decimal_u64, is_alphabetic, is_alphanumeric, is_whitespace, string_of,
    white_space,
};

verus! {

// ---------------------------------------------------------------------------
// Tokens
// ---------------------------------------------------------------------------

/// A token of the description language. A number keeps its text: digits with at most one
/// decimal point.
#[derive(Debug, PartialEq)]
pub enum Token {
    LBrace,
    RBrace,
    LBracket,
    RBracket,
    LParen,
    RParen,
    Colon,
    Comma,
    At,
    Ident(String),
    Num(String),
}

/// Abstract token.
pub enum TokenV {
    LBrace,
    RBrace,
    LBracket,
    RBracket,
    LParen,
    RParen,
    Colon,
    Comma,
    At,
    Ident(Seq<char>),
    Num(Seq<char>),
}

impl DeepView for Token {
    type V = TokenV;

    open spec fn deep_view(&self) -> TokenV {
        match self {
            Token::LBrace => TokenV::LBrace,
            Token::RBrace => TokenV::RBrace,
            Token::LBracket => TokenV::LBracket,
            Token::RBracket => TokenV::RBracket,
            Token::LParen => TokenV::LParen,
            Token::RParen => TokenV::RParen,
            Token::Colon => TokenV::Colon,
            Token::Comma => TokenV::Comma,
            Token::At => TokenV::At,
            Token::Ident(s) => TokenV::Ident(s@),
            Token::Num(s) => TokenV::Num(s@),
        }
    }
}

/// A copy of a token.
pub fn clone_token(t: &Token) -> (r: Token)
    ensures
        r.deep_view() == t.deep_view(),
{
    match t {
        Token::LBrace => Token::LBrace,
        Token::RBrace => Token::RBrace,
        Token::LBracket => Token::LBracket,
        Token::RBracket => Token::RBracket,
        Token::LParen => Token::LParen,
        Token::RParen => Token::RParen,
        Token::Colon => Token::Colon,
        Token::Comma => Token::Comma,
        Token::At => Token::At,
        Token::Ident(s) => Token::Ident(s.clone()),
        Token::Num(s) => Token::Num(s.clone()),
    }
}

// ---------------------------------------------------------------------------
// Errors
// ---------------------------------------------------------------------------

/// Why a description could not be read, or a leaf of it not generated.
#[derive(Debug, PartialEq)]
pub enum FakeError {
    UnexpectedChar(char),
    InvalidNumber(String),
    Expected { expected: Token, found: Option<Token> },
    UnexpectedToken(Token),
    UnexpectedEnd,
    ExpectedFieldName(Token),
    UnmatchedBrace,
    ExpectedCommaOrBrace(Token),
    ArrayCountNotInteger(String),
    ExpectedArrayCount(Option<Token>),
    ExpectedNumericArg(Token),
    UnmatchedParen,
    ExpectedCommaOrParen(Token),
    ExpectedLocale(Option<Token>),
    EmptyExpression,
    TrailingInput,
    UnknownLocale(String),
    NoArgs(String),
    CountNotInteger(String, String),
    CountArity(String, usize),
    PctOutOfRange(String, String),
    PctArity(String, usize),
    RangeOrder(String, String, String),
    RangeArity(String, usize),
    FrUnsupported(String),
    UnknownType(String),
    OutOfRange(String),
}

/// Abstract error.
pub enum FakeErrorV {
    UnexpectedChar(char),
    InvalidNumber(Seq<char>),
    Expected { expected: TokenV, found: Option<TokenV> },
    UnexpectedToken(TokenV),
    UnexpectedEnd,
    ExpectedFieldName(TokenV),
    UnmatchedBrace,
    ExpectedCommaOrBrace(TokenV),
    ArrayCountNotInteger(Seq<char>),
    ExpectedArrayCount(Option<TokenV>),
    ExpectedNumericArg(TokenV),
    UnmatchedParen,
    ExpectedCommaOrParen(TokenV),
    ExpectedLocale(Option<TokenV>),
    EmptyExpression,
    TrailingInput,
    UnknownLocale(Seq<char>),
    NoArgs(Seq<char>),
    CountNotInteger(Seq<char>, Seq<char>),
    CountArity(Seq<char>, usize),
    PctOutOfRange(Seq<char>, Seq<char>),
    PctArity(Seq<char>, usize),
    RangeOrder(Seq<char>, Seq<char>, Seq<char>),
    RangeArity(Seq<char>, usize),
    FrUnsupported(Seq<char>),
    UnknownType(Seq<char>),
    OutOfRange(Seq<char>),
}

impl DeepView for FakeError {
    type V = FakeErrorV;

    open spec fn deep_view(&self) -> FakeErrorV {
        match self {
            FakeError::UnexpectedChar(c) => FakeErrorV::UnexpectedChar(*c),
            FakeError::InvalidNumber(s) => FakeErrorV::InvalidNumber(s@),
            FakeError::Expected { expected, found } => FakeErrorV::Expected {
                expected: expected.deep_view(),
                found: found.deep_view(),
            },
            FakeError::UnexpectedToken(t) => FakeErrorV::UnexpectedToken(t.deep_view()),
            FakeError::UnexpectedEnd => FakeErrorV::UnexpectedEnd,
            FakeError::ExpectedFieldName(t) => FakeErrorV::ExpectedFieldName(t.deep_view()),
            FakeError::UnmatchedBrace => FakeErrorV::UnmatchedBrace,
            FakeError::ExpectedCommaOrBrace(t) => FakeErrorV::ExpectedCommaOrBrace(t.deep_view()),
            FakeError::ArrayCountNotInteger(s) => FakeErrorV::ArrayCountNotInteger(s@),
            FakeError::ExpectedArrayCount(t) => FakeErrorV::ExpectedArrayCount(t.deep_view()),
            FakeError::ExpectedNumericArg(t) => FakeErrorV::ExpectedNumericArg(t.deep_view()),
            FakeError::UnmatchedParen => FakeErrorV::UnmatchedParen,
            FakeError::ExpectedCommaOrParen(t) => FakeErrorV::ExpectedCommaOrParen(t.deep_view()),
            FakeError::ExpectedLocale(t) => FakeErrorV::ExpectedLocale(t.deep_view()),
            FakeError::EmptyExpression => FakeErrorV::EmptyExpression,
            FakeError::TrailingInput => FakeErrorV::TrailingInput,
            FakeError::UnknownLocale(s) => FakeErrorV::UnknownLocale(s@),
            FakeError::NoArgs(s) => FakeErrorV::NoArgs(s@),
            FakeError::CountNotInteger(s, n) => FakeErrorV::CountNotInteger(s@, n@),
            FakeError::CountArity(s, n) => FakeErrorV::CountArity(s@, *n),
            FakeError::PctOutOfRange(s, n) => FakeErrorV::PctOutOfRange(s@, n@),
            FakeError::PctArity(s, n) => FakeErrorV::PctArity(s@, *n),
            FakeError::RangeOrder(s, a, b) => FakeErrorV::RangeOrder(s@, a@, b@),
            FakeError::RangeArity(s, n) => FakeErrorV::RangeArity(s@, *n),
            FakeError::FrUnsupported(s) => FakeErrorV::FrUnsupported(s@),
            FakeError::UnknownType(s) => FakeErrorV::UnknownType(s@),
            FakeError::OutOfRange(s) => FakeErrorV::OutOfRange(s@),
        }
    }
}

// ---------------------------------------------------------------------------
// Reading tokens
// ---------------------------------------------------------------------------

/// The token of a one-character punctuation mark.
pub open spec fn punct_token(c: char) -> Option<TokenV> {
    if c == '{' { Some(TokenV::LBrace) }
    else if c == '}' { Some(TokenV::RBrace) }
    else if c == '[' { Some(TokenV::LBracket) }
    else if c == ']' { Some(TokenV::RBracket) }
    else if c == '(' { Some(TokenV::LParen) }
    else if c == ')' { Some(TokenV::RParen) }
    else if c == ':' { Some(TokenV::Colon) }
    else if c == ',' { Some(TokenV::Comma) }
    else if c == '@' { Some(TokenV::At) }
    else { None }
}

/// End of the run of digits and points that starts at `i`.
pub open spec fn number_end(cs: Seq<char>, i: int) -> int
    decreases cs.len() - i,
{
    if 0 <= i < cs.len() && (ascii_digit(cs[i]) || cs[i] == '.') {
        number_end(cs, i + 1)
    } else {
        i
    }
}

/// End of the run of identifier characters that starts at `i`.
pub open spec fn ident_end(cs: Seq<char>, i: int) -> int
    decreases cs.len() - i,
{
    if 0 <= i < cs.len() && (alphanumeric(cs[i]) || cs[i] == '_') {
        ident_end(cs, i + 1)
    } else {
        i
    }
}

/// Number of decimal points in `s`.
pub open spec fn point_count(s: Seq<char>) -> nat
    decreases s.len(),
{
    if s.len() == 0 {
        0
    } else {
        point_count(s.drop_last()) + if s.last() == '.' { 1nat } else { 0nat }
    }
}

/// `ts` in front of the tokens of a successful reading; an error stays.
pub open spec fn prepend_tokens(ts: Seq<TokenV>, r: Result<Seq<TokenV>, FakeErrorV>) -> Result<Seq<TokenV>, FakeErrorV> {
    match r {
        Ok(rest) => Ok(ts + rest),
        Err(e) => Err(e),
    }
}

/// Tokens of the characters from `i` on: white space separates, punctuation stands alone, a
/// number is the longest run of digits and points (at most one point), an identifier starts
/// with a letter or `_` and runs over letters, digits and `_`.
pub open spec fn lex_from(cs: Seq<char>, i: int) -> Result<Seq<TokenV>, FakeErrorV>
    decreases cs.len() - i,
{
    if i < 0 || i >= cs.len() {
        Ok(Seq::empty())
    } else {
        let c = cs[i];
        if white_space(c) {
            lex_from(cs, i + 1)
        } else if punct_token(c) is Some {
            prepend_tokens(seq![punct_token(c)->0], lex_from(cs, i + 1))
        } else if ascii_digit(c) {
            let j = number_end(cs, i + 1);
            proof { lemma_number_end(cs, i + 1); }
            let text = cs.subrange(i, j);
            if point_count(text) > 1 {
                Err(FakeErrorV::InvalidNumber(text))
            } else {
                prepend_tokens(seq![TokenV::Num(text)], lex_from(cs, j))
            }
        } else if alphabetic(c) || c == '_' {
            let j = ident_end(cs, i + 1);
            proof { lemma_ident_end(cs, i + 1); }
            prepend_tokens(seq![TokenV::Ident(cs.subrange(i, j))], lex_from(cs, j))
        } else {
            Err(FakeErrorV::UnexpectedChar(c))
        }
    }
}

pub proof fn lemma_number_end(cs: Seq<char>, i: int)
    requires
        0 <= i <= cs.len(),
    ensures
        i <= number_end(cs, i) <= cs.len(),
    decreases cs.len() - i,
{
    if i < cs.len() && (ascii_digit(cs[i]) || cs[i] == '.') {
        lemma_number_end(cs, i + 1);
    }
}

pub proof fn lemma_ident_end(cs: Seq<char>, i: int)
    requires
        0 <= i <= cs.len(),
    ensures
        i <= ident_end(cs, i) <= cs.len(),
    decreases cs.len() - i,
{
    if i < cs.len() && (alphanumeric(cs[i]) || cs[i] == '_') {
        lemma_ident_end(cs, i + 1);
    }
}

fn punct(c: char) -> (r: Option<Token>)
    ensures
        match r {
            Some(t) => punct_token(c) == Some(t.deep_view()),
            None => punct_token(c) is None,
        },
{
    if c == '{' { Some(Token::LBrace) }
    else if c == '}' { Some(Token::RBrace) }
    else if c == '[' { Some(Token::LBracket) }
    else if c == ']' { Some(Token::RBracket) }
    else if c == '(' { Some(Token::LParen) }
    else if c == ')' { Some(Token::RParen) }
    else if c == ':' { Some(Token::Colon) }
    else if c == ',' { Some(Token::Comma) }
    else if c == '@' { Some(Token::At) }
    else { None }
}

/// The tokens of a description.
pub fn tokenize(input: &str) -> (r: Result<Vec<Token>, FakeError>)
    ensures
        match r {
            Ok(ts) => lex_from(input@, 0) == Ok::<Seq<TokenV>, FakeErrorV>(ts.deep_view()),
            Err(e) => lex_from(input@, 0) == Err::<Seq<TokenV>, FakeErrorV>(e.deep_view()),
        },
{
    let chars = chars_of(input);
    let ghost cs = chars@;
    let mut tokens: Vec<Token> = Vec::new();
    let mut i: usize = 0;
    while i < chars.len()
        invariant
            cs == chars@,
            cs == input@,
            i <= cs.len(),
            lex_from(cs, 0) == prepend_tokens(tokens.deep_view(), lex_from(cs, i as int)),
        decreases cs.len() - i,
    {
        let c = chars[i];
        let ghost before = tokens.deep_view();
        if is_whitespace(c) {
            i = i + 1;
        } else {
            match punct(c) {
                Some(t) => {
                    tokens.push(t);
                    proof {
                        assert(tokens.deep_view() =~= before + seq![punct_token(c)->0]);
                        match lex_from(cs, i + 1) {
                            Ok(rest) => assert(before + (seq![punct_token(c)->0] + rest) =~= tokens.deep_view() + rest),
                            Err(_) => {},
                        }
                    }
                    i = i + 1;
                },
                None => {
                    if '0' <= c && c <= '9' {
                        let start = i;
                        let mut points: usize = 0;
                        assert(cs.subrange(start as int, i + 1).drop_last() =~= cs.subrange(start as int, i as int));
                        assert(cs.subrange(start as int, i + 1).last() == c);
                        assert(point_count(cs.subrange(start as int, i as int)) == 0);
                        i = i + 1;
                        proof { lemma_number_end(cs, i as int); }
                        while i < chars.len() && (('0' <= chars[i] && chars[i] <= '9') || chars[i] == '.')
                            invariant
                                cs == chars@,
                                start < i <= cs.len(),
                                number_end(cs, start + 1) == number_end(cs, i as int),
                                points == point_count(cs.subrange(start as int, i as int)),
                                points <= i - start,
                            decreases cs.len() - i,
                        {
                            if chars[i] == '.' {
                                points = points + 1;
                            }
                            assert(cs.subrange(start as int, i + 1).drop_last() =~= cs.subrange(start as int, i as int));
                            i = i + 1;
                        }
                        let text = string_of(&chars.as_slice()[start..i]);
                        assert(text@ =~= cs.subrange(start as int, i as int));
                        if points > 1 {
                            return Err(FakeError::InvalidNumber(text));
                        }
                        tokens.push(Token::Num(text));
                        proof {
                            let tv = TokenV::Num(cs.subrange(start as int, i as int));
                            assert(tokens.deep_view() =~= before + seq![tv]);
                            match lex_from(cs, i as int) {
                                Ok(rest) => assert(before + (seq![tv] + rest) =~= tokens.deep_view() + rest),
                                Err(_) => {},
                            }
                        }
                    } else if is_alphabetic(c) || c == '_' {
                        let start = i;
                        i = i + 1;
                        while i < chars.len() && (is_alphanumeric(chars[i]) || chars[i] == '_')
                            invariant
                                cs == chars@,
                                start < i <= cs.len(),
                                ident_end(cs, start + 1) == ident_end(cs, i as int),
                            decreases cs.len() - i,
                        {
                            i = i + 1;
                        }
                        let text = string_of(&chars.as_slice()[start..i]);
                        assert(text@ =~= cs.subrange(start as int, i as int));
                        tokens.push(Token::Ident(text));
                        proof {
                            let tv = TokenV::Ident(cs.subrange(start as int, i as int));
                            assert(tokens.deep_view() =~= before + seq![tv]);
                            match lex_from(cs, i as int) {
                                Ok(rest) => assert(before + (seq![tv] + rest) =~= tokens.deep_view() + rest),
                                Err(_) => {},
                            }
                        }
                    } else {
                        return Err(FakeError::UnexpectedChar(c));
                    }
                },
            }
        }
    }
    assert(tokens.deep_view() + Seq::<TokenV>::empty() =~= tokens.deep_view());
    Ok(tokens)
}


// ---------------------------------------------------------------------------
// Numbers
// ---------------------------------------------------------------------------

/// Index of the decimal point of a number's text, or its length when it has none.
pub open spec fn point_index(s: Seq<char>) -> int
    decreases s.len(),
{
    if s.len() == 0 {
        0
    } else if s[0] == '.' {
        0
    } else {
        1 + point_index(s.drop_first())
    }
}

/// The digits before the decimal point.
pub open spec fn int_digits(s: Seq<char>) -> Seq<char> {
    s.subrange(0, point_index(s))
}

/// The digits after the decimal point (none when there is no point).
pub open spec fn frac_digits(s: Seq<char>) -> Seq<char> {
    if point_index(s) < s.len() { s.subrange(point_index(s) + 1, s.len() as int) } else { Seq::empty() }
}

/// The number has no fractional part.
pub open spec fn integral(s: Seq<char>) -> bool {
    forall|i: int| 0 <= i < frac_digits(s).len() ==> #[trigger] frac_digits(s)[i] == '0'
}

/// The integer part of a number, at most `cap`.
pub open spec fn int_part_capped(s: Seq<char>, cap: nat) -> nat {
    if digits_value(int_digits(s)) <= cap { digits_value(int_digits(s)) } else { cap }
}

pub proof fn lemma_point_index(s: Seq<char>)
    ensures
        0 <= point_index(s) <= s.len(),
        point_index(s) < s.len() ==> s[point_index(s)] == '.',
        forall|i: int| 0 <= i < point_index(s) ==> s[i] != '.',
    decreases s.len(),
{
    if s.len() > 0 && s[0] != '.' {
        lemma_point_index(s.drop_first());
        assert forall|i: int| 0 <= i < point_index(s) implies s[i] != '.' by {
            if i > 0 {
                assert(s[i] == s.drop_first()[i - 1]);
            }
        }
    }
}

/// The integer part of the number text `s`, capped at `cap`.
fn int_part(s: &[char], cap: u64) -> (r: u64)
    ensures
        r == int_part_capped(s@, cap as nat),
{
    proof { lemma_point_index(s@); }
    let ghost d = int_digits(s@);
    let mut v: u128 = 0;
    let mut i: usize = 0;
    while i < s.len() && s[i] != '.'
        invariant
            i <= point_index(s@),
            d == int_digits(s@),
            0 <= point_index(s@) <= s@.len(),
            point_index(s@) < s@.len() ==> s@[point_index(s@)] == '.',
            forall|k: int| 0 <= k < point_index(s@) ==> s@[k] != '.',
            v == (if digits_value(d.subrange(0, i as int)) <= cap { digits_value(d.subrange(0, i as int)) } else { cap as nat }),
            v <= cap,
        decreases s@.len() - i,
    {
        let c = s[i];
        let dg: u128 = if '0' <= c && c <= '9' { (c as u32 - '0' as u32) as u128 } else { 0 };
        let ghost prev = d.subrange(0, i as int);
        let ghost next = d.subrange(0, i + 1);
        assert(next.drop_last() =~= prev);
        assert(next.last() == c);
        if v < cap as u128 {
            let w = v * 10 + dg;
            v = if w <= cap as u128 { w } else { cap as u128 };
        } else {
            assert(digits_value(next) >= digits_value(prev));
        }
        i = i + 1;
    }
    assert(d.subrange(0, i as int) =~= d);
    v as u64
}

/// The fractional digits of the number text `s` are all zero.
fn is_integral(s: &[char]) -> (r: bool)
    ensures
        r == integral(s@),
{
    proof { lemma_point_index(s@); }
    let mut i: usize = 0;
    while i < s.len() && s[i] != '.'
        invariant
            i <= point_index(s@),
            0 <= point_index(s@) <= s@.len(),
            point_index(s@) < s@.len() ==> s@[point_index(s@)] == '.',
            forall|k: int| 0 <= k < point_index(s@) ==> s@[k] != '.',
        decreases s@.len() - i,
    {
        i = i + 1;
    }
    if i == s.len() {
        assert(frac_digits(s@).len() == 0);
        return true;
    }
    let ghost f = frac_digits(s@);
    let start = i + 1;
    let mut j: usize = start;
    while j < s.len()
        invariant
            i == point_index(s@),
            i < s@.len(),
            start == i + 1,
            start <= j <= s@.len(),
            f == frac_digits(s@),
            forall|k: int| 0 <= k < j - start ==> f[k] == '0',
        decreases s@.len() - j,
    {
        if s[j] != '0' {
            assert(f[j - start] != '0');
            return false;
        }
        j = j + 1;
    }
    true
}


/// `n` zero digits.
pub open spec fn zeros(n: nat) -> Seq<char> {
    Seq::new(n, |i: int| '0')
}

/// The digits of a number scaled to `l` fractional digits: its integer digits, its fractional
/// digits, then zeros up to `l` fractional digits.
pub open spec fn scaled_digits(s: Seq<char>, l: nat) -> Seq<char> {
    int_digits(s) + frac_digits(s) + zeros((l - frac_digits(s).len()) as nat)
}

/// The larger of two lengths.
pub open spec fn max_nat(a: nat, b: nat) -> nat {
    if a >= b { a } else { b }
}

/// `a <= b` as decimal numbers: both scaled to a common number of fractional digits.
pub open spec fn dec_le(a: Seq<char>, b: Seq<char>) -> bool {
    let l = max_nat(frac_digits(a).len(), frac_digits(b).len());
    digits_value(scaled_digits(a, l)) <= digits_value(scaled_digits(b, l))
}

/// Digit by digit equal (by digit value).
pub open spec fn digits_eq(x: Seq<char>, y: Seq<char>) -> bool {
    x.len() == y.len() && forall|i: int| 0 <= i < x.len() ==> digit_val(#[trigger] x[i]) == digit_val(y[i])
}

/// Lexicographic order of two digit runs of one length (by digit value).
pub open spec fn lex_lt(x: Seq<char>, y: Seq<char>) -> bool
    decreases x.len(),
{
    if x.len() == 0 || y.len() == 0 {
        false
    } else {
        lex_lt(x.drop_last(), y.drop_last()) || (digits_eq(x.drop_last(), y.drop_last()) && digit_val(x.last())
            < digit_val(y.last()))
    }
}

proof fn lemma_digit_val_le9(c: char)
    ensures
        digit_val(c) <= 9,
{
}

proof fn lemma_lex_value(x: Seq<char>, y: Seq<char>)
    requires
        x.len() == y.len(),
    ensures
        lex_lt(x, y) ==> digits_value(x) < digits_value(y),
        digits_eq(x, y) ==> digits_value(x) == digits_value(y),
        lex_lt(x, y) || lex_lt(y, x) || digits_eq(x, y),
    decreases x.len(),
{
    if x.len() > 0 {
        let (xa, ya) = (x.drop_last(), y.drop_last());
        lemma_lex_value(xa, ya);
        lemma_digit_val_le9(x.last());
        lemma_digit_val_le9(y.last());
        if digits_eq(x, y) {
            assert(digits_eq(xa, ya)) by {
                assert forall|i: int| 0 <= i < xa.len() implies digit_val(#[trigger] xa[i]) == digit_val(ya[i]) by {
                    assert(x[i] == xa[i] && y[i] == ya[i]);
                }
            }
            assert(digit_val(x[x.len() - 1]) == digit_val(y[y.len() - 1]));
        }
        if digits_eq(xa, ya) && digit_val(x.last()) == digit_val(y.last()) {
            assert forall|i: int| 0 <= i < x.len() implies digit_val(#[trigger] x[i]) == digit_val(y[i]) by {
                if i < xa.len() {
                    assert(x[i] == xa[i] && y[i] == ya[i]);
                }
            }
        }
        if lex_lt(xa, ya) {
            assert(digits_value(xa) + 1 <= digits_value(ya));
            assert(digits_value(x) <= digits_value(xa) * 10 + 9);
            assert((digits_value(xa) + 1) * 10 <= digits_value(ya) * 10) by (nonlinear_arith)
                requires digits_value(xa) + 1 <= digits_value(ya);
        }
    }
}

proof fn lemma_zeros_value(k: nat)
    ensures
        digits_value(zeros(k)) == 0,
    decreases k,
{
    if k > 0 {
        lemma_zeros_value((k - 1) as nat);
        assert(zeros(k).drop_last() =~= zeros((k - 1) as nat));
    }
}

proof fn lemma_leading_zeros(k: nat, s: Seq<char>)
    ensures
        digits_value(zeros(k) + s) == digits_value(s),
    decreases s.len(),
{
    if s.len() == 0 {
        assert(zeros(k) + s =~= zeros(k));
        lemma_zeros_value(k);
    } else {
        lemma_leading_zeros(k, s.drop_last());
        assert((zeros(k) + s).drop_last() =~= zeros(k) + s.drop_last());
    }
}

/// `n` zero digits.
fn push_zeros(v: &mut Vec<char>, n: usize)
    ensures
        final(v)@ == old(v)@ + zeros(n as nat),
{
    let mut i: usize = 0;
    while i < n
        invariant
            i <= n,
            v@ == old(v)@ + zeros(i as nat),
        decreases n - i,
    {
        v.push('0');
        i = i + 1;
        assert(v@ =~= old(v)@ + zeros(i as nat));
    }
}

/// The scaled digits of `s`, preceded by `lead` zeros.
fn scaled(s: &[char], l: usize, lead: usize) -> (r: Vec<char>)
    requires
        frac_digits(s@).len() <= l,
    ensures
        r@ == zeros(lead as nat) + scaled_digits(s@, l as nat),
{
    proof { lemma_point_index(s@); }
    let mut r: Vec<char> = Vec::new();
    push_zeros(&mut r, lead);
    let mut i: usize = 0;
    let mut nfrac: usize = 0;
    let mut seen_point = false;
    while i < s.len()
        invariant
            i <= s@.len(),
            0 <= point_index(s@) <= s@.len(),
            point_index(s@) < s@.len() ==> s@[point_index(s@)] == '.',
            forall|k: int| 0 <= k < point_index(s@) ==> s@[k] != '.',
            seen_point == (i > point_index(s@)),
            nfrac == (if seen_point { i - point_index(s@) - 1 } else { 0 }),
            r@ == zeros(lead as nat) + (if seen_point {
                int_digits(s@) + frac_digits(s@).subrange(0, nfrac as int)
            } else {
                s@.subrange(0, i as int)
            }),
        decreases s@.len() - i,
    {
        if !seen_point && s[i] == '.' {
            seen_point = true;
            assert(int_digits(s@) =~= s@.subrange(0, i as int));
            assert(frac_digits(s@).subrange(0, 0) =~= Seq::<char>::empty());
            assert(r@ =~= zeros(lead as nat) + (int_digits(s@) + frac_digits(s@).subrange(0, 0)));
        } else {
            r.push(s[i]);
            if seen_point {
                nfrac = nfrac + 1;
                assert(r@ =~= zeros(lead as nat) + (int_digits(s@) + frac_digits(s@).subrange(0, nfrac as int)));
            } else {
                assert(r@ =~= zeros(lead as nat) + s@.subrange(0, i + 1));
            }
        }
        i = i + 1;
    }
    if !seen_point {
        assert(int_digits(s@) =~= s@);
        assert(frac_digits(s@) =~= Seq::<char>::empty());
    } else {
        assert(frac_digits(s@).subrange(0, nfrac as int) =~= frac_digits(s@));
    }
    let ghost before = r@;
    push_zeros(&mut r, l - nfrac);
    assert(r@ =~= zeros(lead as nat) + scaled_digits(s@, l as nat));
    r
}

/// Number of fractional digits of `s`.
fn frac_len(s: &[char]) -> (r: usize)
    ensures
        r == frac_digits(s@).len(),
{
    proof { lemma_point_index(s@); }
    let mut i: usize = 0;
    while i < s.len() && s[i] != '.'
        invariant
            i <= point_index(s@),
            0 <= point_index(s@) <= s@.len(),
            point_index(s@) < s@.len() ==> s@[point_index(s@)] == '.',
            forall|k: int| 0 <= k < point_index(s@) ==> s@[k] != '.',
        decreases s@.len() - i,
    {
        i = i + 1;
    }
    if i == s.len() { 0 } else { s.len() - i - 1 }
}

fn digit_value(c: char) -> (r: u32)
    ensures
        r == digit_val(c),
{
    if '0' <= c && c <= '9' { c as u32 - '0' as u32 } else { 0 }
}

/// `a <= b` as decimal numbers.
#[verifier::spinoff_prover]
#[verifier::rlimit(40)]
fn dec_le_exec(a: &[char], b: &[char]) -> (r: bool)
    ensures
        r == dec_le(a@, b@),
{
    let fa = frac_len(a);
    let fb = frac_len(b);
    let l = if fa >= fb { fa } else { fb };
    let xa = scaled(a, l, 0);
    let xb = scaled(b, l, 0);
    let (na, nb) = (xa.len(), xb.len());
    let n = if na >= nb { na } else { nb };
    let x = scaled(a, l, n - na);
    let y = scaled(b, l, n - nb);
    proof {
        let sa = scaled_digits(a@, l as nat);
        let sb = scaled_digits(b@, l as nat);
        assert(zeros(0) + sa =~= sa);
        assert(zeros(0) + sb =~= sb);
        lemma_leading_zeros((n - na) as nat, sa);
        lemma_leading_zeros((n - nb) as nat, sb);
    }
    let mut i: usize = 0;
    let mut lt = false;
    let mut gt = false;
    while i < n
        invariant
            x@.len() == n,
            y@.len() == n,
            i <= n,
            lt == lex_lt(x@.subrange(0, i as int), y@.subrange(0, i as int)),
            gt == lex_lt(y@.subrange(0, i as int), x@.subrange(0, i as int)),
            !(lt || gt) == digits_eq(x@.subrange(0, i as int), y@.subrange(0, i as int)),
        decreases n - i,
    {
        let ghost (px, py) = (x@.subrange(0, i as int), y@.subrange(0, i as int));
        let ghost (qx, qy) = (x@.subrange(0, i + 1), y@.subrange(0, i + 1));
        proof {
            assert(qx.drop_last() =~= px);
            assert(qy.drop_last() =~= py);
            lemma_lex_value(px, py);
            lemma_lex_value(qx, qy);
        }
        let dx = digit_value(x[i]);
        let dy = digit_value(y[i]);
        if !lt && !gt {
            if dx < dy {
                lt = true;
            } else if dy < dx {
                gt = true;
            }
        }
        proof {
            if !lt && !gt {
                assert forall|k: int| 0 <= k < qx.len() implies digit_val(#[trigger] qx[k]) == digit_val(qy[k]) by {
                    if k < px.len() {
                        assert(qx[k] == px[k] && qy[k] == py[k]);
                    }
                }
            }
            if digits_eq(qx, qy) {
                assert(digit_val(qx[i as int]) == digit_val(qy[i as int]));
            }
        }
        i = i + 1;
    }
    proof {
        assert(x@.subrange(0, n as int) =~= x@);
        assert(y@.subrange(0, n as int) =~= y@);
        lemma_lex_value(x@, y@);
        lemma_lex_value(y@, x@);
    }
    !gt
}

// ---------------------------------------------------------------------------
// Descriptions
// ---------------------------------------------------------------------------

/// A parsed description: an object with its fields in order, `count` copies of one
/// description, or a leaf with its type name, numeric arguments (as written) and locale.
#[derive(Debug, PartialEq)]
pub enum FakeSpec {
    Object(Vec<(String, FakeSpec)>),
    Array(usize, Box<FakeSpec>),
    Leaf(String, Vec<String>, Option<String>),
}

/// Abstract description.
pub enum FakeSpecV {
    Object(Seq<(Seq<char>, FakeSpecV)>),
    Array(usize, Box<FakeSpecV>),
    Leaf(Seq<char>, Seq<Seq<char>>, Option<Seq<char>>),
}

/// Abstract view of a description.
pub open spec fn spec_view(s: FakeSpec) -> FakeSpecV
    decreases s, 1int,
{
    match s {
        FakeSpec::Object(fields) => FakeSpecV::Object(fields_view(fields@, fields@.len() as int)),
        FakeSpec::Array(n, inner) => FakeSpecV::Array(n, Box::new(spec_view(*inner))),
        FakeSpec::Leaf(name, args, locale) => FakeSpecV::Leaf(name@, args.deep_view(), locale.deep_view()),
    }
}

/// Abstract view of the first `n` fields.
pub open spec fn fields_view(fs: Seq<(String, FakeSpec)>, n: int) -> Seq<(Seq<char>, FakeSpecV)>
    decreases fs, n,
{
    if n <= 0 || n > fs.len() {
        Seq::empty()
    } else {
        fields_view(fs, n - 1).push((fs[n - 1].0@, spec_view(fs[n - 1].1)))
    }
}

proof fn lemma_fields_view_len(fs: Seq<(String, FakeSpec)>, n: int)
    requires
        0 <= n <= fs.len(),
    ensures
        fields_view(fs, n).len() == n,
    decreases n,
{
    if n > 0 {
        lemma_fields_view_len(fs, n - 1);
    }
}

proof fn lemma_fields_view_prefix(fs: Seq<(String, FakeSpec)>, x: (String, FakeSpec), n: int)
    requires
        0 <= n <= fs.len(),
    ensures
        fields_view(fs.push(x), n) == fields_view(fs, n),
    decreases n,
{
    if n > 0 {
        lemma_fields_view_prefix(fs, x, n - 1);
    }
}

/// The token at `p`, if any.
pub open spec fn tok_at(t: Seq<TokenV>, p: int) -> Option<TokenV> {
    if 0 <= p < t.len() { Some(t[p]) } else { None }
}

/// Reads one description starting at token `p`; on success also gives the position after it.
pub open spec fn parse_expr_s(t: Seq<TokenV>, p: int) -> Result<(FakeSpecV, int), FakeErrorV>
    decreases t.len() - p, 3int,
{
    match tok_at(t, p) {
        None => Err(FakeErrorV::UnexpectedEnd),
        Some(TokenV::LBrace) => parse_object_s(t, p),
        Some(TokenV::LBracket) => parse_array_s(t, p),
        Some(TokenV::Ident(_)) => parse_atom_s(t, p),
        Some(other) => Err(FakeErrorV::UnexpectedToken(other)),
    }
}

/// Reads an object starting at its `{`.
pub open spec fn parse_object_s(t: Seq<TokenV>, p: int) -> Result<(FakeSpecV, int), FakeErrorV>
    decreases t.len() - p, 2int,
{
    if tok_at(t, p) != Some(TokenV::LBrace) {
        Err(FakeErrorV::Expected { expected: TokenV::LBrace, found: tok_at(t, p) })
    } else if tok_at(t, p + 1) == Some(TokenV::RBrace) {
        Ok((FakeSpecV::Object(Seq::empty()), p + 2))
    } else {
        parse_fields_s(t, p + 1, Seq::empty())
    }
}

/// Reads the fields of an object from `p` on, after the fields `acc` already read, up to and
/// including the closing `}`.
pub open spec fn parse_fields_s(t: Seq<TokenV>, p: int, acc: Seq<(Seq<char>, FakeSpecV)>) -> Result<(FakeSpecV, int), FakeErrorV>
    decreases t.len() - p, 1int,
{
    match tok_at(t, p) {
        None => Err(FakeErrorV::UnmatchedBrace),
        Some(TokenV::Ident(k)) => {
            let q = p + 1;
            let vr = if tok_at(t, q) == Some(TokenV::Colon) {
                parse_expr_s(t, q + 1)
            } else {
                Ok((FakeSpecV::Leaf(k, Seq::empty(), None), q))
            };
            match vr {
                Err(e) => Err(e),
                Ok((v, r)) => {
                    let acc2 = acc.push((k, v));
                    if !(p < r <= t.len()) {
                        Err(FakeErrorV::UnexpectedEnd)
                    } else {
                        match tok_at(t, r) {
                            None => Err(FakeErrorV::UnmatchedBrace),
                            Some(TokenV::Comma) => parse_fields_s(t, r + 1, acc2),
                            Some(TokenV::RBrace) => Ok((FakeSpecV::Object(acc2), r + 1)),
                            Some(other) => Err(FakeErrorV::ExpectedCommaOrBrace(other)),
                        }
                    }
                },
            }
        },
        Some(other) => Err(FakeErrorV::ExpectedFieldName(other)),
    }
}

/// The number of copies an array count stands for (the count is at most `usize::MAX`).
pub open spec fn count_of(n: Seq<char>) -> usize {
    int_part_capped(n, usize::MAX as nat) as usize
}

/// Reads an array starting at its `[`.
pub open spec fn parse_array_s(t: Seq<TokenV>, p: int) -> Result<(FakeSpecV, int), FakeErrorV>
    decreases t.len() - p, 2int,
{
    if tok_at(t, p) != Some(TokenV::LBracket) {
        Err(FakeErrorV::Expected { expected: TokenV::LBracket, found: tok_at(t, p) })
    } else {
        match tok_at(t, p + 1) {
            Some(TokenV::Num(n)) => if !integral(n) {
                Err(FakeErrorV::ArrayCountNotInteger(n))
            } else if tok_at(t, p + 2) != Some(TokenV::RBracket) {
                Err(FakeErrorV::Expected { expected: TokenV::RBracket, found: tok_at(t, p + 2) })
            } else {
                match parse_expr_s(t, p + 3) {
                    Ok((inner, r)) => Ok((FakeSpecV::Array(count_of(n), Box::new(inner)), r)),
                    Err(e) => Err(e),
                }
            },
            other => Err(FakeErrorV::ExpectedArrayCount(other)),
        }
    }
}

/// Reads the arguments of a leaf from `p` on (after its `(`), after the arguments `acc`,
/// up to and including the closing `)`.
pub open spec fn parse_args_s(t: Seq<TokenV>, p: int, acc: Seq<Seq<char>>) -> Result<(Seq<Seq<char>>, int), FakeErrorV>
    decreases t.len() - p,
{
    match tok_at(t, p) {
        Some(TokenV::Num(n)) => {
            let acc2 = acc.push(n);
            match tok_at(t, p + 1) {
                Some(TokenV::Comma) => parse_args_s(t, p + 2, acc2),
                Some(TokenV::RParen) => Ok((acc2, p + 2)),
                Some(other) => Err(FakeErrorV::ExpectedCommaOrParen(other)),
                None => Err(FakeErrorV::UnmatchedParen),
            }
        },
        Some(other) => Err(FakeErrorV::ExpectedNumericArg(other)),
        None => Err(FakeErrorV::UnmatchedParen),
    }
}

/// Reads a leaf starting at its name: optional arguments in parentheses, optional `@locale`.
pub open spec fn parse_atom_s(t: Seq<TokenV>, p: int) -> Result<(FakeSpecV, int), FakeErrorV> {
    match tok_at(t, p) {
        Some(TokenV::Ident(name)) => {
            let q = p + 1;
            let ar: Result<(Seq<Seq<char>>, int), FakeErrorV> = if tok_at(t, q) == Some(TokenV::LParen) {
                if tok_at(t, q + 1) == Some(TokenV::RParen) {
                    Ok((Seq::empty(), q + 2))
                } else {
                    parse_args_s(t, q + 1, Seq::empty())
                }
            } else {
                Ok((Seq::empty(), q))
            };
            match ar {
                Err(e) => Err(e),
                Ok((args, r)) => if tok_at(t, r) == Some(TokenV::At) {
                    match tok_at(t, r + 1) {
                        Some(TokenV::Ident(loc)) => Ok((FakeSpecV::Leaf(name, args, Some(loc)), r + 2)),
                        other => Err(FakeErrorV::ExpectedLocale(other)),
                    }
                } else {
                    Ok((FakeSpecV::Leaf(name, args, None), r))
                },
            }
        },
        _ => Err(FakeErrorV::UnexpectedEnd),
    }
}

/// The description written in `input`.
pub open spec fn parse_spec(input: Seq<char>) -> Result<FakeSpecV, FakeErrorV> {
    match lex_from(input, 0) {
        Err(e) => Err(e),
        Ok(t) => if t.len() == 0 {
            Err(FakeErrorV::EmptyExpression)
        } else {
            match parse_expr_s(t, 0) {
                Err(e) => Err(e),
                Ok((s, r)) => if r != t.len() {
                    Err(FakeErrorV::TrailingInput)
                } else {
                    Ok(s)
                },
            }
        },
    }
}


// ---------------------------------------------------------------------------
// Parsing
// ---------------------------------------------------------------------------

/// Equality of tokens.
fn token_eq(a: &Token, b: &Token) -> (r: bool)
    ensures
        r == (a.deep_view() == b.deep_view()),
{
    match (a, b) {
        (Token::LBrace, Token::LBrace) => true,
        (Token::RBrace, Token::RBrace) => true,
        (Token::LBracket, Token::LBracket) => true,
        (Token::RBracket, Token::RBracket) => true,
        (Token::LParen, Token::LParen) => true,
        (Token::RParen, Token::RParen) => true,
        (Token::Colon, Token::Colon) => true,
        (Token::Comma, Token::Comma) => true,
        (Token::At, Token::At) => true,
        (Token::Ident(x), Token::Ident(y)) => *x == *y,
        (Token::Num(x), Token::Num(y)) => *x == *y,
        _ => false,
    }
}

struct Parser {
    tokens: Vec<Token>,
    pos: usize,
}

impl Parser {
    spec fn tv(&self) -> Seq<TokenV> {
        self.tokens.deep_view()
    }

    fn peek(&self) -> (r: Option<&Token>)
        ensures
            match r {
                Some(t) => tok_at(self.tv(), self.pos as int) == Some(t.deep_view()),
                None => tok_at(self.tv(), self.pos as int) is None,
            },
    {
        if self.pos < self.tokens.len() {
            Some(&self.tokens[self.pos])
        } else {
            None
        }
    }

    /// The token at the position is `k`.
    fn at(&self, k: &Token) -> (r: bool)
        ensures
            r == (tok_at(self.tv(), self.pos as int) == Some(k.deep_view())),
    {
        match self.peek() {
            Some(t) => token_eq(t, k),
            None => false,
        }
    }

    fn next(&mut self) -> (r: Option<Token>)
        ensures
            final(self).tokens@ == old(self).tokens@,
            match r {
                Some(t) => tok_at(old(self).tv(), old(self).pos as int) == Some(t.deep_view()) && final(self).pos
                    == old(self).pos + 1,
                None => tok_at(old(self).tv(), old(self).pos as int) is None && final(self).pos == old(self).pos,
            },
    {
        if self.pos < self.tokens.len() {
            let t = clone_token(&self.tokens[self.pos]);
            self.pos = self.pos + 1;
            Some(t)
        } else {
            None
        }
    }

    fn expect(&mut self, expected: Token) -> (r: Result<(), FakeError>)
        ensures
            final(self).tokens@ == old(self).tokens@,
            match r {
                Ok(()) => tok_at(old(self).tv(), old(self).pos as int) == Some(expected.deep_view())
                    && final(self).pos == old(self).pos + 1,
                Err(e) => tok_at(old(self).tv(), old(self).pos as int) != Some(expected.deep_view())
                    && e.deep_view() == (FakeErrorV::Expected {
                    expected: expected.deep_view(),
                    found: tok_at(old(self).tv(), old(self).pos as int),
                }),
            },
    {
        match self.next() {
            Some(t) => if token_eq(&t, &expected) {
                Ok(())
            } else {
                Err(FakeError::Expected { expected, found: Some(t) })
            },
            None => Err(FakeError::Expected { expected, found: None }),
        }
    }

    fn parse_expr(&mut self) -> (r: Result<FakeSpec, FakeError>)
        requires
            old(self).pos <= old(self).tokens@.len(),
        ensures
            final(self).tokens@ == old(self).tokens@,
            match r {
                Ok(s) => parse_expr_s(old(self).tv(), old(self).pos as int) == Ok::<(FakeSpecV, int), FakeErrorV>(
                    (spec_view(s), final(self).pos as int)) && old(self).pos < final(self).pos <= old(self).tokens@.len(),
                Err(e) => parse_expr_s(old(self).tv(), old(self).pos as int) == Err::<(FakeSpecV, int), FakeErrorV>(
                    e.deep_view()),
            },
        decreases old(self).tokens@.len() - old(self).pos, 3int,
    {
        match self.peek() {
            Some(Token::LBrace) => self.parse_object(),
            Some(Token::LBracket) => self.parse_array(),
            Some(Token::Ident(_)) => self.parse_type_atom(),
            Some(t) => Err(FakeError::UnexpectedToken(clone_token(t))),
            None => Err(FakeError::UnexpectedEnd),
        }
    }

    fn parse_object(&mut self) -> (r: Result<FakeSpec, FakeError>)
        requires
            old(self).pos <= old(self).tokens@.len(),
        ensures
            final(self).tokens@ == old(self).tokens@,
            match r {
                Ok(s) => parse_object_s(old(self).tv(), old(self).pos as int) == Ok::<(FakeSpecV, int), FakeErrorV>(
                    (spec_view(s), final(self).pos as int)) && old(self).pos < final(self).pos <= old(self).tokens@.len(),
                Err(e) => parse_object_s(old(self).tv(), old(self).pos as int) == Err::<(FakeSpecV, int), FakeErrorV>(
                    e.deep_view()),
            },
        decreases old(self).tokens@.len() - old(self).pos, 2int,
    {
        let ghost t = self.tv();
        let ghost p0 = self.pos as int;
        match self.expect(Token::LBrace) {
            Err(e) => {
                return Err(e);
            },
            Ok(()) => {},
        }
        let mut fields: Vec<(String, FakeSpec)> = Vec::new();
        if !self.at(&Token::RBrace) {
            loop
                invariant_except_break
                    parse_object_s(t, p0) == parse_fields_s(t, self.pos as int, fields_view(fields@, fields@.len() as int)),
                invariant
                    self.tokens@ == old(self).tokens@,
                    t == self.tv(),
                    t == old(self).tv(),
                    p0 == old(self).pos,
                    p0 < self.pos <= t.len(),
                ensures
                    tok_at(t, self.pos as int) == Some(TokenV::RBrace),
                    parse_object_s(t, p0) == Ok::<(FakeSpecV, int), FakeErrorV>(
                        (FakeSpecV::Object(fields_view(fields@, fields@.len() as int)), self.pos + 1)),
                decreases t.len() - self.pos,
            {
                let ghost pf = self.pos as int;
                let ghost acc = fields_view(fields@, fields@.len() as int);
                let key = match self.next() {
                    Some(Token::Ident(name)) => name,
                    Some(tok) => {
                        return Err(FakeError::ExpectedFieldName(tok));
                    },
                    None => {
                        return Err(FakeError::UnmatchedBrace);
                    },
                };
                let ghost kv = key@;
                let value = if self.at(&Token::Colon) {
                    self.next();
                    match self.parse_expr() {
                        Ok(v) => v,
                        Err(e) => {
                            return Err(e);
                        },
                    }
                } else {
                    let no_args: Vec<String> = Vec::new();
                    assert(no_args.deep_view() =~= Seq::<Seq<char>>::empty());
                    FakeSpec::Leaf(key.clone(), no_args, None)
                };
                let ghost r = self.pos as int;
                proof {
                    let vr = if tok_at(t, pf + 1) == Some(TokenV::Colon) {
                        parse_expr_s(t, pf + 2)
                    } else {
                        Ok((FakeSpecV::Leaf(kv, Seq::empty(), None), pf + 1))
                    };
                    assert(vr == Ok::<(FakeSpecV, int), FakeErrorV>((spec_view(value), r)));
                    assert(tok_at(t, pf) == Some(TokenV::Ident(kv)));
                }
                let ghost entry = (key@, spec_view(value));
                let ghost old_fields = fields@;
                fields.push((key, value));
                proof {
                    lemma_fields_view_len(old_fields, old_fields.len() as int);
                    lemma_fields_view_prefix(old_fields, fields@.last(), old_fields.len() as int);
                    assert(fields_view(fields@, fields@.len() as int) == acc.push(entry));
                }
                if self.at(&Token::Comma) {
                    self.next();
                    assert(parse_fields_s(t, pf, acc) == parse_fields_s(t, self.pos as int, acc.push(entry)));
                } else if self.at(&Token::RBrace) {
                    assert(parse_fields_s(t, pf, acc) == Ok::<(FakeSpecV, int), FakeErrorV>(
                        (FakeSpecV::Object(acc.push(entry)), self.pos + 1)));
                    break;
                } else {
                    match self.peek() {
                        Some(tok) => {
                            return Err(FakeError::ExpectedCommaOrBrace(clone_token(tok)));
                        },
                        None => {
                            return Err(FakeError::UnmatchedBrace);
                        },
                    }
                }
            }
        }
        match self.expect(Token::RBrace) {
            Err(e) => {
                return Err(e);
            },
            Ok(()) => {},
        }
        proof {
            if fields@.len() == 0 {
                assert(fields_view(fields@, 0) =~= Seq::<(Seq<char>, FakeSpecV)>::empty());
            }
        }
        Ok(FakeSpec::Object(fields))
    }

    fn parse_array(&mut self) -> (r: Result<FakeSpec, FakeError>)
        requires
            old(self).pos <= old(self).tokens@.len(),
        ensures
            final(self).tokens@ == old(self).tokens@,
            match r {
                Ok(s) => parse_array_s(old(self).tv(), old(self).pos as int) == Ok::<(FakeSpecV, int), FakeErrorV>(
                    (spec_view(s), final(self).pos as int)) && old(self).pos < final(self).pos <= old(self).tokens@.len(),
                Err(e) => parse_array_s(old(self).tv(), old(self).pos as int) == Err::<(FakeSpecV, int), FakeErrorV>(
                    e.deep_view()),
            },
        decreases old(self).tokens@.len() - old(self).pos, 2int,
    {
        let ghost t = self.tv();
        match self.expect(Token::LBracket) {
            Err(e) => {
                return Err(e);
            },
            Ok(()) => {},
        }
        let count: usize = match self.next() {
            Some(Token::Num(n)) => {
                let cs = chars_of(n.as_str());
                proof {
                    assert(t[self.pos - 1] == TokenV::Num(n@));
                }
                if !is_integral(cs.as_slice()) {
                    return Err(FakeError::ArrayCountNotInteger(n));
                }
                int_part(cs.as_slice(), usize::MAX as u64) as usize
            },
            other => {
                return Err(FakeError::ExpectedArrayCount(other));
            },
        };
        match self.expect(Token::RBracket) {
            Err(e) => {
                return Err(e);
            },
            Ok(()) => {},
        }
        let inner = match self.parse_expr() {
            Ok(v) => v,
            Err(e) => {
                return Err(e);
            },
        };
        Ok(FakeSpec::Array(count, Box::new(inner)))
    }

    fn parse_type_atom(&mut self) -> (r: Result<FakeSpec, FakeError>)
        requires
            old(self).pos <= old(self).tokens@.len(),
            tok_at(old(self).tv(), old(self).pos as int) matches Some(TokenV::Ident(_)),
        ensures
            final(self).tokens@ == old(self).tokens@,
            match r {
                Ok(s) => parse_atom_s(old(self).tv(), old(self).pos as int) == Ok::<(FakeSpecV, int), FakeErrorV>(
                    (spec_view(s), final(self).pos as int)) && old(self).pos < final(self).pos <= old(self).tokens@.len(),
                Err(e) => parse_atom_s(old(self).tv(), old(self).pos as int) == Err::<(FakeSpecV, int), FakeErrorV>(
                    e.deep_view()),
            },
    {
        let ghost t = self.tv();
        let ghost p0 = self.pos as int;
        let name = match self.next() {
            Some(Token::Ident(n)) => n,
            _ => vstd::pervasive::unreached(),
        };
        let mut args: Vec<String> = Vec::new();
        if self.at(&Token::LParen) {
            self.next();
            if !self.at(&Token::RParen) {
                let ghost q1 = self.pos as int;
                assert(args.deep_view() =~= Seq::<Seq<char>>::empty());
                loop
                    invariant_except_break
                        parse_args_s(t, q1, Seq::empty()) == parse_args_s(t, self.pos as int, args.deep_view()),
                    invariant
                        self.tokens@ == old(self).tokens@,
                        t == self.tv(),
                        t == old(self).tv(),
                        p0 == old(self).pos,
                        q1 == p0 + 2,
                        tok_at(t, p0) == Some(TokenV::Ident(name@)),
                        tok_at(t, p0 + 1) == Some(TokenV::LParen),
                        tok_at(t, q1) != Some(TokenV::RParen),
                        q1 <= self.pos <= t.len(),
                    ensures
                        tok_at(t, self.pos as int) == Some(TokenV::RParen),
                        parse_args_s(t, q1, Seq::empty()) == Ok::<(Seq<Seq<char>>, int), FakeErrorV>(
                            (args.deep_view(), self.pos + 1)),
                    decreases t.len() - self.pos,
                {
                    let ghost before = args.deep_view();
                    match self.next() {
                        Some(Token::Num(n)) => {
                            args.push(n);
                            assert(args.deep_view() =~= before.push(args@.last()@));
                        },
                        Some(tok) => {
                            return Err(FakeError::ExpectedNumericArg(tok));
                        },
                        None => {
                            return Err(FakeError::UnmatchedParen);
                        },
                    }
                    if self.at(&Token::Comma) {
                        self.next();
                    } else if self.at(&Token::RParen) {
                        break;
                    } else {
                        match self.peek() {
                            Some(tok) => {
                                return Err(FakeError::ExpectedCommaOrParen(clone_token(tok)));
                            },
                            None => {
                                return Err(FakeError::UnmatchedParen);
                            },
                        }
                    }
                }
            }
            match self.expect(Token::RParen) {
                Err(e) => {
                    return Err(e);
                },
                Ok(()) => {},
            }
        }
        let locale = if self.at(&Token::At) {
            self.next();
            match self.next() {
                Some(Token::Ident(loc)) => Some(loc),
                other => {
                    return Err(FakeError::ExpectedLocale(other));
                },
            }
        } else {
            None
        };
        proof {
            if args@.len() == 0 {
                assert(args.deep_view() =~= Seq::<Seq<char>>::empty());
            }
        }
        Ok(FakeSpec::Leaf(name, args, locale))
    }
}

/// The description written in `input`.
pub fn parse(input: &str) -> (r: Result<FakeSpec, FakeError>)
    ensures
        match r {
            Ok(s) => parse_spec(input@) == Ok::<FakeSpecV, FakeErrorV>(spec_view(s)),
            Err(e) => parse_spec(input@) == Err::<FakeSpecV, FakeErrorV>(e.deep_view()),
        },
{
    let tokens = match tokenize(input) {
        Ok(ts) => ts,
        Err(e) => {
            return Err(e);
        },
    };
    if tokens.len() == 0 {
        return Err(FakeError::EmptyExpression);
    }
    let mut parser = Parser { tokens, pos: 0 };
    let spec = match parser.parse_expr() {
        Ok(s) => s,
        Err(e) => {
            return Err(e);
        },
    };
    if parser.pos != parser.tokens.len() {
        return Err(FakeError::TrailingInput);
    }
    Ok(spec)
}


// ---------------------------------------------------------------------------
// Checking leaves
// ---------------------------------------------------------------------------

/// What to draw for one leaf once its name, arguments and locale are checked. `fr` asks for
/// the French data; `years: None` asks for the default range (the twenty years up to now).
#[derive(Debug, PartialEq)]
pub enum LeafPlan {
    Name { fr: bool },
    FirstName { fr: bool },
    LastName { fr: bool },
    Phone { fr: bool },
    Date { years: Option<(i64, i64)>, fr: bool },
    DateTime { years: Option<(i64, i64)>, fr: bool },
    Username,
    Email,
    Address,
    City,
    Country,
    Zipcode,
    Url,
    Job,
    Company,
    Word,
    Words(usize),
    Sentence(usize),
    Paragraph(usize),
    Number { min: i64, max: i64 },
    Float { min: String, max: String },
    Bool(u8),
    Uuid,
}

/// Abstract leaf plan.
pub enum LeafPlanV {
    Name { fr: bool },
    FirstName { fr: bool },
    LastName { fr: bool },
    Phone { fr: bool },
    Date { years: Option<(i64, i64)>, fr: bool },
    DateTime { years: Option<(i64, i64)>, fr: bool },
    Username,
    Email,
    Address,
    City,
    Country,
    Zipcode,
    Url,
    Job,
    Company,
    Word,
    Words(usize),
    Sentence(usize),
    Paragraph(usize),
    Number { min: i64, max: i64 },
    Float { min: Seq<char>, max: Seq<char> },
    Bool(u8),
    Uuid,
}

impl DeepView for LeafPlan {
    type V = LeafPlanV;

    open spec fn deep_view(&self) -> LeafPlanV {
        match self {
            LeafPlan::Name { fr } => LeafPlanV::Name { fr: *fr },
            LeafPlan::FirstName { fr } => LeafPlanV::FirstName { fr: *fr },
            LeafPlan::LastName { fr } => LeafPlanV::LastName { fr: *fr },
            LeafPlan::Phone { fr } => LeafPlanV::Phone { fr: *fr },
            LeafPlan::Date { years, fr } => LeafPlanV::Date { years: *years, fr: *fr },
            LeafPlan::DateTime { years, fr } => LeafPlanV::DateTime { years: *years, fr: *fr },
            LeafPlan::Username => LeafPlanV::Username,
            LeafPlan::Email => LeafPlanV::Email,
            LeafPlan::Address => LeafPlanV::Address,
            LeafPlan::City => LeafPlanV::City,
            LeafPlan::Country => LeafPlanV::Country,
            LeafPlan::Zipcode => LeafPlanV::Zipcode,
            LeafPlan::Url => LeafPlanV::Url,
            LeafPlan::Job => LeafPlanV::Job,
            LeafPlan::Company => LeafPlanV::Company,
            LeafPlan::Word => LeafPlanV::Word,
            LeafPlan::Words(n) => LeafPlanV::Words(*n),
            LeafPlan::Sentence(n) => LeafPlanV::Sentence(*n),
            LeafPlan::Paragraph(n) => LeafPlanV::Paragraph(*n),
            LeafPlan::Number { min, max } => LeafPlanV::Number { min: *min, max: *max },
            LeafPlan::Float { min, max } => LeafPlanV::Float { min: min@, max: max@ },
            LeafPlan::Bool(p) => LeafPlanV::Bool(*p),
            LeafPlan::Uuid => LeafPlanV::Uuid,
        }
    }
}

/// No arguments allowed.
pub open spec fn no_args_s(name: Seq<char>, args: Seq<Seq<char>>) -> Result<(), FakeErrorV> {
    if args.len() == 0 { Ok(()) } else { Err(FakeErrorV::NoArgs(name)) }
}

/// An optional count argument: a non-negative integer, else `default`.
pub open spec fn count_arg_s(name: Seq<char>, args: Seq<Seq<char>>, default: usize) -> Result<usize, FakeErrorV> {
    if args.len() == 0 {
        Ok(default)
    } else if args.len() == 1 {
        if integral(args[0]) { Ok(count_of(args[0])) } else { Err(FakeErrorV::CountNotInteger(name, args[0])) }
    } else {
        Err(FakeErrorV::CountArity(name, args.len() as usize))
    }
}

/// An optional percentage argument in `0..=100` (its integer part is taken), else `default`.
pub open spec fn pct_arg_s(name: Seq<char>, args: Seq<Seq<char>>, default: u8) -> Result<u8, FakeErrorV> {
    if args.len() == 0 {
        Ok(default)
    } else if args.len() == 1 {
        if dec_le(args[0], seq!['1', '0', '0']) {
            Ok(int_part_capped(args[0], 100) as u8)
        } else {
            Err(FakeErrorV::PctOutOfRange(name, args[0]))
        }
    } else {
        Err(FakeErrorV::PctArity(name, args.len() as usize))
    }
}

/// An optional range `(min, max)` with `min <= max`; `None` when the arguments are absent.
pub open spec fn range_arg_s(name: Seq<char>, args: Seq<Seq<char>>) -> Result<Option<(Seq<char>, Seq<char>)>, FakeErrorV> {
    if args.len() == 0 {
        Ok(None)
    } else if args.len() == 2 {
        if dec_le(args[0], args[1]) {
            Ok(Some((args[0], args[1])))
        } else {
            Err(FakeErrorV::RangeOrder(name, args[0], args[1]))
        }
    } else {
        Err(FakeErrorV::RangeArity(name, args.len() as usize))
    }
}

/// The integer part of a number, at most `i64::MAX`.
pub open spec fn to_i64(s: Seq<char>) -> i64 {
    int_part_capped(s, i64::MAX as nat) as i64
}

/// The integer range of a checked range argument.
pub open spec fn int_range(r: Option<(Seq<char>, Seq<char>)>) -> Option<(i64, i64)> {
    match r {
        Some((a, b)) => Some((to_i64(a), to_i64(b))),
        None => None,
    }
}

/// The leaf types that take no argument and have no French data.
pub open spec fn plain_plan(name: Seq<char>) -> Option<LeafPlanV> {
    if name == "username"@ { Some(LeafPlanV::Username) }
    else if name == "email"@ { Some(LeafPlanV::Email) }
    else if name == "address"@ { Some(LeafPlanV::Address) }
    else if name == "city"@ { Some(LeafPlanV::City) }
    else if name == "country"@ { Some(LeafPlanV::Country) }
    else if name == "zipcode"@ { Some(LeafPlanV::Zipcode) }
    else if name == "url"@ { Some(LeafPlanV::Url) }
    else if name == "job"@ { Some(LeafPlanV::Job) }
    else if name == "company"@ { Some(LeafPlanV::Company) }
    else if name == "word"@ { Some(LeafPlanV::Word) }
    else if name == "uuid"@ { Some(LeafPlanV::Uuid) }
    else { None }
}

/// The checked plan of a leaf, or why it is refused: an unknown locale first, then the type
/// name, then its arguments, and whether French data exists for it.
pub open spec fn leaf_plan(name: Seq<char>, args: Seq<Seq<char>>, locale: Option<Seq<char>>) -> Result<LeafPlanV, FakeErrorV> {
    if locale matches Some(loc) && loc != "fr"@ {
        Err(FakeErrorV::UnknownLocale(locale->0))
    } else {
        let fr = locale is Some;
        if name == "name"@ {
            if args.len() > 0 { Err(FakeErrorV::NoArgs(name)) } else { Ok(LeafPlanV::Name { fr }) }
        } else if name == "first_name"@ {
            if args.len() > 0 { Err(FakeErrorV::NoArgs(name)) } else { Ok(LeafPlanV::FirstName { fr }) }
        } else if name == "last_name"@ {
            if args.len() > 0 { Err(FakeErrorV::NoArgs(name)) } else { Ok(LeafPlanV::LastName { fr }) }
        } else if name == "phone"@ {
            if args.len() > 0 { Err(FakeErrorV::NoArgs(name)) } else { Ok(LeafPlanV::Phone { fr }) }
        } else if name == "date"@ {
            match range_arg_s(name, args) {
                Ok(r) => Ok(LeafPlanV::Date { years: int_range(r), fr }),
                Err(e) => Err(e),
            }
        } else if name == "datetime"@ {
            match range_arg_s(name, args) {
                Ok(r) => Ok(LeafPlanV::DateTime { years: int_range(r), fr }),
                Err(e) => Err(e),
            }
        } else if plain_plan(name) is Some {
            if args.len() > 0 {
                Err(FakeErrorV::NoArgs(name))
            } else if fr {
                Err(FakeErrorV::FrUnsupported(name))
            } else {
                Ok(plain_plan(name)->0)
            }
        } else if name == "words"@ || name == "sentence"@ || name == "paragraph"@ {
            if fr {
                Err(FakeErrorV::FrUnsupported(name))
            } else {
                let default: usize = if name == "sentence"@ { 6 } else { 3 };
                match count_arg_s(name, args, default) {
                    Ok(n) => Ok(if name == "words"@ {
                        LeafPlanV::Words(n)
                    } else if name == "sentence"@ {
                        LeafPlanV::Sentence(n)
                    } else {
                        LeafPlanV::Paragraph(n)
                    }),
                    Err(e) => Err(e),
                }
            }
        } else if name == "number"@ {
            if fr {
                Err(FakeErrorV::FrUnsupported(name))
            } else {
                match range_arg_s(name, args) {
                    Ok(Some((a, b))) => Ok(LeafPlanV::Number { min: to_i64(a), max: to_i64(b) }),
                    Ok(None) => Ok(LeafPlanV::Number { min: 0, max: 1000 }),
                    Err(e) => Err(e),
                }
            }
        } else if name == "float"@ {
            if fr {
                Err(FakeErrorV::FrUnsupported(name))
            } else {
                match range_arg_s(name, args) {
                    Ok(Some((a, b))) => Ok(LeafPlanV::Float { min: a, max: b }),
                    Ok(None) => Ok(LeafPlanV::Float { min: seq!['0'], max: seq!['1'] }),
                    Err(e) => Err(e),
                }
            }
        } else if name == "bool"@ {
            if fr {
                Err(FakeErrorV::FrUnsupported(name))
            } else {
                match pct_arg_s(name, args, 50) {
                    Ok(p) => Ok(LeafPlanV::Bool(p)),
                    Err(e) => Err(e),
                }
            }
        } else {
            Err(FakeErrorV::UnknownType(name))
        }
    }
}

/// The string holds exactly the literal.
fn text_is(s: &String, text: &str) -> (r: bool)
    ensures
        r == (s@ == text@),
{
    *s == String::from_str(text)
}

/// Refuses arguments for a type that takes none.
pub fn no_args(name: &String, args: &Vec<String>) -> (r: Result<(), FakeError>)
    ensures
        match r {
            Ok(()) => no_args_s(name@, args.deep_view()) == Ok::<(), FakeErrorV>(()),
            Err(e) => no_args_s(name@, args.deep_view()) == Err::<(), FakeErrorV>(e.deep_view()),
        },
{
    if args.len() == 0 {
        Ok(())
    } else {
        Err(FakeError::NoArgs(name.clone()))
    }
}

/// Reads an optional count argument.
pub fn optional_count_arg(name: &String, args: &Vec<String>, default: usize) -> (r: Result<usize, FakeError>)
    ensures
        match r {
            Ok(n) => count_arg_s(name@, args.deep_view(), default) == Ok::<usize, FakeErrorV>(n),
            Err(e) => count_arg_s(name@, args.deep_view(), default) == Err::<usize, FakeErrorV>(e.deep_view()),
        },
{
    if args.len() == 0 {
        Ok(default)
    } else if args.len() == 1 {
        let cs = chars_of(args[0].as_str());
        if is_integral(cs.as_slice()) {
            Ok(int_part(cs.as_slice(), usize::MAX as u64) as usize)
        } else {
            Err(FakeError::CountNotInteger(name.clone(), args[0].clone()))
        }
    } else {
        Err(FakeError::CountArity(name.clone(), args.len()))
    }
}

/// Reads an optional percentage argument.
pub fn optional_pct_arg(name: &String, args: &Vec<String>, default: u8) -> (r: Result<u8, FakeError>)
    ensures
        match r {
            Ok(p) => pct_arg_s(name@, args.deep_view(), default) == Ok::<u8, FakeErrorV>(p),
            Err(e) => pct_arg_s(name@, args.deep_view(), default) == Err::<u8, FakeErrorV>(e.deep_view()),
        },
{
    if args.len() == 0 {
        Ok(default)
    } else if args.len() == 1 {
        let cs = chars_of(args[0].as_str());
        let hundred = ['1', '0', '0'];
        assert(hundred@ =~= seq!['1', '0', '0']);
        if dec_le_exec(cs.as_slice(), hundred.as_slice()) {
            proof {
                lemma_pct_bound(args.deep_view()[0]);
            }
            Ok(int_part(cs.as_slice(), 100) as u8)
        } else {
            Err(FakeError::PctOutOfRange(name.clone(), args[0].clone()))
        }
    } else {
        Err(FakeError::PctArity(name.clone(), args.len()))
    }
}

proof fn lemma_pct_bound(s: Seq<char>)
    ensures
        int_part_capped(s, 100) <= 100,
{
}

/// Reads an optional `(min, max)` range.
pub fn range_args(name: &String, args: &Vec<String>) -> (r: Result<Option<(String, String)>, FakeError>)
    ensures
        match r {
            Ok(o) => range_arg_s(name@, args.deep_view()) == Ok::<Option<(Seq<char>, Seq<char>)>, FakeErrorV>(
                o.deep_view()),
            Err(e) => range_arg_s(name@, args.deep_view()) == Err::<Option<(Seq<char>, Seq<char>)>, FakeErrorV>(
                e.deep_view()),
        },
{
    if args.len() == 0 {
        Ok(None)
    } else if args.len() == 2 {
        let a = chars_of(args[0].as_str());
        let b = chars_of(args[1].as_str());
        if dec_le_exec(a.as_slice(), b.as_slice()) {
            Ok(Some((args[0].clone(), args[1].clone())))
        } else {
            Err(FakeError::RangeOrder(name.clone(), args[0].clone(), args[1].clone()))
        }
    } else {
        Err(FakeError::RangeArity(name.clone(), args.len()))
    }
}

/// Refuses `@fr` for a type without French data.
pub fn fr_unsupported(name: &str, fr: bool) -> (r: Result<(), FakeError>)
    ensures
        r is Ok <==> !fr,
        r matches Err(e) ==> e.deep_view() == FakeErrorV::FrUnsupported(name@),
{
    if fr {
        return Err(FakeError::FrUnsupported(String::from_str(name)));
    }
    Ok(())
}

/// The integer part of a number, at most `i64::MAX`.
fn text_to_i64(s: &String) -> (r: i64)
    ensures
        r == to_i64(s@),
{
    let cs = chars_of(s.as_str());
    int_part(cs.as_slice(), i64::MAX as u64) as i64
}

fn years_of(r: Option<(String, String)>) -> (y: Option<(i64, i64)>)
    ensures
        y == int_range(r.deep_view()),
{
    match r {
        Some((a, b)) => Some((text_to_i64(&a), text_to_i64(&b))),
        None => None,
    }
}

/// Checks a leaf and says what to draw for it.
pub fn check_leaf(name: &String, args: &Vec<String>, locale: &Option<String>) -> (r: Result<LeafPlan, FakeError>)
    ensures
        match r {
            Ok(p) => leaf_plan(name@, args.deep_view(), locale.deep_view()) == Ok::<LeafPlanV, FakeErrorV>(p.deep_view()),
            Err(e) => leaf_plan(name@, args.deep_view(), locale.deep_view()) == Err::<LeafPlanV, FakeErrorV>(e.deep_view()),
        },
{
    if let Some(loc) = locale {
        if !text_is(loc, "fr") {
            return Err(FakeError::UnknownLocale(loc.clone()));
        }
    }
    let fr = locale.is_some();
    if text_is(name, "name") {
        match no_args(name, args) { Err(e) => Err(e), Ok(()) => Ok(LeafPlan::Name { fr }) }
    } else if text_is(name, "first_name") {
        match no_args(name, args) { Err(e) => Err(e), Ok(()) => Ok(LeafPlan::FirstName { fr }) }
    } else if text_is(name, "last_name") {
        match no_args(name, args) { Err(e) => Err(e), Ok(()) => Ok(LeafPlan::LastName { fr }) }
    } else if text_is(name, "phone") {
        match no_args(name, args) { Err(e) => Err(e), Ok(()) => Ok(LeafPlan::Phone { fr }) }
    } else if text_is(name, "date") {
        match range_args(name, args) { Err(e) => Err(e), Ok(r) => Ok(LeafPlan::Date { years: years_of(r), fr }) }
    } else if text_is(name, "datetime") {
        match range_args(name, args) { Err(e) => Err(e), Ok(r) => Ok(LeafPlan::DateTime { years: years_of(r), fr }) }
    } else {
        let plain = if text_is(name, "username") { Some(LeafPlan::Username) }
            else if text_is(name, "email") { Some(LeafPlan::Email) }
            else if text_is(name, "address") { Some(LeafPlan::Address) }
            else if text_is(name, "city") { Some(LeafPlan::City) }
            else if text_is(name, "country") { Some(LeafPlan::Country) }
            else if text_is(name, "zipcode") { Some(LeafPlan::Zipcode) }
            else if text_is(name, "url") { Some(LeafPlan::Url) }
            else if text_is(name, "job") { Some(LeafPlan::Job) }
            else if text_is(name, "company") { Some(LeafPlan::Company) }
            else if text_is(name, "word") { Some(LeafPlan::Word) }
            else if text_is(name, "uuid") { Some(LeafPlan::Uuid) }
            else { None };
        match plain {
            Some(p) => {
                match no_args(name, args) {
                    Err(e) => {
                        return Err(e);
                    },
                    Ok(()) => {},
                }
                match fr_unsupported(name.as_str(), fr) {
                    Err(e) => Err(e),
                    Ok(()) => Ok(p),
                }
            },
            None => {
                let is_words = text_is(name, "words");
                let is_sentence = text_is(name, "sentence");
                let is_paragraph = text_is(name, "paragraph");
                if is_words || is_sentence || is_paragraph {
                    match fr_unsupported(name.as_str(), fr) {
                        Err(e) => {
                            return Err(e);
                        },
                        Ok(()) => {},
                    }
                    let default: usize = if is_sentence { 6 } else { 3 };
                    match optional_count_arg(name, args, default) {
                        Err(e) => Err(e),
                        Ok(n) => Ok(if is_words {
                            LeafPlan::Words(n)
                        } else if is_sentence {
                            LeafPlan::Sentence(n)
                        } else {
                            LeafPlan::Paragraph(n)
                        }),
                    }
                } else if text_is(name, "number") {
                    match fr_unsupported(name.as_str(), fr) {
                        Err(e) => {
                            return Err(e);
                        },
                        Ok(()) => {},
                    }
                    match range_args(name, args) {
                        Err(e) => Err(e),
                        Ok(Some((a, b))) => Ok(LeafPlan::Number { min: text_to_i64(&a), max: text_to_i64(&b) }),
                        Ok(None) => Ok(LeafPlan::Number { min: 0, max: 1000 }),
                    }
                } else if text_is(name, "float") {
                    match fr_unsupported(name.as_str(), fr) {
                        Err(e) => {
                            return Err(e);
                        },
                        Ok(()) => {},
                    }
                    match range_args(name, args) {
                        Err(e) => Err(e),
                        Ok(Some((a, b))) => Ok(LeafPlan::Float { min: a, max: b }),
                        Ok(None) => {
                            let zc = ['0'];
                            let oc = ['1'];
                            assert(zc@ =~= seq!['0']);
                            assert(oc@ =~= seq!['1']);
                            let zero = string_of(&zc);
                            let one = string_of(&oc);
                            Ok(LeafPlan::Float { min: zero, max: one })
                        },
                    }
                } else if text_is(name, "bool") {
                    match fr_unsupported(name.as_str(), fr) {
                        Err(e) => {
                            return Err(e);
                        },
                        Ok(()) => {},
                    }
                    match optional_pct_arg(name, args, 50) {
                        Err(e) => Err(e),
                        Ok(p) => Ok(LeafPlan::Bool(p)),
                    }
                } else {
                    Err(FakeError::UnknownType(name.clone()))
                }
            },
        }
    }
}


// ---------------------------------------------------------------------------
// Drawing values
// ---------------------------------------------------------------------------

/// `fake::faker::name::en::Name`: a random full name, `<first name> <last name>`; the
/// contract claims only that it is not empty.
#[verifier::external_body]
fn fake_name_en() -> (r: String)
    ensures
        r@.len() > 0,
{
    fake::faker::name::en::Name().fake()
}

/// `fake::faker::name::fr_fr::Name`: a random French full name, `<first name> <last name>`;
/// the contract claims only that it is not empty.
#[verifier::external_body]
fn fake_name_fr() -> (r: String)
    ensures
        r@.len() > 0,
{
    fake::faker::name::fr_fr::Name().fake()
}

/// `fake::faker::name::en::FirstName`: one of the locale's first names, none of them empty.
#[verifier::external_body]
fn fake_first_name_en() -> (r: String)
    ensures
        r@.len() > 0,
{
    fake::faker::name::en::FirstName().fake()
}

/// `fake::faker::name::fr_fr::FirstName`: one of the locale's first names, none of them empty.
#[verifier::external_body]
fn fake_first_name_fr() -> (r: String)
    ensures
        r@.len() > 0,
{
    fake::faker::name::fr_fr::FirstName().fake()
}

/// `fake::faker::name::en::LastName`: one of the locale's last names, none of them empty.
#[verifier::external_body]
fn fake_last_name_en() -> (r: String)
    ensures
        r@.len() > 0,
{
    fake::faker::name::en::LastName().fake()
}

/// `fake::faker::name::fr_fr::LastName`: one of the locale's last names, none of them empty.
#[verifier::external_body]
fn fake_last_name_fr() -> (r: String)
    ensures
        r@.len() > 0,
{
    fake::faker::name::fr_fr::LastName().fake()
}

/// `fake::faker::phone_number::en::PhoneNumber`: one of the locale's non-empty number
/// formats with its digits drawn; the contract claims only that it is not empty.
#[verifier::external_body]
fn fake_phone_en() -> (r: String)
    ensures
        r@.len() > 0,
{
    fake::faker::phone_number::en::PhoneNumber().fake()
}

/// `fake::faker::phone_number::fr_fr::PhoneNumber`: one of the locale's non-empty number
/// formats (`01 ## ## ## ##`, ...) with its digits drawn; the contract claims only that it is
/// not empty.
#[verifier::external_body]
fn fake_phone_fr() -> (r: String)
    ensures
        r@.len() > 0,
{
    fake::faker::phone_number::fr_fr::PhoneNumber().fake()
}

/// `fake::faker::internet::en::Username`. Nothing is claimed of it.
#[verifier::external_body]
fn fake_username() -> String {
    fake::faker::internet::en::Username().fake()
}

/// `fake::faker::internet::en::SafeEmail`: a first name, lower-cased, then `@example.` and
/// one of `com`, `net`, `org`; the contract claims the part from the `@` on.
#[verifier::external_body]
fn fake_safe_email() -> (r: String)
    ensures
        email_shape(r@),
{
    fake::faker::internet::en::SafeEmail().fake()
}

/// `fake::faker::address::en::BuildingNumber`. Nothing is claimed of it.
#[verifier::external_body]
fn fake_building_number() -> String {
    fake::faker::address::en::BuildingNumber().fake()
}

/// `fake::faker::address::en::StreetName`. Nothing is claimed of it.
#[verifier::external_body]
fn fake_street_name() -> String {
    fake::faker::address::en::StreetName().fake()
}

/// `fake::faker::address::en::CityName`. Nothing is claimed of it.
#[verifier::external_body]
fn fake_city_name() -> String {
    fake::faker::address::en::CityName().fake()
}

/// `fake::faker::address::en::ZipCode`. Nothing is claimed of it.
#[verifier::external_body]
fn fake_zip_code() -> String {
    fake::faker::address::en::ZipCode().fake()
}

/// `fake::faker::address::en::CountryName`. Nothing is claimed of it.
#[verifier::external_body]
fn fake_country_name() -> String {
    fake::faker::address::en::CountryName().fake()
}

/// `fake::faker::internet::en::DomainSuffix`. Nothing is claimed of it.
#[verifier::external_body]
fn fake_domain_suffix() -> String {
    fake::faker::internet::en::DomainSuffix().fake()
}

/// `fake::faker::job::en::Title`. Nothing is claimed of it.
#[verifier::external_body]
fn fake_job_title() -> String {
    fake::faker::job::en::Title().fake()
}

/// `fake::faker::company::en::CompanyName`. Nothing is claimed of it.
#[verifier::external_body]
fn fake_company_name() -> String {
    fake::faker::company::en::CompanyName().fake()
}

/// `fake::faker::lorem::en::Word`. Nothing is claimed of it.
#[verifier::external_body]
fn fake_word() -> String {
    fake::faker::lorem::en::Word().fake()
}

/// `fake::faker::lorem::en::Words(n..n + 1)`: exactly `n` random words.
#[verifier::external_body]
fn fake_words(n: usize) -> (r: Vec<String>)
    requires
        n < usize::MAX,
    ensures
        r@.len() == n,
{
    fake::faker::lorem::en::Words(n..n + 1).fake()
}

/// `fake::faker::lorem::en::Sentence(n..n + 1)`: `n` random words joined by spaces, then a
/// period.
#[verifier::external_body]
fn fake_sentence(n: usize) -> (r: String)
    requires
        n < usize::MAX,
    ensures
        sentence_of(n as nat, r@),
{
    fake::faker::lorem::en::Sentence(n..n + 1).fake()
}

/// `fake::faker::lorem::en::Paragraph(n..n + 1)`: `n` sentences (each `Sentence(4..10)`, so
/// of four to nine words) joined by newlines.
#[verifier::external_body]
fn fake_paragraph(n: usize) -> (r: String)
    requires
        n < usize::MAX,
    ensures
        paragraph_of(n as nat, r@),
{
    fake::faker::lorem::en::Paragraph(n..n + 1).fake()
}

/// `fake::faker::boolean::en::Boolean(pct)`: true when a draw from `0..100` is below `pct`;
/// so always true from 100 on and always false at 0.
#[verifier::external_body]
fn fake_boolean(pct: u8) -> (r: bool)
    ensures
        pct >= 100 ==> r,
        pct == 0 ==> !r,
{
    fake::faker::boolean::en::Boolean(pct).fake()
}

/// `fake::uuid::UUIDv4` as text: a random version-4 UUID (RFC 4122 variant) written
/// hyphenated in lower-case hexadecimal.
#[verifier::external_body]
fn fake_uuid() -> (r: String)
    ensures
        uuid_shape(r@),
{
    fake::uuid::UUIDv4.fake()
}

/// `(lo..hi).fake::<i64>()`: a random integer of `lo..hi`.
#[verifier::external_body]
fn fake_i64_below(lo: i64, hi: i64) -> (r: i64)
    requires
        lo < hi,
    ensures
        lo <= r < hi,
{
    (lo..hi).fake::<i64>()
}

/// `(lo..hi).fake::<u32>()`: a random integer of `lo..hi`.
#[verifier::external_body]
fn fake_u32_below(lo: u32, hi: u32) -> (r: u32)
    requires
        lo < hi,
    ensures
        lo <= r < hi,
{
    (lo..hi).fake::<u32>()
}

/// `(lo..=hi).fake::<u32>()`: a random integer of `lo..=hi`.
#[verifier::external_body]
fn fake_u32_through(lo: u32, hi: u32) -> (r: u32)
    requires
        lo <= hi,
    ensures
        lo <= r <= hi,
{
    (lo..=hi).fake::<u32>()
}

/// The first year `chrono::NaiveDate` can hold.
pub open spec fn min_date_year() -> int {
    -262143
}

/// The last year `chrono::NaiveDate` can hold.
pub open spec fn max_date_year() -> int {
    262142
}

/// Leap year of the proleptic Gregorian calendar.
pub open spec fn leap_year(y: int) -> bool {
    (y % 4 == 0 && y % 100 != 0) || y % 400 == 0
}

/// Days of month `m` of year `y`.
pub open spec fn days_in_month(y: int, m: int) -> int {
    if m == 2 {
        if leap_year(y) { 29 } else { 28 }
    } else if m == 4 || m == 6 || m == 9 || m == 11 {
        30
    } else {
        31
    }
}

/// A calendar date that `chrono::NaiveDate` can hold.
pub open spec fn valid_date(y: int, m: int, d: int) -> bool {
    min_date_year() <= y <= max_date_year() && 1 <= m <= 12 && 1 <= d <= days_in_month(y, m)
}

/// `chrono::NaiveDate::from_ymd_opt(y, m, d).is_some()`: the date exists in the proleptic
/// Gregorian calendar and its year lies in the range chrono supports.
#[verifier::external_body]
fn date_exists(y: i32, m: u32, d: u32) -> (r: bool)
    ensures
        r == valid_date(y as int, m as int, d as int),
{
    chrono::NaiveDate::from_ymd_opt(y, m, d).is_some()
}

/// The date pattern used: ISO, or day/month/year in French.
pub open spec fn date_pattern(fr: bool) -> Seq<char> {
    if fr { "%d/%m/%Y"@ } else { "%Y-%m-%d"@ }
}

/// The date-and-time pattern used.
pub open spec fn datetime_pattern(fr: bool) -> Seq<char> {
    if fr { "%d/%m/%Y %H:%M:%S"@ } else { "%Y-%m-%dT%H:%M:%SZ"@ }
}

/// `t` with zeros in front up to `n` characters.
pub open spec fn zero_padded(t: Seq<char>, n: nat) -> Seq<char> {
    if t.len() >= n { t } else { Seq::new((n - t.len()) as nat, |_i: int| '0') + t } 
}

/// A two-digit field (`%m`, `%d`, `%H`, `%M`, `%S`).
pub open spec fn two_digits(v: u32) -> Seq<char> {
    zero_padded(decimal(v as nat), 2)
}

/// The year as chrono writes `%Y`: at least four digits, with a sign outside `0..=9999`.
pub open spec fn year_text(y: i32) -> Seq<char> {
    if 0 <= y <= 9999 {
        zero_padded(decimal(y as nat), 4)
    } else if y < 0 {
        "-"@ + zero_padded(decimal((-y) as nat), 4)
    } else {
        "+"@ + zero_padded(decimal(y as nat), 4)
    }
}

/// The text of a date: `YYYY-MM-DD`, or `DD/MM/YYYY` in French.
pub open spec fn date_text(y: i32, m: u32, d: u32, fr: bool) -> Seq<char> {
    if fr {
        two_digits(d) + "/"@ + two_digits(m) + "/"@ + year_text(y)
    } else {
        year_text(y) + "-"@ + two_digits(m) + "-"@ + two_digits(d)
    }
}

/// The text of a date and time: `YYYY-MM-DDTHH:MM:SSZ`, or `DD/MM/YYYY HH:MM:SS` in French.
pub open spec fn datetime_text(y: i32, m: u32, d: u32, h: u32, mi: u32, s: u32, fr: bool) -> Seq<char> {
    let time = two_digits(h) + ":"@ + two_digits(mi) + ":"@ + two_digits(s);
    if fr {
        date_text(y, m, d, true) + " "@ + time
    } else {
        date_text(y, m, d, false) + "T"@ + time + "Z"@
    }
}

/// Writes a date with `chrono::NaiveDate::format`: for the two date patterns of this library
/// (`%Y` a year of at least four digits, signed outside `0..=9999`; `%m`, `%d` two digits)
/// that is `date_text`. Only those patterns are handed to it: chrono fails on an unknown
/// specifier, and `to_string` would then panic.
#[verifier::external_body]
fn format_date(y: i32, m: u32, d: u32, pattern: &str) -> (r: String)
    requires
        valid_date(y as int, m as int, d as int),
        pattern@ == date_pattern(true) || pattern@ == date_pattern(false),
    ensures
        r@ == date_text(y, m, d, pattern@ == date_pattern(true)),
{
    chrono::NaiveDate::from_ymd_opt(y, m, d).unwrap().format(pattern).to_string()
}

/// Writes a date and time with `chrono::NaiveDateTime::format`: for the two date-and-time
/// patterns of this library (`%H`, `%M`, `%S` two digits, the rest as for `format_date`) that
/// is `datetime_text`. Only those patterns are handed to it: chrono fails on an unknown
/// specifier, and `to_string` would then panic.
#[verifier::external_body]
fn format_datetime(y: i32, m: u32, d: u32, h: u32, mi: u32, s: u32, pattern: &str) -> (r: String)
    requires
        valid_date(y as int, m as int, d as int),
        pattern@ == datetime_pattern(true) || pattern@ == datetime_pattern(false),
        h < 24,
        mi < 60,
        s < 60,
    ensures
        r@ == datetime_text(y, m, d, h, mi, s, pattern@ == datetime_pattern(true)),
{
    let date = chrono::NaiveDate::from_ymd_opt(y, m, d).unwrap();
    let time = chrono::NaiveTime::from_hms_opt(h, mi, s).unwrap();
    chrono::NaiveDateTime::new(date, time).format(pattern).to_string()
}

/// A random valid date with its year in `min_year..=max_year`: a random year, month and day
/// of month up to 31, the day lowered until the date exists.
fn random_date(min_year: i64, max_year: i64) -> (r: (i32, u32, u32))
    requires
        min_date_year() <= min_year <= max_year <= max_date_year(),
    ensures
        min_year <= r.0 <= max_year,
        valid_date(r.0 as int, r.1 as int, r.2 as int),
{
    let year = fake_i64_below(min_year, max_year + 1) as i32;
    let month = fake_u32_through(1, 12);
    let mut day = fake_u32_through(1, 31);
    while !date_exists(year, month, day)
        invariant
            min_year <= year <= max_year,
            min_date_year() <= year <= max_date_year(),
            1 <= month <= 12,
            1 <= day <= 31,
        decreases day,
    {
        assert(day > days_in_month(year as int, month as int));
        day = day - 1;
    }
    (year, month, day)
}

/// `t` is `n` words joined by spaces, then a period.
pub open spec fn sentence_of(n: nat, t: Seq<char>) -> bool {
    exists|ws: Seq<Seq<char>>| ws.len() == n && #[trigger] joined(ws) + "."@ == t
}

/// `s` is a sentence of four to nine words.
pub open spec fn short_sentence(s: Seq<char>) -> bool {
    exists|k: nat| 4 <= k <= 9 && #[trigger] sentence_of(k, s)
}

/// The texts joined with newlines.
pub open spec fn joined_lines(ss: Seq<Seq<char>>) -> Seq<char>
    decreases ss.len(),
{
    if ss.len() == 0 {
        Seq::empty()
    } else if ss.len() == 1 {
        ss[0]
    } else {
        joined_lines(ss.drop_last()) + "\n"@ + ss.last()
    }
}

/// `t` is `n` sentences of four to nine words, joined by newlines.
pub open spec fn paragraph_of(n: nat, t: Seq<char>) -> bool {
    exists|ss: Seq<Seq<char>>| {
        &&& ss.len() == n
        &&& #[trigger] joined_lines(ss) == t
        &&& forall|i: int| 0 <= i < ss.len() ==> short_sentence(#[trigger] ss[i])
    }
}

/// A lower-case hexadecimal digit.
pub open spec fn lower_hex(c: char) -> bool {
    ('0' <= c && c <= '9') || ('a' <= c && c <= 'f')
}

/// `t` is a version-4 UUID of the RFC 4122 variant, hyphenated, in lower case:
/// `xxxxxxxx-xxxx-4xxx-yxxx-xxxxxxxxxxxx` with `y` one of `8`, `9`, `a`, `b`.
pub open spec fn uuid_shape(t: Seq<char>) -> bool {
    &&& t.len() == 36
    &&& forall|i: int| 0 <= i < 36 ==> if i == 8 || i == 13 || i == 18 || i == 23 {
        t[i] == '-'
    } else {
        lower_hex(#[trigger] t[i])
    }
    &&& t[14] == '4'
    &&& (t[19] == '8' || t[19] == '9' || t[19] == 'a' || t[19] == 'b')
}

/// The word list joined with single spaces.
pub open spec fn joined(ws: Seq<Seq<char>>) -> Seq<char>
    decreases ws.len(),
{
    if ws.len() == 0 {
        Seq::empty()
    } else if ws.len() == 1 {
        ws[0]
    } else {
        joined(ws.drop_last()) + " "@ + ws.last()
    }
}

fn join_words(ws: &Vec<String>) -> (r: String)
    ensures
        r@ == joined(ws.deep_view()),
{
    let ghost wv = ws.deep_view();
    let mut r = String::new();
    let mut i: usize = 0;
    while i < ws.len()
        invariant
            i <= ws@.len(),
            wv == ws.deep_view(),
            r@ == joined(wv.subrange(0, i as int)),
        decreases ws@.len() - i,
    {
        if i > 0 {
            append(&mut r, " ");
        }
        append(&mut r, ws[i].as_str());
        proof {
            let q = wv.subrange(0, i + 1);
            assert(q.drop_last() =~= wv.subrange(0, i as int));
            if i == 0 {
                assert(r@ =~= joined(q));
            }
        }
        i = i + 1;
    }
    assert(wv.subrange(0, wv.len() as int) =~= wv);
    r
}

/// A leaf that cannot be drawn: a date year range chrono cannot hold or that is reversed, a
/// number range that is reversed or ends at `i64::MAX`, a word, sentence or paragraph count of
/// `usize::MAX`.
pub open spec fn out_of_range(plan: LeafPlanV) -> bool {
    match plan {
        LeafPlanV::Date { years: Some((a, b)), .. } => !(min_date_year() <= a <= b <= max_date_year()),
        LeafPlanV::DateTime { years: Some((a, b)), .. } => !(min_date_year() <= a <= b <= max_date_year()),
        LeafPlanV::Number { min, max } => !(min <= max && max < i64::MAX),
        LeafPlanV::Words(n) => n == usize::MAX,
        LeafPlanV::Sentence(n) => n == usize::MAX,
        LeafPlanV::Paragraph(n) => n == usize::MAX,
        _ => false,
    }
}

/// The years a date is drawn from: those asked, else the default range for the current
/// year `now` (see `default_years_spec`).
pub open spec fn years_for(years: Option<(i64, i64)>, now: int) -> (int, int) {
    match years {
        Some((a, b)) => (a as int, b as int),
        None => default_years_spec(now),
    }
}

/// A drawn date: the text chrono writes for some valid date with its year in `years`.
pub open spec fn date_value_ok(years: (int, int), fr: bool, v: JScalar) -> bool {
    exists|y: i32, m: u32, d: u32| {
        &&& valid_date(y as int, m as int, d as int)
        &&& years.0 <= y <= years.1
        &&& v.deep_view() == crate::tree::ScalarV::Str(#[trigger] date_text(y, m, d, fr))
    }
}

/// A drawn date and time: the text chrono writes for some valid date, with its year in
/// `years`, and time of day.
pub open spec fn datetime_value_ok(years: (int, int), fr: bool, v: JScalar) -> bool {
    exists|y: i32, m: u32, d: u32, h: u32, mi: u32, s: u32| {
        &&& valid_date(y as int, m as int, d as int)
        &&& h < 24 && mi < 60 && s < 60
        &&& years.0 <= y <= years.1
        &&& v.deep_view() == crate::tree::ScalarV::Str(
            #[trigger] datetime_text(y, m, d, h, mi, s, fr),
        )
    }
}

/// A drawn integer of `min..=max`.
pub open spec fn number_value_ok(min: i64, max: i64, v: JScalar) -> bool {
    exists|k: int| min <= k <= max && v.deep_view() == crate::tree::ScalarV::Number(#[trigger] int_text(k))
}

/// `n` drawn words joined by spaces.
pub open spec fn words_value_ok(n: usize, v: JScalar) -> bool {
    exists|ws: Seq<Seq<char>>| ws.len() == n && v.deep_view() == crate::tree::ScalarV::Str(#[trigger] joined(ws))
}

/// What holds of every value drawn for a plan, `now` being the current year.
pub open spec fn leaf_value_ok(plan: LeafPlanV, now: int, v: JScalar) -> bool {
    match plan {
        LeafPlanV::Number { min, max } => number_value_ok(min, max, v),
        LeafPlanV::Bool(p) => v matches JScalar::Bool(b) && (p >= 100 ==> b) && (p == 0 ==> !b),
        LeafPlanV::Float { .. } => v is Number,
        LeafPlanV::Email => v matches JScalar::String(t) && email_shape(t@),
        LeafPlanV::Name { .. } | LeafPlanV::FirstName { .. } | LeafPlanV::LastName { .. } | LeafPlanV::Phone { .. } => v matches JScalar::String(
            t,
        ) && t@.len() > 0,
        LeafPlanV::Date { years, fr } => date_value_ok(years_for(years, now), fr, v),
        LeafPlanV::DateTime { years, fr } => datetime_value_ok(years_for(years, now), fr, v),
        LeafPlanV::Words(n) => words_value_ok(n, v),
        LeafPlanV::Sentence(n) => v matches JScalar::String(t) && sentence_of(n as nat, t@),
        LeafPlanV::Paragraph(n) => v matches JScalar::String(t) && paragraph_of(n as nat, t@),
        LeafPlanV::Uuid => v matches JScalar::String(t) && uuid_shape(t@),
        LeafPlanV::Address => v matches JScalar::String(t) && address_shape(t@),
        LeafPlanV::Url => v matches JScalar::String(t) && url_shape(t@),
        _ => v is String,
    }
}

/// An address at `example.<domain>`.
pub open spec fn email_of(user: Seq<char>, domain: Seq<char>) -> Seq<char> {
    user + "@example."@ + domain
}

/// `t` is written `<user>@example.com`, `.net` or `.org`.
pub open spec fn email_shape(t: Seq<char>) -> bool {
    exists|u: Seq<char>, d: Seq<char>| (d == "com"@ || d == "net"@ || d == "org"@) && #[trigger] email_of(u, d) == t
}

/// Decimal notation of an integer, with a leading `-` when negative.
pub open spec fn int_text(k: int) -> Seq<char> {
    if k < 0 { seq!['-'] + decimal((-k) as nat) } else { decimal(k as nat) }
}

fn i64_text(v: i64) -> (r: String)
    ensures
        r@ == int_text(v as int),
{
    let mut r = String::new();
    if v < 0 {
        append(&mut r, "-");
        let m: u64 = (0 - (v as i128)) as u64;
        push_decimal_u64(&mut r, m);
        proof { reveal_strlit("-"); }
        assert(r@ =~= int_text(v as int));
    } else {
        push_decimal_u64(&mut r, v as u64);
        assert(r@ =~= int_text(v as int));
    }
    r
}

/// A postal address: building number, street, city and zip code.
pub open spec fn address_of(b: Seq<char>, st: Seq<char>, c: Seq<char>, z: Seq<char>) -> Seq<char> {
    b + " "@ + st + ", "@ + c + " "@ + z
}

/// `t` is written as an address: `<building> <street>, <city> <zip>`.
pub open spec fn address_shape(t: Seq<char>) -> bool {
    exists|b: Seq<char>, st: Seq<char>, c: Seq<char>, z: Seq<char>| #[trigger] address_of(b, st, c, z) == t
}

/// A web address on a user name and a domain suffix.
pub open spec fn url_of(u: Seq<char>, d: Seq<char>) -> Seq<char> {
    "https://"@ + u + "."@ + d
}

/// `t` is written as `https://<user>.<domain suffix>`.
pub open spec fn url_shape(t: Seq<char>) -> bool {
    exists|u: Seq<char>, d: Seq<char>| #[trigger] url_of(u, d) == t
}

/// The default year range: the twenty years up to `now`, the first of them no earlier than
/// the first year a date can hold.
pub open spec fn default_years_spec(now: int) -> (int, int) {
    (if now - 20 < min_date_year() { min_date_year() } else { now - 20 }, now)
}

/// The default year range for the current year `now` (see `default_years_spec`).
fn default_years(now: i32) -> (r: (i64, i64))
    ensures
        (r.0 as int, r.1 as int) == default_years_spec(now as int),
{
    let now = now as i64;
    (if now - 20 < -262143 { -262143 } else { now - 20 }, now)
}

/// The checked year range of a date leaf, `now` being the current year.
fn date_years(name: &String, years: &Option<(i64, i64)>, now: i32) -> (r: Result<(i64, i64), FakeError>)
    requires
        min_date_year() <= now <= max_date_year(),
    ensures
        match r {
            Ok((lo, hi)) => min_date_year() <= lo <= hi <= max_date_year() && (lo as int, hi as int) == years_for(*years, now as int),
            Err(e) => (*years matches Some((a, b)) && !(min_date_year() <= a <= b <= max_date_year()))
                && e.deep_view() == FakeErrorV::OutOfRange(name@),
        },
{
    match years {
        Some((a, b)) => {
            if !(-262143 <= *a && *a <= *b && *b <= 262142) {
                return Err(FakeError::OutOfRange(name.clone()));
            }
            Ok((*a, *b))
        },
        None => Ok(default_years(now)),
    }
}

fn draw_date(name: &String, years: &Option<(i64, i64)>, fr: bool, now: i32) -> (r: Result<JScalar, FakeError>)
    requires
        min_date_year() <= now <= max_date_year(),
    ensures
        out_of_range(LeafPlanV::Date { years: *years, fr }) ==> (r matches Err(e) && e.deep_view() == FakeErrorV::OutOfRange(name@)),
        !out_of_range(LeafPlanV::Date { years: *years, fr }) ==> (r matches Ok(v) && leaf_value_ok(LeafPlanV::Date { years: *years, fr }, now as int, v)),
{
    let (lo, hi) = match date_years(name, years, now) {
        Ok(p) => p,
        Err(e) => {
            return Err(e);
        },
    };
    let (y, m, d) = random_date(lo, hi);
    let pattern = if fr { "%d/%m/%Y" } else { "%Y-%m-%d" };
    proof {
        reveal_strlit("%d/%m/%Y");
        reveal_strlit("%Y-%m-%d");
    }
    let text = format_date(y, m, d, pattern);
    let v = JScalar::String(text);
    assert(date_pattern(true) != date_pattern(false)) by {
        assert(date_pattern(true)[1] != date_pattern(false)[1]);
    }
    assert(v.deep_view() == crate::tree::ScalarV::Str(date_text(y, m, d, fr)));
    assert(date_value_ok(years_for(*years, now as int), fr, v));
    Ok(v)
}

fn draw_datetime(name: &String, years: &Option<(i64, i64)>, fr: bool, now: i32) -> (r: Result<JScalar, FakeError>)
    requires
        min_date_year() <= now <= max_date_year(),
    ensures
        out_of_range(LeafPlanV::DateTime { years: *years, fr }) ==> (r matches Err(e) && e.deep_view() == FakeErrorV::OutOfRange(name@)),
        !out_of_range(LeafPlanV::DateTime { years: *years, fr }) ==> (r matches Ok(v) && leaf_value_ok(LeafPlanV::DateTime { years: *years, fr }, now as int, v)),
{
    let (lo, hi) = match date_years(name, years, now) {
        Ok(p) => p,
        Err(e) => {
            return Err(e);
        },
    };
    let (y, m, d) = random_date(lo, hi);
    let h = fake_u32_below(0, 24);
    let mi = fake_u32_below(0, 60);
    let sec = fake_u32_below(0, 60);
    let pattern = if fr { "%d/%m/%Y %H:%M:%S" } else { "%Y-%m-%dT%H:%M:%SZ" };
    proof {
        reveal_strlit("%d/%m/%Y %H:%M:%S");
        reveal_strlit("%Y-%m-%dT%H:%M:%SZ");
    }
    let text = format_datetime(y, m, d, h, mi, sec, pattern);
    let v = JScalar::String(text);
    assert(datetime_pattern(true) != datetime_pattern(false)) by {
        assert(datetime_pattern(true)[1] != datetime_pattern(false)[1]);
    }
    assert(v.deep_view() == crate::tree::ScalarV::Str(datetime_text(y, m, d, h, mi, sec, fr)));
    assert(datetime_value_ok(years_for(*years, now as int), fr, v));
    Ok(v)
}

fn draw_number(name: &String, min: i64, max: i64) -> (r: Result<JScalar, FakeError>)
    ensures
        out_of_range(LeafPlanV::Number { min, max }) ==> (r matches Err(e) && e.deep_view() == FakeErrorV::OutOfRange(name@)),
        !out_of_range(LeafPlanV::Number { min, max }) ==> (r matches Ok(v) && leaf_value_ok(LeafPlanV::Number { min, max }, 0, v)),
{
    if !(min <= max && max < i64::MAX) {
        return Err(FakeError::OutOfRange(name.clone()));
    }
    let k = fake_i64_below(min, max + 1);
    let text = i64_text(k);
    let v = JScalar::Number(text);
    assert(v.deep_view() == crate::tree::ScalarV::Number(int_text(k as int)));
    Ok(v)
}

fn draw_words(name: &String, n: usize) -> (r: Result<JScalar, FakeError>)
    ensures
        out_of_range(LeafPlanV::Words(n)) ==> (r matches Err(e) && e.deep_view() == FakeErrorV::OutOfRange(name@)),
        !out_of_range(LeafPlanV::Words(n)) ==> (r matches Ok(v) && leaf_value_ok(LeafPlanV::Words(n), 0, v)),
{
    if n == usize::MAX {
        return Err(FakeError::OutOfRange(name.clone()));
    }
    let ws = fake_words(n);
    let text = join_words(&ws);
    assert(ws.deep_view().len() == n);
    assert(text@ == joined(ws.deep_view()));
    Ok(JScalar::String(text))
}

fn draw_address() -> (r: String)
    ensures
        address_shape(r@),
{
    let mut s = fake_building_number();
    let ghost b = s@;
    append(&mut s, " ");
    let street = fake_street_name();
    append(&mut s, street.as_str());
    append(&mut s, ", ");
    let city = fake_city_name();
    append(&mut s, city.as_str());
    append(&mut s, " ");
    let zip = fake_zip_code();
    append(&mut s, zip.as_str());
    assert(s@ =~= address_of(b, street@, city@, zip@));
    s
}

fn draw_url() -> (r: String)
    ensures
        url_shape(r@),
{
    let mut s = String::from_str("https://");
    let user = fake_username();
    append(&mut s, user.as_str());
    append(&mut s, ".");
    let domain = fake_domain_suffix();
    append(&mut s, domain.as_str());
    assert(s@ =~= url_of(user@, domain@));
    s
}

/// Draws a value for a checked leaf, `now` being the current year (dates default to the
/// twenty years up to it). `float_text(min, max)` draws a number of `min..max` and writes it
/// as JSON number text; nothing is assumed of what it gives back.
pub fn generate_leaf<F: Fn(&str, &str) -> String>(name: &String, plan: &LeafPlan, float_text: &F, now: i32) -> (r: Result<JScalar, FakeError>)
    requires
        forall|a: &str, b: &str| float_text.requires((a, b)),
        min_date_year() <= now <= max_date_year(),
    ensures
        out_of_range(plan.deep_view()) ==> (r matches Err(e) && e.deep_view() == FakeErrorV::OutOfRange(name@)),
        !out_of_range(plan.deep_view()) ==> (r matches Ok(v) && leaf_value_ok(plan.deep_view(), now as int, v)),
{
    match plan {
        LeafPlan::Date { years, fr } => draw_date(name, years, *fr, now),
        LeafPlan::DateTime { years, fr } => draw_datetime(name, years, *fr, now),
        LeafPlan::Number { min, max } => draw_number(name, *min, *max),
        LeafPlan::Words(n) => draw_words(name, *n),
        LeafPlan::Sentence(n) => if *n == usize::MAX {
            Err(FakeError::OutOfRange(name.clone()))
        } else {
            Ok(JScalar::String(fake_sentence(*n)))
        },
        LeafPlan::Paragraph(n) => if *n == usize::MAX {
            Err(FakeError::OutOfRange(name.clone()))
        } else {
            Ok(JScalar::String(fake_paragraph(*n)))
        },
        LeafPlan::Float { min, max } => Ok(JScalar::Number(float_text(min.as_str(), max.as_str()))),
        LeafPlan::Bool(p) => Ok(JScalar::Bool(fake_boolean(*p))),
        LeafPlan::Email => Ok(JScalar::String(fake_safe_email())),
        _ => {
            let text = match plan {
                LeafPlan::Name { fr } => if *fr { fake_name_fr() } else { fake_name_en() },
                LeafPlan::FirstName { fr } => if *fr { fake_first_name_fr() } else { fake_first_name_en() },
                LeafPlan::LastName { fr } => if *fr { fake_last_name_fr() } else { fake_last_name_en() },
                LeafPlan::Phone { fr } => if *fr { fake_phone_fr() } else { fake_phone_en() },
                LeafPlan::Username => fake_username(),
                LeafPlan::Address => draw_address(),
                LeafPlan::City => fake_city_name(),
                LeafPlan::Country => fake_country_name(),
                LeafPlan::Zipcode => fake_zip_code(),
                LeafPlan::Url => draw_url(),
                LeafPlan::Job => fake_job_title(),
                LeafPlan::Company => fake_company_name(),
                LeafPlan::Word => fake_word(),
                _ => fake_uuid(),
            };
            Ok(JScalar::String(text))
        },
    }
}


// ---------------------------------------------------------------------------
// Generating documents
// ---------------------------------------------------------------------------

/// The first error met when generating a description: fields in order, the element of a
/// non-empty array once, each leaf checked and then drawn.
pub open spec fn first_error(sv: FakeSpecV) -> Option<FakeErrorV>
    decreases sv, 0int,
{
    match sv {
        FakeSpecV::Leaf(name, args, locale) => match leaf_plan(name, args, locale) {
            Err(e) => Some(e),
            Ok(p) => if out_of_range(p) { Some(FakeErrorV::OutOfRange(name)) } else { None },
        },
        FakeSpecV::Array(n, inner) => if n == 0 { None } else { first_error(*inner) },
        FakeSpecV::Object(fields) => fields_error(fields, 0),
    }
}

/// The first error among the fields from `i` on.
pub open spec fn fields_error(fields: Seq<(Seq<char>, FakeSpecV)>, i: int) -> Option<FakeErrorV>
    decreases fields, fields.len() - i,
{
    if i < 0 || i >= fields.len() {
        None
    } else {
        match first_error(fields[i].1) {
            Some(e) => Some(e),
            None => fields_error(fields, i + 1),
        }
    }
}

/// The keys of the first `n` fields, each once, in order of first appearance.
pub open spec fn merged_keys(fields: Seq<(Seq<char>, FakeSpecV)>, n: int) -> Seq<Seq<char>>
    decreases n,
{
    if n <= 0 || n > fields.len() {
        Seq::empty()
    } else {
        let m = merged_keys(fields, n - 1);
        if m.contains(fields[n - 1].0) { m } else { m.push(fields[n - 1].0) }
    }
}

/// Index of the last of the first `n` fields with key `k`, or -1.
pub open spec fn last_index_upto(fields: Seq<(Seq<char>, FakeSpecV)>, n: int, k: Seq<char>) -> int
    decreases n,
{
    if n <= 0 || n > fields.len() {
        -1
    } else if fields[n - 1].0 == k {
        n - 1
    } else {
        last_index_upto(fields, n - 1, k)
    }
}

/// `n` is a document the description can generate in the year `now`: an object has each key
/// once, in order of first appearance, with a value generated by the last field of that key;
/// an array has the asked number of elements; a leaf holds a value its plan can draw.
/// Nothing comes folded.
pub open spec fn gen_ok(sv: FakeSpecV, n: JNode, now: int) -> bool
    decreases sv,
{
    match sv {
        FakeSpecV::Leaf(name, args, locale) => match leaf_plan(name, args, locale) {
            Ok(p) => !out_of_range(p) && (n matches JNode::Scalar(v) && leaf_value_ok(p, now, v)),
            Err(_) => false,
        },
        FakeSpecV::Array(c, inner) => match n {
            JNode::Array { items, collapsed } => !collapsed && items@.len() == c && forall|i: int|
                0 <= i < items@.len() ==> gen_ok(*inner, #[trigger] items@[i], now),
            _ => false,
        },
        FakeSpecV::Object(fields) => match n {
            JNode::Object { entries, collapsed } => {
                &&& !collapsed
                &&& entries@.len() == merged_keys(fields, fields.len() as int).len()
                &&& forall|j: int| 0 <= j < entries@.len() ==> (#[trigger] entries@[j]).0@ == merged_keys(
                    fields,
                    fields.len() as int,
                )[j]
                &&& forall|j: int| 0 <= j < entries@.len() ==> {
                    let li = last_index_upto(fields, fields.len() as int, (#[trigger] entries@[j]).0@);
                    0 <= li < fields.len() && gen_ok(fields[li].1, entries@[j].1, now)
                }
            },
            _ => false,
        },
    }
}


proof fn lemma_fields_view_index(fs: Seq<(String, FakeSpec)>, n: int, i: int)
    requires
        0 <= i < n <= fs.len(),
    ensures
        fields_view(fs, n)[i] == (fs[i].0@, spec_view(fs[i].1)),
    decreases n,
{
    lemma_fields_view_len(fs, n - 1);
    if i < n - 1 {
        lemma_fields_view_index(fs, n - 1, i);
    }
}

proof fn lemma_merged_keys(fields: Seq<(Seq<char>, FakeSpecV)>, n: int)
    requires
        0 <= n <= fields.len(),
    ensures
        forall|a: int, b: int| 0 <= a < b < merged_keys(fields, n).len() ==> merged_keys(fields, n)[a]
            != merged_keys(fields, n)[b],
        forall|k: Seq<char>| merged_keys(fields, n).contains(k) <==> 0 <= #[trigger] last_index_upto(fields, n, k) < n,
        forall|k: Seq<char>| -1 <= #[trigger] last_index_upto(fields, n, k) < n,
    decreases n,
{
    if n > 0 {
        lemma_merged_keys(fields, n - 1);
        let m = merged_keys(fields, n - 1);
        let k0 = fields[n - 1].0;
        if !m.contains(k0) {
            let m2 = m.push(k0);
            assert forall|a: int, b: int| 0 <= a < b < m2.len() implies m2[a] != m2[b] by {
                if b == m.len() {
                    assert(m.contains(m[a]));
                }
            }
            assert forall|k: Seq<char>| m2.contains(k) <==> 0 <= #[trigger] last_index_upto(fields, n, k) < n by {
                if k == k0 {
                    assert(m2[m.len() as int] == k);
                } else {
                    assert(last_index_upto(fields, n, k) == last_index_upto(fields, n - 1, k));
                    if m2.contains(k) {
                        let w = choose|w: int| 0 <= w < m2.len() && m2[w] == k;
                        assert(m.contains(k)) by {
                            assert(m[w] == k);
                        }
                    }
                    if m.contains(k) {
                        let w = choose|w: int| 0 <= w < m.len() && m[w] == k;
                        assert(m2[w] == k);
                    }
                }
            }
        } else {
            assert forall|k: Seq<char>| m.contains(k) <==> 0 <= #[trigger] last_index_upto(fields, n, k) < n by {
                if k != k0 {
                    assert(last_index_upto(fields, n, k) == last_index_upto(fields, n - 1, k));
                }
            }
        }
        assert forall|k: Seq<char>| -1 <= #[trigger] last_index_upto(fields, n, k) < n by {
            if fields[n - 1].0 != k {
                assert(last_index_upto(fields, n, k) == last_index_upto(fields, n - 1, k));
            }
        }
    }
}

/// Generates a document from a description in the year `now`, drawing every leaf in order
/// (the element of an array once per copy). Fields with the same key keep the first one's
/// place and the last one's value. `float_text(min, max)` draws a number of `min..max` as
/// JSON number text.
pub fn generate<F: Fn(&str, &str) -> String>(spec: &FakeSpec, float_text: &F, now: i32) -> (r: Result<JNode, FakeError>)
    requires
        forall|a: &str, b: &str| float_text.requires((a, b)),
        min_date_year() <= now <= max_date_year(),
    ensures
        match r {
            Ok(n) => first_error(spec_view(*spec)) is None && gen_ok(spec_view(*spec), n, now as int),
            Err(e) => first_error(spec_view(*spec)) == Some(e.deep_view()),
        },
    decreases spec,
{
    match spec {
        FakeSpec::Leaf(name, args, locale) => {
            let plan = match check_leaf(name, args, locale) {
                Ok(p) => p,
                Err(e) => {
                    return Err(e);
                },
            };
            match generate_leaf(name, &plan, float_text, now) {
                Ok(v) => Ok(JNode::Scalar(v)),
                Err(e) => Err(e),
            }
        },
        FakeSpec::Array(count, inner) => {
            let ghost iv = spec_view(**inner);
            let mut items: Vec<JNode> = Vec::new();
            let mut i: usize = 0;
            while i < *count
                invariant
                    *spec == FakeSpec::Array(*count, *inner),
                    iv == spec_view(**inner),
                    forall|a: &str, b: &str| float_text.requires((a, b)),
                    i <= *count,
                    items@.len() == i,
                    min_date_year() <= now <= max_date_year(),
                    forall|k: int| 0 <= k < i ==> gen_ok(iv, #[trigger] items@[k], now as int),
                    i > 0 ==> first_error(iv) is None,
                decreases *count - i,
            {
                proof {
                    assert(decreases_to!(*spec => **inner));
                }
                let v = match generate(&**inner, float_text, now) {
                    Ok(v) => v,
                    Err(e) => {
                        return Err(e);
                    },
                };
                items.push(v);
                i = i + 1;
            }
            Ok(JNode::Array { items, collapsed: false })
        },
        FakeSpec::Object(fields) => {
            let ghost fv = fields_view(fields@, fields@.len() as int);
            proof {
                lemma_fields_view_len(fields@, fields@.len() as int);
            }
            let mut entries: Vec<(String, JNode)> = Vec::new();
            let mut i: usize = 0;
            while i < fields.len()
                invariant
                    *spec == FakeSpec::Object(*fields),
                    fv == fields_view(fields@, fields@.len() as int),
                    fv.len() == fields@.len(),
                    forall|a: &str, b: &str| float_text.requires((a, b)),
                    min_date_year() <= now <= max_date_year(),
                    i <= fields@.len(),
                    fields_error(fv, 0) == fields_error(fv, i as int),
                    entries@.len() == merged_keys(fv, i as int).len(),
                    forall|j: int| 0 <= j < entries@.len() ==> (#[trigger] entries@[j]).0@ == merged_keys(fv, i as int)[j],
                    forall|j: int| 0 <= j < entries@.len() ==> {
                        let li = last_index_upto(fv, i as int, (#[trigger] entries@[j]).0@);
                        0 <= li < i && gen_ok(fv[li].1, entries@[j].1, now as int)
                    },
                decreases fields@.len() - i,
            {
                proof {
                    lemma_fields_view_index(fields@, fields@.len() as int, i as int);
                    assert(decreases_to!(*spec => *fields));
                    assert(decreases_to!(*fields => fields@));
                    assert(decreases_to!(fields@ => fields@[i as int]));
                    assert(decreases_to!(fields@[i as int] => fields@[i as int].1));
                    lemma_merged_keys(fv, i as int);
                    lemma_merged_keys(fv, i + 1);
                }
                let v = match generate(&fields[i].1, float_text, now) {
                    Ok(v) => v,
                    Err(e) => {
                        return Err(e);
                    },
                };
                let ghost k = fields@[i as int].0@;
                let ghost old_entries = entries@;
                let ghost mk = merged_keys(fv, i as int);
                assert(fv[i as int].0 == k);
                match find_entry(&entries, &fields[i].0) {
                    Some(j) => {
                        proof {
                            lemma_find_key(entries@, k);
                            assert(mk[j as int] == k);
                            assert(mk.contains(k));
                        }
                        entries[j].1 = v;
                        proof {
                            assert(merged_keys(fv, i + 1) == mk);
                            assert forall|jj: int| 0 <= jj < entries@.len() implies {
                                let li = last_index_upto(fv, i + 1, (#[trigger] entries@[jj]).0@);
                                0 <= li < i + 1 && gen_ok(fv[li].1, entries@[jj].1, now as int)
                            } by {
                                if jj != j {
                                    assert(entries@[jj] == old_entries[jj]);
                                    assert(mk[jj] != mk[j as int]);
                                }
                            }
                        }
                    },
                    None => {
                        proof {
                            lemma_find_key(entries@, k);
                            assert(!mk.contains(k)) by {
                                if mk.contains(k) {
                                    let w = choose|w: int| 0 <= w < mk.len() && mk[w] == k;
                                    assert(entries@[w].0@ == k);
                                }
                            }
                        }
                        entries.push((fields[i].0.clone(), v));
                        proof {
                            assert(merged_keys(fv, i + 1) == mk.push(k));
                            assert forall|jj: int| 0 <= jj < entries@.len() implies (#[trigger] entries@[jj]).0@
                                == merged_keys(fv, i + 1)[jj] by {
                                if jj < old_entries.len() {
                                    assert(entries@[jj] == old_entries[jj]);
                                }
                            }
                            assert forall|jj: int| 0 <= jj < entries@.len() implies {
                                let li = last_index_upto(fv, i + 1, (#[trigger] entries@[jj]).0@);
                                0 <= li < i + 1 && gen_ok(fv[li].1, entries@[jj].1, now as int)
                            } by {
                                if jj < old_entries.len() {
                                    assert(entries@[jj] == old_entries[jj]);
                                    assert(mk.contains(mk[jj]));
                                }
                            }
                        }
                    },
                }
                i = i + 1;
            }
            Ok(JNode::Object { entries, collapsed: false })
        },
    }
}

/// The `fake` plugin: generates a document from the description given as its argument; the
/// selected node is not used.
pub struct FakePlugin;

impl FakePlugin {
    /// The plugin's name in the menu.
    pub fn name(&self) -> (r: &'static str)
        ensures
            r@ == "fake"@,
    {
        "fake"
    }

    /// The label above the argument input.
    pub fn prompt(&self) -> (r: &'static str)
        ensures
            r@ == "fake spec (e.g. {name, email}, [5]name, name@fr):"@,
    {
        "fake spec (e.g. {name, email}, [5]name, name@fr):"
    }

    /// Reads the description in `arg` and generates a document from it in the year `now`
    /// (the input node is not read).
    pub fn run<F: Fn(&str, &str) -> String>(&self, input: &JNode, arg: &str, float_text: &F, now: i32) -> (r: Result<JNode, FakeError>)
        requires
            forall|a: &str, b: &str| float_text.requires((a, b)),
            min_date_year() <= now <= max_date_year(),
        ensures
            match parse_spec(arg@) {
                Err(e) => r matches Err(x) && x.deep_view() == e,
                Ok(sv) => match r {
                    Ok(n) => first_error(sv) is None && gen_ok(sv, n, now as int),
                    Err(x) => first_error(sv) == Some(x.deep_view()),
                },
            },
    {
        let spec = match parse(arg) {
            Ok(s) => s,
            Err(e) => {
                return Err(e);
            },
        };
        generate(&spec, float_text, now)
    }
}

// ---------------------------------------------------------------------------
// Messages
// ---------------------------------------------------------------------------

/// How a token is named in a message: its variant, with the text of a name or number in
/// quotes or brackets.
pub open spec fn token_text(t: TokenV) -> Seq<char> {
    match t {
        TokenV::LBrace => "LBrace"@,
        TokenV::RBrace => "RBrace"@,
        TokenV::LBracket => "LBracket"@,
        TokenV::RBracket => "RBracket"@,
        TokenV::LParen => "LParen"@,
        TokenV::RParen => "RParen"@,
        TokenV::Colon => "Colon"@,
        TokenV::Comma => "Comma"@,
        TokenV::At => "At"@,
        TokenV::Ident(s) => "Ident(\""@ + s + "\")"@,
        TokenV::Num(s) => "Num("@ + s + ")"@,
    }
}

/// A token, or the end of the input.
pub open spec fn found_text(t: Option<TokenV>) -> Seq<char> {
    match t {
        Some(t) => token_text(t),
        None => "end of input"@,
    }
}

/// The message of an error.
pub open spec fn error_text(e: FakeErrorV) -> Seq<char> {
    match e {
        FakeErrorV::UnexpectedChar(c) => "fake parse error: unexpected character '"@ + seq![c] + "'"@,
        FakeErrorV::InvalidNumber(t) => "fake parse error: invalid number '"@ + t + "'"@,
        FakeErrorV::Expected { expected, found } =>
            "fake parse error: expected "@ + token_text(expected) + ", found "@ + found_text(found),
        FakeErrorV::UnexpectedToken(t) => "fake parse error: unexpected token "@ + token_text(t),
        FakeErrorV::UnexpectedEnd => "fake parse error: unexpected end of input"@,
        FakeErrorV::ExpectedFieldName(t) => "fake parse error: expected field name, found "@ + token_text(t),
        FakeErrorV::UnmatchedBrace => "fake parse error: unmatched '{'"@,
        FakeErrorV::ExpectedCommaOrBrace(t) => "fake parse error: expected ',' or '}', found "@ + token_text(t),
        FakeErrorV::ArrayCountNotInteger(n) => "fake parse error: array count must be a non-negative integer, got "@ + n,
        FakeErrorV::ExpectedArrayCount(t) => "fake parse error: expected array count, found "@ + found_text(t),
        FakeErrorV::ExpectedNumericArg(t) => "fake parse error: expected numeric argument, found "@ + token_text(t),
        FakeErrorV::UnmatchedParen => "fake parse error: unmatched '('"@,
        FakeErrorV::ExpectedCommaOrParen(t) => "fake parse error: expected ',' or ')', found "@ + token_text(t),
        FakeErrorV::ExpectedLocale(t) => "fake parse error: expected locale name after '@', found "@ + found_text(t),
        FakeErrorV::EmptyExpression => "fake parse error: empty expression"@,
        FakeErrorV::TrailingInput => "fake parse error: trailing input after expression"@,
        FakeErrorV::UnknownLocale(l) => "fake error: unknown locale '"@ + l + "' (only 'fr' is supported)"@,
        FakeErrorV::NoArgs(n) => "fake error: '"@ + n + "' does not take arguments"@,
        FakeErrorV::CountNotInteger(n, a) => "fake error: '"@ + n + "' argument must be a non-negative integer, got "@ + a,
        FakeErrorV::CountArity(n, k) => "fake error: '"@ + n + "' takes 0 or 1 argument, got "@ + decimal(k as nat),
        FakeErrorV::PctOutOfRange(n, a) => "fake error: '"@ + n + "' percentage must be between 0 and 100, got "@ + a,
        FakeErrorV::PctArity(n, k) => "fake error: '"@ + n + "' takes 0 or 1 argument, got "@ + decimal(k as nat),
        FakeErrorV::RangeOrder(n, a, b) => "fake error: '"@ + n + "' min must be <= max, got ("@ + a + ", "@ + b + ")"@,
        FakeErrorV::RangeArity(n, k) => "fake error: '"@ + n + "' takes 0 or 2 arguments (min,max), got "@ + decimal(k as nat),
        FakeErrorV::FrUnsupported(n) => "fake error: 'fr' has no localized data for '"@ + n + "' — omit @fr"@,
        FakeErrorV::UnknownType(n) => "fake error: unknown type '"@ + n + "'"@,
        FakeErrorV::OutOfRange(n) => "fake error: the arguments of '"@ + n + "' are out of range"@,
    }
}

fn push_token(out: &mut String, t: &Token)
    ensures
        final(out)@ == old(out)@ + token_text(t.deep_view()),
{
    match t {
        Token::LBrace => append(out, "LBrace"),
        Token::RBrace => append(out, "RBrace"),
        Token::LBracket => append(out, "LBracket"),
        Token::RBracket => append(out, "RBracket"),
        Token::LParen => append(out, "LParen"),
        Token::RParen => append(out, "RParen"),
        Token::Colon => append(out, "Colon"),
        Token::Comma => append(out, "Comma"),
        Token::At => append(out, "At"),
        Token::Ident(s) => {
            append(out, "Ident(\"");
            append(out, s.as_str());
            append(out, "\")");
        },
        Token::Num(s) => {
            append(out, "Num(");
            append(out, s.as_str());
            append(out, ")");
        },
    }
}

fn push_found(out: &mut String, t: &Option<Token>)
    ensures
        final(out)@ == old(out)@ + found_text(t.deep_view()),
{
    match t {
        Some(t) => push_token(out, t),
        None => append(out, "end of input"),
    }
}

impl FakeError {
    /// The message of this error.
    pub fn message(&self) -> (m: String)
        ensures
            m@ == error_text(self.deep_view()),
    {
        let mut m = String::new();
        match self {
            FakeError::UnexpectedChar(c) => {
                append(&mut m, "fake parse error: unexpected character '");
                crate::text::push_char(&mut m, *c);
                append(&mut m, "'");
            },
            FakeError::InvalidNumber(t) => {
                append(&mut m, "fake parse error: invalid number '");
                append(&mut m, t.as_str());
                append(&mut m, "'");
            },
            FakeError::Expected { expected, found } => {
                append(&mut m, "fake parse error: expected ");
                push_token(&mut m, expected);
                append(&mut m, ", found ");
                push_found(&mut m, found);
            },
            FakeError::UnexpectedToken(t) => {
                append(&mut m, "fake parse error: unexpected token ");
                push_token(&mut m, t);
            },
            FakeError::UnexpectedEnd => append(&mut m, "fake parse error: unexpected end of input"),
            FakeError::ExpectedFieldName(t) => {
                append(&mut m, "fake parse error: expected field name, found ");
                push_token(&mut m, t);
            },
            FakeError::UnmatchedBrace => append(&mut m, "fake parse error: unmatched '{'"),
            FakeError::ExpectedCommaOrBrace(t) => {
                append(&mut m, "fake parse error: expected ',' or '}', found ");
                push_token(&mut m, t);
            },
            FakeError::ArrayCountNotInteger(n) => {
                append(&mut m, "fake parse error: array count must be a non-negative integer, got ");
                append(&mut m, n.as_str());
            },
            FakeError::ExpectedArrayCount(t) => {
                append(&mut m, "fake parse error: expected array count, found ");
                push_found(&mut m, t);
            },
            FakeError::ExpectedNumericArg(t) => {
                append(&mut m, "fake parse error: expected numeric argument, found ");
                push_token(&mut m, t);
            },
            FakeError::UnmatchedParen => append(&mut m, "fake parse error: unmatched '('"),
            FakeError::ExpectedCommaOrParen(t) => {
                append(&mut m, "fake parse error: expected ',' or ')', found ");
                push_token(&mut m, t);
            },
            FakeError::ExpectedLocale(t) => {
                append(&mut m, "fake parse error: expected locale name after '@', found ");
                push_found(&mut m, t);
            },
            FakeError::EmptyExpression => append(&mut m, "fake parse error: empty expression"),
            FakeError::TrailingInput => append(&mut m, "fake parse error: trailing input after expression"),
            FakeError::UnknownLocale(l) => {
                append(&mut m, "fake error: unknown locale '");
                append(&mut m, l.as_str());
                append(&mut m, "' (only 'fr' is supported)");
            },
            FakeError::NoArgs(n) => {
                append(&mut m, "fake error: '");
                append(&mut m, n.as_str());
                append(&mut m, "' does not take arguments");
            },
            FakeError::CountNotInteger(n, a) => {
                append(&mut m, "fake error: '");
                append(&mut m, n.as_str());
                append(&mut m, "' argument must be a non-negative integer, got ");
                append(&mut m, a.as_str());
            },
            FakeError::CountArity(n, k) => {
                append(&mut m, "fake error: '");
                append(&mut m, n.as_str());
                append(&mut m, "' takes 0 or 1 argument, got ");
                crate::text::push_decimal(&mut m, *k);
            },
            FakeError::PctOutOfRange(n, a) => {
                append(&mut m, "fake error: '");
                append(&mut m, n.as_str());
                append(&mut m, "' percentage must be between 0 and 100, got ");
                append(&mut m, a.as_str());
            },
            FakeError::PctArity(n, k) => {
                append(&mut m, "fake error: '");
                append(&mut m, n.as_str());
                append(&mut m, "' takes 0 or 1 argument, got ");
                crate::text::push_decimal(&mut m, *k);
            },
            FakeError::RangeOrder(n, a, b) => {
                append(&mut m, "fake error: '");
                append(&mut m, n.as_str());
                append(&mut m, "' min must be <= max, got (");
                append(&mut m, a.as_str());
                append(&mut m, ", ");
                append(&mut m, b.as_str());
                append(&mut m, ")");
            },
            FakeError::RangeArity(n, k) => {
                append(&mut m, "fake error: '");
                append(&mut m, n.as_str());
                append(&mut m, "' takes 0 or 2 arguments (min,max), got ");
                crate::text::push_decimal(&mut m, *k);
            },
            FakeError::FrUnsupported(n) => {
                append(&mut m, "fake error: 'fr' has no localized data for '");
                append(&mut m, n.as_str());
                append(&mut m, "' — omit @fr");
            },
            FakeError::UnknownType(n) => {
                append(&mut m, "fake error: unknown type '");
                append(&mut m, n.as_str());
                append(&mut m, "'");
            },
            FakeError::OutOfRange(n) => {
                append(&mut m, "fake error: the arguments of '");
                append(&mut m, n.as_str());
                append(&mut m, "' are out of range");
            },
        }
        assert(m@ =~= error_text(self.deep_view()));
        m
    }
}

} // verus!
