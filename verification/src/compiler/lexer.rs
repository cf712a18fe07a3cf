//! Tokens of template expressions.

use vstd::prelude::*;

use crate::compiler::span::Span;
use crate::messages::{all_digits, digits_value, lemma_digits_value_prefix_grows};
use crate::text::{
    ascii_alpha, ascii_digit, byte_at, fits, is_alphanumeric, is_ascii_alpha, is_ascii_digit,
    is_space, is_whitespace, lemma_utf8_len_take_full, lemma_utf8_take_mono, string_of,
    alphanumeric, utf8_len,
};

verus! {

/// Operator tokens.
#[derive(Debug, Clone, Copy, PartialEq, Eq, Structural)]
pub enum Op {
    /// `??`
    Safe,
    /// `?:`
    Elvis,
    /// `&&`
    AndAnd,
    /// `||`
    OrOr,
    /// `==`
    EqEq,
    /// `!=`
    NotEq,
    /// `<=`
    LessEq,
    /// `>=`
    GreaterEq,
    /// `!`
    Bang,
    /// `-`
    Minus,
    /// `+`
    Plus,
    /// `*`
    Star,
    /// `/`
    Slash,
    /// `%`
    Percent,
    /// `<`
    Less,
    /// `>`
    Greater,
}

#[derive(Debug)]
pub enum Tok {
    Ident(String),
    Null,
    Bool(bool),
    Str(String),
    Int(i64),
    Float(String),
    Op(Op),
    LParen,
    RParen,
    LBracket,
    RBracket,
    Dot,
    Comma,
    Colon,
    End,
}

#[derive(Debug)]
pub struct Token {
    pub kind: Tok,
    pub span: Span,
}

pub enum TokV {
    Ident(Seq<char>),
    Null,
    Bool(bool),
    Str(Seq<char>),
    Int(i64),
    Float(Seq<char>),
    Op(Op),
    LParen,
    RParen,
    LBracket,
    RBracket,
    Dot,
    Comma,
    Colon,
    End,
}

pub struct TokenV {
    pub kind: TokV,
    pub span: Span,
}

impl View for Tok {
    type V = TokV;

    open spec fn view(&self) -> TokV {
        match self {
            Tok::Ident(s) => TokV::Ident(s@),
            Tok::Null => TokV::Null,
            Tok::Bool(b) => TokV::Bool(*b),
            Tok::Str(s) => TokV::Str(s@),
            Tok::Int(i) => TokV::Int(*i),
            Tok::Float(s) => TokV::Float(s@),
            Tok::Op(o) => TokV::Op(*o),
            Tok::LParen => TokV::LParen,
            Tok::RParen => TokV::RParen,
            Tok::LBracket => TokV::LBracket,
            Tok::RBracket => TokV::RBracket,
            Tok::Dot => TokV::Dot,
            Tok::Comma => TokV::Comma,
            Tok::Colon => TokV::Colon,
            Tok::End => TokV::End,
        }
    }
}

impl View for Token {
    type V = TokenV;

    open spec fn view(&self) -> TokenV {
        TokenV { kind: self.kind@, span: self.span }
    }
}

/// A lexical error: its code, message, and the character range it covers.
pub struct LexError {
    pub code: &'static str,
    pub message: Seq<char>,
    pub start: int,
    pub end: int,
}

/// End of the identifier characters starting at `j`.
pub open spec fn ident_end(s: Seq<char>, j: int, hi: int) -> int
    decreases hi - j,
{
    if 0 <= j < hi && j < s.len() && (alphanumeric(s[j]) || s[j] == '_') {
        ident_end(s, j + 1, hi)
    } else {
        j
    }
}

/// End of the ASCII digits starting at `j`.
pub open spec fn digits_end(s: Seq<char>, j: int, hi: int) -> int
    decreases hi - j,
{
    if 0 <= j < hi && j < s.len() && is_ascii_digit(s[j]) {
        digits_end(s, j + 1, hi)
    } else {
        j
    }
}

/// Character that a backslash escape denotes in a string literal.
pub open spec fn unescape(e: char) -> char {
    if e == 'n' {
        '\n'
    } else if e == 'r' {
        '\r'
    } else if e == 't' {
        '\t'
    } else {
        e
    }
}

/// Body of a string literal from `j` (after the opening quote): its value,
/// the index after the closing quote, and whether the quote was closed.
pub open spec fn str_scan(s: Seq<char>, j: int, hi: int, quote: char) -> (Seq<char>, int, bool)
    decreases hi - j,
{
    if j >= hi || j < 0 || j >= s.len() {
        (Seq::empty(), j, false)
    } else if s[j] == quote {
        (Seq::empty(), j + 1, true)
    } else if s[j] == '\\' && j + 1 < hi && j + 1 < s.len() {
        let rest = str_scan(s, j + 2, hi, quote);
        (seq![unescape(s[j + 1])] + rest.0, rest.1, rest.2)
    } else {
        let rest = str_scan(s, j + 1, hi, quote);
        (seq![s[j]] + rest.0, rest.1, rest.2)
    }
}

/// Value of a run of digits as `str::parse::<i64>` with a zero default.
pub open spec fn int_value(digits: Seq<char>) -> i64 {
    if digits_value(digits) <= i64::MAX {
        digits_value(digits) as i64
    } else {
        0
    }
}

pub open spec fn keyword_or_ident(word: Seq<char>) -> TokV {
    if word == seq!['n', 'u', 'l', 'l'] {
        TokV::Null
    } else if word == seq!['t', 'r', 'u', 'e'] {
        TokV::Bool(true)
    } else if word == seq!['f', 'a', 'l', 's', 'e'] {
        TokV::Bool(false)
    } else {
        TokV::Ident(word)
    }
}

pub open spec fn two_char_op(a: char, b: char) -> Option<Op> {
    if a == '?' && b == '?' {
        Some(Op::Safe)
    } else if a == '?' && b == ':' {
        Some(Op::Elvis)
    } else if a == '&' && b == '&' {
        Some(Op::AndAnd)
    } else if a == '|' && b == '|' {
        Some(Op::OrOr)
    } else if a == '=' && b == '=' {
        Some(Op::EqEq)
    } else if a == '!' && b == '=' {
        Some(Op::NotEq)
    } else if a == '<' && b == '=' {
        Some(Op::LessEq)
    } else if a == '>' && b == '=' {
        Some(Op::GreaterEq)
    } else {
        None
    }
}

pub open spec fn one_char_token(c: char) -> Option<TokV> {
    if c == '!' {
        Some(TokV::Op(Op::Bang))
    } else if c == '-' {
        Some(TokV::Op(Op::Minus))
    } else if c == '+' {
        Some(TokV::Op(Op::Plus))
    } else if c == '*' {
        Some(TokV::Op(Op::Star))
    } else if c == '/' {
        Some(TokV::Op(Op::Slash))
    } else if c == '%' {
        Some(TokV::Op(Op::Percent))
    } else if c == '<' {
        Some(TokV::Op(Op::Less))
    } else if c == '>' {
        Some(TokV::Op(Op::Greater))
    } else if c == '(' {
        Some(TokV::LParen)
    } else if c == ')' {
        Some(TokV::RParen)
    } else if c == '[' {
        Some(TokV::LBracket)
    } else if c == ']' {
        Some(TokV::RBracket)
    } else if c == '.' {
        Some(TokV::Dot)
    } else if c == ',' {
        Some(TokV::Comma)
    } else if c == ':' {
        Some(TokV::Colon)
    } else {
        None
    }
}

/// A token whose characters are `[i, j)`.
pub open spec fn tok_at(s: Seq<char>, base: int, kind: TokV, i: int, j: int) -> TokenV {
    TokenV {
        kind,
        span: Span { start: (base + byte_at(s, i)) as usize, end: (base + byte_at(s, j)) as usize },
    }
}

/// The token that starts at the non-space character `i`, and the index after it.
pub open spec fn scan_token(s: Seq<char>, base: int, i: int, hi: int) -> Result<(TokenV, int), LexError> {
    let c = s[i];
    if is_ascii_alpha(c) || c == '_' {
        let j = ident_end(s, i + 1, hi);
        Ok((tok_at(s, base, keyword_or_ident(s.subrange(i, j)), i, j), j))
    } else if is_ascii_digit(c) {
        let j = digits_end(s, i + 1, hi);
        if j + 1 < hi && s[j] == '.' && is_ascii_digit(s[j + 1]) {
            let k = digits_end(s, j + 2, hi);
            Ok((tok_at(s, base, TokV::Float(s.subrange(i, k)), i, k), k))
        } else {
            Ok((tok_at(s, base, TokV::Int(int_value(s.subrange(i, j))), i, j), j))
        }
    } else if c == '\'' || c == '"' {
        let r = str_scan(s, i + 1, hi, c);
        if r.2 {
            Ok((tok_at(s, base, TokV::Str(r.0), i, r.1), r.1))
        } else {
            Err(
                LexError {
                    code: "E_EXPR_STRING",
                    message: "unterminated string literal"@,
                    start: i,
                    end: r.1,
                },
            )
        }
    } else if i + 1 < hi && two_char_op(c, s[i + 1]) is Some {
        Ok((tok_at(s, base, TokV::Op(two_char_op(c, s[i + 1])->0), i, i + 2), i + 2))
    } else {
        match one_char_token(c) {
            Some(k) => Ok((tok_at(s, base, k, i, i + 1), i + 1)),
            None => Err(
                LexError {
                    code: "E_EXPR_TOKEN",
                    message: "unexpected character `"@ + seq![c] + "`"@,
                    start: i,
                    end: i + 1,
                },
            ),
        }
    }
}

/// The tokens of the characters `[i, hi)` of `s`, ending with `End`.
pub open spec fn lex_spec(s: Seq<char>, base: int, i: int, hi: int) -> Result<Seq<TokenV>, LexError>
    decreases hi - i,
{
    if i >= hi || i < 0 || i >= s.len() {
        Ok(seq![tok_at(s, base, TokV::End, hi, hi)])
    } else if is_space(s[i]) {
        lex_spec(s, base, i + 1, hi)
    } else {
        match scan_token(s, base, i, hi) {
            Err(e) => Err(e),
            Ok((t, j)) => if i < j <= hi {
                match lex_spec(s, base, j, hi) {
                    Ok(rest) => Ok(seq![t] + rest),
                    Err(e) => Err(e),
                }
            } else {
                Err(LexError { code: "E_EXPR_TOKEN", message: Seq::empty(), start: i, end: i })
            },
        }
    }
}

/// The tokens of `[i, hi)` lie in order inside the characters they come
/// from: each but the last is a non-empty range within `[i, hi)` that ends
/// at or before the next one starts, and the last is `End`, empty, at `hi`.
pub open spec fn tokens_in_order(ts: Seq<TokenV>, lo: int, hi: int) -> bool {
    &&& ts.len() >= 1
    &&& ts.last().kind == TokV::End
    &&& ts.last().span.start == hi && ts.last().span.end == hi
    &&& forall|k: int|
        0 <= k < ts.len() - 1 ==> lo <= (#[trigger] ts[k]).span.start < ts[k].span.end <= hi
    &&& forall|k: int| 0 <= k < ts.len() - 1 ==> (#[trigger] ts[k]).span.end <= ts[k + 1].span.start
}

proof fn lemma_scan_token_span(s: Seq<char>, base: int, i: int, hi: int)
    requires
        0 <= i < hi <= s.len(),
    ensures
        scan_token(s, base, i, hi) matches Ok((t, j)) ==> t.span == tok_at(s, base, t.kind, i, j).span,
{
}

/// What `lex` accepts lies in order inside its input: as byte offsets, each
/// token but the last is a non-empty range inside the scanned characters,
/// ending at or before the next starts, and the last is `End`, empty, at the
/// end of the input.
pub proof fn law_tokens_lie_in_order(s: Seq<char>, base: int, i: int, hi: int)
    requires
        0 <= i <= hi <= s.len(),
        0 <= base,
        base + utf8_len(s) <= usize::MAX,
    ensures
        lex_spec(s, base, i, hi) matches Ok(ts) ==> tokens_in_order(
            ts,
            base + byte_at(s, i),
            base + byte_at(s, hi),
        ),
    decreases hi - i,
{
    lemma_utf8_take_mono(s, hi, s.len() as int);
    crate::text::lemma_utf8_len_take_full(s);
    lemma_utf8_take_mono(s, i, hi);
    if i >= hi || i >= s.len() {
    } else if is_space(s[i]) {
        law_tokens_lie_in_order(s, base, i + 1, hi);
        lemma_utf8_take_mono(s, i, i + 1);
    } else {
        lemma_scan_token_span(s, base, i, hi);
        match scan_token(s, base, i, hi) {
            Err(_) => {},
            Ok((t, j)) => {
                if i < j <= hi {
                    law_tokens_lie_in_order(s, base, j, hi);
                    lemma_utf8_take_mono(s, i, j);
                    lemma_utf8_take_mono(s, j, hi);
                    match lex_spec(s, base, j, hi) {
                        Ok(rest) => {
                            let ts = seq![t] + rest;
                            let lo2 = base + byte_at(s, j);
                            assert forall|k: int| 0 <= k < ts.len() - 1 implies base + byte_at(s, i) <= (
                            #[trigger] ts[k]).span.start < ts[k].span.end <= base + byte_at(s, hi) by {
                                if k > 0 {
                                    assert(ts[k] == rest[k - 1]);
                                }
                            }
                            assert forall|k: int| 0 <= k < ts.len() - 1 implies (#[trigger] ts[k]).span.end
                                <= ts[k + 1].span.start by {
                                if k > 0 {
                                    assert(ts[k] == rest[k - 1]);
                                    assert(ts[k + 1] == rest[k]);
                                } else {
                                    assert(ts[1] == rest[0]);
                                    if rest.len() == 1 {
                                        assert(rest[0] == rest.last());
                                    } else {
                                        assert(lo2 <= rest[0].span.start);
                                    }
                                }
                            }
                            assert(ts.last() == rest.last());
                        },
                        Err(_) => {},
                    }
                }
            },
        }
    }
}

pub open spec fn tokens_view(v: Seq<Token>) -> Seq<TokenV> {
    v.map_values(|t: Token| t@)
}

/// A lexical error found while scanning, located by character indices.
#[derive(Debug)]
pub struct LexFailure {
    pub code: &'static str,
    pub message: String,
    pub start: usize,
    pub end: usize,
}

/// `offs[k]` is the byte offset of character `k` of `s`, counted from `offs[0]`.
pub open spec fn offsets_of(s: Seq<char>, offs: Seq<usize>) -> bool {
    &&& offs.len() == s.len() + 1
    &&& offs[0] + utf8_len(s) < usize::MAX
    &&& forall|k: int| 0 <= k <= s.len() ==> #[trigger] offs[k] == offs[0] + byte_at(s, k)
}

/// The byte offsets of the characters of `t`, counted from `base`.
pub fn offsets_from(t: &Vec<char>, base: usize) -> (offs: Vec<usize>)
    requires
        base + utf8_len(t@) < usize::MAX,
    ensures
        offs@[0] == base,
        offsets_of(t@, offs@),
{
    let mut offs: Vec<usize> = Vec::new();
    offs.push(base);
    let mut pos = base;
    let mut i: usize = 0;
    proof {
        assert(t@.take(0) =~= Seq::<char>::empty());
    }
    while i < t.len()
        invariant
            i <= t@.len(),
            base + utf8_len(t@) < usize::MAX,
            offs@.len() == i + 1,
            offs@[0] == base,
            pos == base + byte_at(t@, i as int),
            forall|k: int| 0 <= k <= i ==> #[trigger] offs@[k] == base + byte_at(t@, k),
        decreases t@.len() - i,
    {
        proof {
            crate::text::lemma_utf8_take_step(t@, i as int);
            lemma_utf8_take_mono(t@, i + 1, t@.len() as int);
            lemma_utf8_len_take_full(t@);
        }
        pos = pos + crate::text::utf8_width(t[i]);
        offs.push(pos);
        i = i + 1;
    }
    offs
}

fn ident_end_exec(s: &Vec<char>, j: usize, hi: usize) -> (r: usize)
    requires
        j <= hi <= s.len(),
    ensures
        r == ident_end(s@, j as int, hi as int),
        j <= r <= hi,
{
    let mut k = j;
    while k < hi && (is_alphanumeric(s[k]) || s[k] == '_')
        invariant
            j <= k <= hi <= s.len(),
            ident_end(s@, j as int, hi as int) == ident_end(s@, k as int, hi as int),
        decreases hi - k,
    {
        k = k + 1;
    }
    k
}

fn digits_end_exec(s: &Vec<char>, j: usize, hi: usize) -> (r: usize)
    requires
        j <= hi <= s.len(),
    ensures
        r == digits_end(s@, j as int, hi as int),
        j <= r <= hi,
{
    let mut k = j;
    while k < hi && ascii_digit(s[k])
        invariant
            j <= k <= hi <= s.len(),
            digits_end(s@, j as int, hi as int) == digits_end(s@, k as int, hi as int),
        decreases hi - k,
    {
        k = k + 1;
    }
    k
}

proof fn lemma_digits_end_all(s: Seq<char>, j: int, hi: int)
    requires
        0 <= j <= hi <= s.len(),
    ensures
        j <= digits_end(s, j, hi) <= hi,
        all_digits(s.subrange(j, digits_end(s, j, hi))),
    decreases hi - j,
{
    if j < hi && is_ascii_digit(s[j]) {
        lemma_digits_end_all(s, j + 1, hi);
        let e = digits_end(s, j, hi);
        assert forall|t: int| 0 <= t < s.subrange(j, e).len() implies '0' <= #[trigger] s.subrange(
            j,
            e,
        )[t] <= '9' by {
            if t > 0 {
                assert(s.subrange(j, e)[t] == s.subrange(j + 1, e)[t - 1]);
            }
        }
    }
}

/// Value of the digits `s[i..j]` as `str::parse::<i64>` gives it, or zero.
fn int_value_exec(s: &Vec<char>, i: usize, j: usize) -> (r: i64)
    requires
        i <= j <= s.len(),
        all_digits(s@.subrange(i as int, j as int)),
    ensures
        r == int_value(s@.subrange(i as int, j as int)),
{
    let mut value: i64 = 0;
    let mut k = i;
    proof {
        assert(s@.subrange(i as int, i as int) =~= Seq::<char>::empty());
    }
    while k < j
        invariant
            i <= k <= j <= s.len(),
            all_digits(s@.subrange(i as int, j as int)),
            value as int == digits_value(s@.subrange(i as int, k as int)),
        decreases j - k,
    {
        proof {
            assert(s@.subrange(i as int, k + 1).drop_last() =~= s@.subrange(i as int, k as int));
            assert(s@.subrange(i as int, j as int)[k - i] == s@[k as int]);
        }
        let d = (s[k] as u32 - '0' as u32) as i64;
        if value > (i64::MAX - d) / 10 {
            proof {
                assert(value * 10 + d > i64::MAX) by (nonlinear_arith)
                    requires
                        value > (i64::MAX - d) / 10,
                        0 <= d <= 9,
                ;
                let all = s@.subrange(i as int, j as int);
                lemma_digits_value_prefix_grows(all, k - i + 1);
                assert(all.take(k - i + 1) =~= s@.subrange(i as int, k + 1));
            }
            return 0;
        }
        value = value * 10 + d;
        k = k + 1;
    }
    value
}

fn scan_string(s: &Vec<char>, j: usize, hi: usize, quote: char) -> (r: (Vec<char>, usize, bool))
    requires
        j <= hi <= s.len(),
    ensures
        r.0@ == str_scan(s@, j as int, hi as int, quote).0,
        r.1 == str_scan(s@, j as int, hi as int, quote).1,
        r.2 == str_scan(s@, j as int, hi as int, quote).2,
        j <= r.1 <= hi,
{
    let mut value: Vec<char> = Vec::new();
    let mut k = j;
    while k < hi
        invariant
            j <= k <= hi <= s.len(),
            str_scan(s@, j as int, hi as int, quote) == (
                value@ + str_scan(s@, k as int, hi as int, quote).0,
                str_scan(s@, k as int, hi as int, quote).1,
                str_scan(s@, k as int, hi as int, quote).2,
            ),
        decreases hi - k,
    {
        let c = s[k];
        if c == quote {
            proof {
                assert(value@ + Seq::<char>::empty() =~= value@);
            }
            return (value, k + 1, true);
        }
        if c == '\\' && k + 1 < hi {
            let e = s[k + 1];
            let u = if e == 'n' {
                '\n'
            } else if e == 'r' {
                '\r'
            } else if e == 't' {
                '\t'
            } else {
                e
            };
            proof {
                assert(value@ + (seq![u] + str_scan(s@, k + 2, hi as int, quote).0) =~= value@.push(
                    u,
                ) + str_scan(s@, k + 2, hi as int, quote).0);
            }
            value.push(u);
            k = k + 2;
        } else {
            proof {
                assert(value@ + (seq![c] + str_scan(s@, k + 1, hi as int, quote).0) =~= value@.push(
                    c,
                ) + str_scan(s@, k + 1, hi as int, quote).0);
            }
            value.push(c);
            k = k + 1;
        }
    }
    proof {
        assert(value@ + Seq::<char>::empty() =~= value@);
    }
    (value, k, false)
}

fn is_keyword(w: &Vec<char>, kw: &[char]) -> (r: bool)
    ensures
        r == (w@ == kw@),
{
    crate::text::chars_eq(w.as_slice(), kw)
}

fn keyword_or_ident_exec(w: Vec<char>) -> (r: Tok)
    ensures
        r@ == keyword_or_ident(w@),
{
    let null = ['n', 'u', 'l', 'l'];
    let tru = ['t', 'r', 'u', 'e'];
    let fal = ['f', 'a', 'l', 's', 'e'];
    proof {
        assert(null@ =~= seq!['n', 'u', 'l', 'l']);
        assert(tru@ =~= seq!['t', 'r', 'u', 'e']);
        assert(fal@ =~= seq!['f', 'a', 'l', 's', 'e']);
    }
    if is_keyword(&w, &null) {
        Tok::Null
    } else if is_keyword(&w, &tru) {
        Tok::Bool(true)
    } else if is_keyword(&w, &fal) {
        Tok::Bool(false)
    } else {
        Tok::Ident(string_of(w.as_slice()))
    }
}

fn two_char_op_exec(a: char, b: char) -> (r: Option<Op>)
    ensures
        r == two_char_op(a, b),
{
    if a == '?' && b == '?' {
        Some(Op::Safe)
    } else if a == '?' && b == ':' {
        Some(Op::Elvis)
    } else if a == '&' && b == '&' {
        Some(Op::AndAnd)
    } else if a == '|' && b == '|' {
        Some(Op::OrOr)
    } else if a == '=' && b == '=' {
        Some(Op::EqEq)
    } else if a == '!' && b == '=' {
        Some(Op::NotEq)
    } else if a == '<' && b == '=' {
        Some(Op::LessEq)
    } else if a == '>' && b == '=' {
        Some(Op::GreaterEq)
    } else {
        None
    }
}

fn one_char_token_exec(c: char) -> (r: Option<Tok>)
    ensures
        r matches Some(t) ==> one_char_token(c) == Some(t@),
        r is None ==> one_char_token(c) is None,
{
    if c == '!' {
        Some(Tok::Op(Op::Bang))
    } else if c == '-' {
        Some(Tok::Op(Op::Minus))
    } else if c == '+' {
        Some(Tok::Op(Op::Plus))
    } else if c == '*' {
        Some(Tok::Op(Op::Star))
    } else if c == '/' {
        Some(Tok::Op(Op::Slash))
    } else if c == '%' {
        Some(Tok::Op(Op::Percent))
    } else if c == '<' {
        Some(Tok::Op(Op::Less))
    } else if c == '>' {
        Some(Tok::Op(Op::Greater))
    } else if c == '(' {
        Some(Tok::LParen)
    } else if c == ')' {
        Some(Tok::RParen)
    } else if c == '[' {
        Some(Tok::LBracket)
    } else if c == ']' {
        Some(Tok::RBracket)
    } else if c == '.' {
        Some(Tok::Dot)
    } else if c == ',' {
        Some(Tok::Comma)
    } else if c == ':' {
        Some(Tok::Colon)
    } else {
        None
    }
}

fn token_at(offs: &Vec<usize>, kind: Tok, i: usize, j: usize, Ghost(s): Ghost<Seq<char>>) -> (r: Token)
    requires
        offsets_of(s, offs@),
        i <= j <= s.len(),
    ensures
        r@ == tok_at(s, offs@[0] as int, kind@, i as int, j as int),
{
    Token { kind, span: Span::new(offs[i], offs[j]) }
}

/// Scans the token that starts at the non-space character `i`.
fn scan_token_exec(s: &Vec<char>, offs: &Vec<usize>, i: usize, hi: usize) -> (r: Result<
    (Token, usize),
    LexFailure,
>)
    requires
        offsets_of(s@, offs@),
        i < hi <= s.len(),
    ensures
        match scan_token(s@, offs@[0] as int, i as int, hi as int) {
            Ok((t, j)) => r matches Ok((tok, jj)) && tok@ == t && jj == j && i < jj <= hi,
            Err(e) => r matches Err(f) && f.code == e.code && f.message@ == e.message && f.start
                == e.start && f.end == e.end,
        },
        r matches Err(f) ==> f.start <= f.end <= hi,
{
    let c = s[i];
    if ascii_alpha(c) || c == '_' {
        let j = ident_end_exec(s, i + 1, hi);
        let w = crate::messages::slice_of(s, i, j);
        let kind = keyword_or_ident_exec(w);
        Ok((token_at(offs, kind, i, j, Ghost(s@)), j))
    } else if ascii_digit(c) {
        let j = digits_end_exec(s, i + 1, hi);
        if j < hi - 1 && s[j] == '.' && ascii_digit(s[j + 1]) {
            let k = digits_end_exec(s, j + 2, hi);
            let w = crate::messages::slice_of(s, i, k);
            let text = string_of(w.as_slice());
            Ok((token_at(offs, Tok::Float(text), i, k, Ghost(s@)), k))
        } else {
            proof {
                lemma_digits_end_all(s@, i + 1, hi as int);
                assert forall|t: int| 0 <= t < s@.subrange(i as int, j as int).len() implies '0'
                    <= #[trigger] s@.subrange(i as int, j as int)[t] <= '9' by {
                    if t > 0 {
                        assert(s@.subrange(i as int, j as int)[t] == s@.subrange(
                            i + 1,
                            j as int,
                        )[t - 1]);
                    }
                }
            }
            let v = int_value_exec(s, i, j);
            Ok((token_at(offs, Tok::Int(v), i, j, Ghost(s@)), j))
        }
    } else if c == '\'' || c == '"' {
        let (value, end, closed) = scan_string(s, i + 1, hi, c);
        if closed {
            let text = string_of(value.as_slice());
            Ok((token_at(offs, Tok::Str(text), i, end, Ghost(s@)), end))
        } else {
            Err(
                LexFailure {
                    code: "E_EXPR_STRING",
                    message: "unterminated string literal".to_owned(),
                    start: i,
                    end,
                },
            )
        }
    } else if i + 1 < hi && two_char_op_exec(c, s[i + 1]).is_some() {
        let op = two_char_op_exec(c, s[i + 1]).unwrap();
        Ok((token_at(offs, Tok::Op(op), i, i + 2, Ghost(s@)), i + 2))
    } else {
        match one_char_token_exec(c) {
            Some(k) => Ok((token_at(offs, k, i, i + 1, Ghost(s@)), i + 1)),
            None => {
                let mut message = "unexpected character `".to_owned();
                crate::text::push_char(&mut message, c);
                crate::text::push_str(&mut message, "`");
                proof {
                    assert(message@ =~= "unexpected character `"@ + seq![c] + "`"@);
                }
                Err(LexFailure { code: "E_EXPR_TOKEN", message, start: i, end: i + 1 })
            },
        }
    }
}

/// Splits the characters `[lo, hi)` of `s` into tokens, ending with `End`.
pub fn lex(s: &Vec<char>, offs: &Vec<usize>, lo: usize, hi: usize) -> (r: Result<Vec<Token>, LexFailure>)
    requires
        offsets_of(s@, offs@),
        lo <= hi <= s.len(),
    ensures
        match lex_spec(s@, offs@[0] as int, lo as int, hi as int) {
            Ok(ts) => r matches Ok(v) && tokens_view(v@) == ts,
            Err(e) => r matches Err(f) && f.code == e.code && f.message@ == e.message && f.start
                == e.start && f.end == e.end,
        },
        r matches Err(f) ==> f.start <= f.end <= hi,
{
    let mut out: Vec<Token> = Vec::new();
    let mut i = lo;
    proof {
        match lex_spec(s@, offs@[0] as int, lo as int, hi as int) {
            Ok(ts) => {
                assert(tokens_view(out@) + ts =~= ts);
            },
            Err(_) => {},
        }
    }
    while i < hi
        invariant
            offsets_of(s@, offs@),
            lo <= i <= hi <= s.len(),
            match lex_spec(s@, offs@[0] as int, lo as int, hi as int) {
                Ok(ts) => lex_spec(s@, offs@[0] as int, i as int, hi as int) matches Ok(rest) && ts == tokens_view(
                    out@,
                ) + rest,
                Err(e) => lex_spec(s@, offs@[0] as int, i as int, hi as int) == Err::<Seq<TokenV>, LexError>(e),
            },
        decreases hi - i,
    {
        if is_whitespace(s[i]) {
            i = i + 1;
        } else {
            match scan_token_exec(s, offs, i, hi) {
                Err(f) => {
                    return Err(f);
                },
                Ok((tok, j)) => {
                    let ghost before = out@;
                    proof {
                        assert(tokens_view(before.push(tok)) =~= tokens_view(before).push(tok@));
                        match lex_spec(s@, offs@[0] as int, lo as int, hi as int) {
                            Ok(ts) => {
                                let rest = lex_spec(s@, offs@[0] as int, j as int, hi as int)->Ok_0;
                                assert(tokens_view(before) + (seq![tok@] + rest) =~= tokens_view(
                                    before,
                                ).push(tok@) + rest);
                            },
                            Err(_) => {},
                        }
                    }
                    out.push(tok);
                    i = j;
                }
            }
        }
    }
    let end = token_at(offs, Tok::End, hi, hi, Ghost(s@));
    let ghost before = out@;
    out.push(end);
    proof {
        assert(tokens_view(before.push(end)) =~= tokens_view(before).push(end@));
        match lex_spec(s@, offs@[0] as int, lo as int, hi as int) {
            Ok(ts) => {
                assert(tokens_view(before) + seq![end@] =~= tokens_view(before).push(end@));
            },
            Err(_) => {},
        }
    }
    Ok(out)
}

} // verus!
