//! Source-located parser and validation errors.

use vstd::prelude::*;

use crate::compiler::span::Span;
use crate::text::{byte_at, fits, lemma_utf8_len_take_full, lemma_utf8_take_mono, lemma_utf8_take_step, utf8_len, utf8_width};

verus! {

/// A source-located parser or validation error.
#[derive(Debug, Clone, PartialEq, Eq)]
pub struct Diagnostic {
    pub code: &'static str,
    pub message: String,
    pub source_name: String,
    pub span: Span,
    /// One-based line number.
    pub line: usize,
    /// One-based Unicode-scalar column number.
    pub column: usize,
}

/// Number of line feeds in `s`.
pub open spec fn newline_count(s: Seq<char>) -> nat
    decreases s.len(),
{
    if s.len() == 0 {
        0
    } else {
        newline_count(s.drop_last()) + if s.last() == '\n' {
            1nat
        } else {
            0nat
        }
    }
}

/// Number of characters after the last line feed of `s`.
pub open spec fn last_line_len(s: Seq<char>) -> nat
    decreases s.len(),
{
    if s.len() == 0 {
        0
    } else if s.last() == '\n' {
        0
    } else {
        last_line_len(s.drop_last()) + 1
    }
}

/// One-based line of the position that follows `prefix`.
pub open spec fn line_after(prefix: Seq<char>) -> nat {
    newline_count(prefix) + 1
}

/// One-based column (in characters) of the position that follows `prefix`.
pub open spec fn column_after(prefix: Seq<char>) -> nat {
    last_line_len(prefix) + 1
}

/// The first character index from `k` whose start byte is at least `b`
/// (the length when there is none).
pub open spec fn ceil_from(s: Seq<char>, k: int, b: int) -> int
    decreases s.len() - k,
{
    if 0 <= k < s.len() && byte_at(s, k) < b {
        ceil_from(s, k + 1, b)
    } else {
        k
    }
}

/// The number of characters of `s` that start before byte `b`; when `b` is a
/// character boundary, the index of the character that starts there.
pub open spec fn char_index_at(s: Seq<char>, b: int) -> int {
    ceil_from(s, 0, b)
}

proof fn lemma_counts_bounded(s: Seq<char>)
    ensures
        newline_count(s) <= s.len(),
        last_line_len(s) <= s.len(),
        s.len() <= utf8_len(s),
    decreases s.len(),
{
    if s.len() > 0 {
        lemma_counts_bounded(s.drop_last());
    }
}

/// Line and column of the position after the first `k` characters of `s`.
pub fn line_and_column(s: &Vec<char>, k: usize) -> (r: (usize, usize))
    requires
        k <= s.len(),
        fits(s@),
    ensures
        r.0 == line_after(s@.take(k as int)),
        r.1 == column_after(s@.take(k as int)),
{
    let mut newlines: usize = 0;
    let mut column: usize = 0;
    let mut i: usize = 0;
    proof {
        assert(s@.take(0) =~= Seq::<char>::empty());
        lemma_counts_bounded(s@);
        lemma_utf8_len_take_full(s@);
    }
    while i < k
        invariant
            i <= k <= s.len(),
            fits(s@),
            s@.len() <= utf8_len(s@),
            newlines == newline_count(s@.take(i as int)),
            column == last_line_len(s@.take(i as int)),
        decreases k - i,
    {
        proof {
            assert(s@.take(i as int + 1).drop_last() =~= s@.take(i as int));
            lemma_counts_bounded(s@.take(i as int + 1));
        }
        if s[i] == '\n' {
            newlines = newlines + 1;
            column = 0;
        } else {
            column = column + 1;
        }
        i = i + 1;
    }
    proof {
        lemma_counts_bounded(s@.take(k as int));
    }
    (newlines + 1, column + 1)
}

/// The number of characters that start before byte `b`.
pub fn char_index_at_byte(s: &Vec<char>, b: usize) -> (k: usize)
    requires
        fits(s@),
    ensures
        k <= s.len(),
        k == char_index_at(s@, b as int),
{
    let mut i: usize = 0;
    let mut pos: usize = 0;
    proof {
        assert(s@.take(0) =~= Seq::<char>::empty());
    }
    while i < s.len() && pos < b
        invariant
            i <= s.len(),
            fits(s@),
            pos == byte_at(s@, i as int),
            char_index_at(s@, b as int) == ceil_from(s@, i as int, b as int),
        decreases s.len() - i,
    {
        proof {
            lemma_utf8_take_step(s@, i as int);
            lemma_utf8_take_mono(s@, i as int + 1, s.len() as int);
            lemma_utf8_len_take_full(s@);
        }
        pos = pos + utf8_width(s[i]);
        i = i + 1;
    }
    i
}

/// Builds a diagnostic whose line and column locate `span.start` in `source`.
pub fn make_diag(
    source_name: &str,
    source: &Vec<char>,
    code: &'static str,
    message: String,
    span: Span,
) -> (d: Diagnostic)
    requires
        fits(source@),
    ensures
        d.code == code,
        d.message@ == message@,
        d.source_name@ == source_name@,
        d.span == span,
        d.line == line_after(source@.take(char_index_at(source@, span.start as int))),
        d.column == column_after(source@.take(char_index_at(source@, span.start as int))),
{
    let k = char_index_at_byte(source, span.start);
    let (line, column) = line_and_column(source, k);
    Diagnostic { code, message, source_name: source_name.to_owned(), span, line, column }
}

} // verus!
