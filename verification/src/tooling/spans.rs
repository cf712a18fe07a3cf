//! Where names are written inside the text of a tag: byte ranges found by
//! searching the source between byte offsets.

use vstd::prelude::*;

use crate::compiler::args::{tag_end, tag_end_from};
use crate::compiler::diagnostic::{ceil_from, char_index_at, char_index_at_byte};
use crate::compiler::scan::{
    byte_len, char_range, find, find_from, find_index, lemma_find_from_found, lemma_occurrence_bytes,
    lemma_subrange_bytes, prefix_bytes,
};
use crate::compiler::span::Span;
use crate::error::is_char_boundary;
use crate::text::{byte_at, fits, lemma_utf8_take_mono, starts_at, starts_with_at, utf8_len};
use crate::tooling::references::slice_ok;

verus! {

/// `b`, or the byte length of `t` when `b` is past it.
pub open spec fn clamp_end(t: Seq<char>, b: int) -> int {
    if b <= utf8_len(t) {
        b
    } else {
        utf8_len(t) as int
    }
}

/// The characters between two byte offsets.
pub open spec fn slice_of(t: Seq<char>, a: int, b: int) -> Seq<char> {
    t.subrange(char_index_at(t, a), char_index_at(t, b))
}

/// The last occurrence of `p` in `t` that starts before `i`.
pub open spec fn find_last_before(t: Seq<char>, p: Seq<char>, i: int) -> Option<int>
    decreases i,
{
    if i <= 0 {
        None
    } else if starts_at(t, i - 1, p) {
        Some(i - 1)
    } else {
        find_last_before(t, p, i - 1)
    }
}

/// `str::rfind` of a pattern, as a character index.
pub open spec fn find_last(t: Seq<char>, p: Seq<char>) -> Option<int> {
    find_last_before(t, p, t.len() + 1int)
}

/// The byte offset in `s` where `p` first occurs.
pub open spec fn find_byte(s: Seq<char>, p: Seq<char>) -> Option<int> {
    match find(s, p) {
        Some(k) => Some(byte_at(s, k) as int),
        None => None,
    }
}

/// The byte offset in `s` where `p` last occurs.
pub open spec fn rfind_byte(s: Seq<char>, p: Seq<char>) -> Option<int> {
    match find_last(s, p) {
        Some(k) => Some(byte_at(s, k) as int),
        None => None,
    }
}

/// The range of `value` where it first occurs in the text of `span`; the
/// whole span when it does not.
pub open spec fn value_span(t: Seq<char>, span: Span, value: Seq<char>) -> Span {
    let s = slice_of(t, span.start as int, clamp_end(t, span.end as int));
    match find_byte(s, value) {
        Some(at) => Span { start: (span.start + at) as usize, end: (span.start + at + utf8_len(value)) as usize },
        None => span,
    }
}

/// The range of a parameter's name: where it first occurs after the type.
pub open spec fn parameter_name_span(t: Seq<char>, span: Span, declared: Seq<char>, name: Seq<char>) -> Span {
    let s = slice_of(t, span.start as int, clamp_end(t, span.end as int));
    match find(s, declared) {
        Some(k) => match find_byte(s.skip(k + declared.len()), name) {
            Some(na) => {
                let at = byte_at(s, k) + utf8_len(declared) + na;
                Span { start: (span.start + at) as usize, end: (span.start + at + utf8_len(name)) as usize }
            },
            None => span,
        },
        None => span,
    }
}

/// The range of a named argument's name: where it last occurs between the
/// section's start and the argument's value; the value's span when it does not.
pub open spec fn named_argument_span(t: Seq<char>, section: Span, value: Span, name: Seq<char>) -> Span {
    let s = slice_of(t, section.start as int, clamp_end(t, value.start as int));
    match rfind_byte(s, name) {
        Some(at) => Span { start: (section.start + at) as usize, end: (section.start + at + utf8_len(name)) as usize },
        None => value,
    }
}

/// The text of `span` can be taken from `t`.
pub open spec fn span_ok(t: Seq<char>, span: Span) -> bool {
    slice_ok(t, span.start as int, clamp_end(t, span.end as int))
}

/// The byte just after the `}` that closes the tag starting the span.
pub open spec fn opening_end(t: Seq<char>, span: Span) -> Option<int> {
    if !span_ok(t, span) {
        None
    } else {
        let s = slice_of(t, span.start as int, clamp_end(t, span.end as int));
        match tag_end_from(s, 0, None) {
            Some(k) => Some(span.start + byte_at(s, k) + 1),
            None => None,
        }
    }
}

/// Where the last `{/name` inside the span starts.
pub open spec fn closing_start(t: Seq<char>, span: Span, name: Seq<char>) -> Option<int> {
    if !span_ok(t, span) {
        None
    } else {
        let s = slice_of(t, span.start as int, clamp_end(t, span.end as int));
        match rfind_byte(s, "{/"@ + name) {
            Some(at) => Some(span.start + at),
            None => None,
        }
    }
}

// ---------------------------------------------------------------------------
// Taking text between byte offsets
// ---------------------------------------------------------------------------

/// The offsets table of a text: the byte offset of each character and of its end.
pub open spec fn offsets_of(t: Seq<char>, offs: Seq<usize>) -> bool {
    &&& fits(t)
    &&& offs.len() == t.len() + 1
    &&& forall|k: int| 0 <= k <= t.len() ==> #[trigger] offs[k] == byte_at(t, k)
}

proof fn lemma_ceil_at_boundary(s: Seq<char>, j: int, k: int)
    requires
        0 <= j <= k <= s.len(),
    ensures
        ceil_from(s, j, byte_at(s, k) as int) == k,
    decreases k - j,
{
    if j < k {
        lemma_utf8_take_mono(s, j, k);
        lemma_ceil_at_boundary(s, j + 1, k);
    }
}

/// At a character boundary, `char_index_at` finds the character that starts there.
pub proof fn lemma_boundary_index(t: Seq<char>, b: int)
    requires
        is_char_boundary(t, b),
    ensures
        0 <= char_index_at(t, b) <= t.len(),
        byte_at(t, char_index_at(t, b)) == b,
{
    let w = choose|w: int| 0 <= w <= t.len() && #[trigger] byte_at(t, w) == b;
    lemma_ceil_at_boundary(t, 0, w);
}

/// Bytes of a slice between boundaries.
pub proof fn lemma_slice_bytes(t: Seq<char>, a: int, b: int)
    requires
        slice_ok(t, a, b),
    ensures
        0 <= char_index_at(t, a) <= char_index_at(t, b) <= t.len(),
        utf8_len(slice_of(t, a, b)) == b - a,
{
    lemma_boundary_index(t, a);
    lemma_boundary_index(t, b);
    let i = char_index_at(t, a);
    let j = char_index_at(t, b);
    if i > j {
        lemma_utf8_take_mono(t, j, i);
    }
    lemma_subrange_bytes(t, i, j);
}

/// The characters between byte offsets `a` and `b`.
pub fn slice_text(text: &Vec<char>, offs: &Vec<usize>, a: usize, b: usize) -> (r: Vec<char>)
    requires
        offsets_of(text@, offs@),
        slice_ok(text@, a as int, b as int),
    ensures
        r@ == slice_of(text@, a as int, b as int),
        utf8_len(r@) == b - a,
{
    let i = char_index_at_byte(text, a);
    let j = char_index_at_byte(text, b);
    proof {
        lemma_slice_bytes(text@, a as int, b as int);
    }
    char_range(text.as_slice(), i, j)
}

/// `b`, or the byte length of the text when `b` is past it.
pub fn clamp_to(text: &Vec<char>, offs: &Vec<usize>, b: usize) -> (r: usize)
    requires
        offsets_of(text@, offs@),
    ensures
        r == clamp_end(text@, b as int),
{
    proof {
        crate::text::lemma_utf8_len_take_full(text@);
    }
    let n = offs[text.len()];
    if b <= n {
        b
    } else {
        n
    }
}

/// Whether byte `b` starts a character of the text, or is its end.
pub fn boundary_at(text: &Vec<char>, offs: &Vec<usize>, b: usize) -> (r: bool)
    requires
        offsets_of(text@, offs@),
    ensures
        r == is_char_boundary(text@, b as int),
{
    let k = char_index_at_byte(text, b);
    let r = offs[k] == b;
    proof {
        if is_char_boundary(text@, b as int) {
            lemma_boundary_index(text@, b as int);
        }
    }
    r
}

/// Whether the text between two byte offsets can be taken.
pub fn slice_fits(text: &Vec<char>, offs: &Vec<usize>, a: usize, b: usize) -> (r: bool)
    requires
        offsets_of(text@, offs@),
    ensures
        r == slice_ok(text@, a as int, b as int),
{
    proof {
        crate::text::lemma_utf8_len_take_full(text@);
    }
    let n = offs[text.len()];
    a <= b && b <= n && boundary_at(text, offs, a) && boundary_at(text, offs, b)
}

pub proof fn lemma_find_last_found(t: Seq<char>, p: Seq<char>, i: int)
    ensures
        find_last_before(t, p, i) matches Some(k) ==> k < i && starts_at(t, k, p),
    decreases i,
{
    if i > 0 && !starts_at(t, i - 1, p) {
        lemma_find_last_found(t, p, i - 1);
    }
}

/// Finds the last occurrence of `p` in `t`.
pub fn rfind_index(t: &[char], p: &[char]) -> (r: Option<usize>)
    ensures
        match r {
            Some(k) => find_last(t@, p@) == Some(k as int) && k + p@.len() <= t@.len(),
            None => find_last(t@, p@) is None,
        },
{
    let n = t.len();
    if p.len() == 0 {
        proof {
            assert(t@.subrange(n as int, n as int) =~= p@);
        }
        return Some(n);
    }
    let mut i: usize = n;
    while i > 0
        invariant
            i <= n,
            n == t@.len(),
            p@.len() > 0,
            find_last(t@, p@) == find_last_before(t@, p@, i as int + 1),
        decreases i,
    {
        if starts_with_at(t, i, p) {
            return Some(i);
        }
        i = i - 1;
    }
    if starts_with_at(t, 0, p) {
        return Some(0);
    }
    proof {
        assert(find_last_before(t@, p@, 0) is None);
    }
    None
}

/// The byte offset in `s` where `p` first occurs.
fn find_byte_exec(s: &Vec<char>, p: &Vec<char>) -> (r: Option<usize>)
    requires
        fits(s@),
    ensures
        match r {
            Some(at) => find_byte(s@, p@) == Some(at as int) && at + utf8_len(p@) <= utf8_len(s@),
            None => find_byte(s@, p@) is None,
        },
{
    match find_index(s.as_slice(), p.as_slice(), 0) {
        Some(k) => {
            proof {
                lemma_find_from_found(s@, p@, 0);
                lemma_occurrence_bytes(s@, k as int, p@);
            }
            Some(prefix_bytes(s.as_slice(), k))
        },
        None => None,
    }
}

/// The byte offset in `s` where `p` last occurs.
pub(crate) fn rfind_byte_exec(s: &Vec<char>, p: &Vec<char>) -> (r: Option<usize>)
    requires
        fits(s@),
    ensures
        match r {
            Some(at) => rfind_byte(s@, p@) == Some(at as int) && at + utf8_len(p@) <= utf8_len(s@),
            None => rfind_byte(s@, p@) is None,
        },
{
    match rfind_index(s.as_slice(), p.as_slice()) {
        Some(k) => {
            proof {
                lemma_find_last_found(s@, p@, s@.len() + 1int);
                lemma_occurrence_bytes(s@, k as int, p@);
            }
            Some(prefix_bytes(s.as_slice(), k))
        },
        None => None,
    }
}

/// Where `value` first occurs in the text of `span`.
pub fn value_span_exec(text: &Vec<char>, offs: &Vec<usize>, span: Span, value: &Vec<char>) -> (r: Span)
    requires
        offsets_of(text@, offs@),
        span_ok(text@, span),
    ensures
        r == value_span(text@, span, value@),
        r == span || (r.end == r.start + utf8_len(value@) && r.end <= utf8_len(text@)),
{
    let e = clamp_to(text, offs, span.end);
    let s = slice_text(text, offs, span.start, e);
    proof {
        crate::text::lemma_utf8_len_take_full(text@);
    }
    match find_byte_exec(&s, value) {
        Some(at) => {
            let n = byte_len(value.as_slice());
            Span::new(span.start + at, span.start + at + n)
        },
        None => span,
    }
}

/// Where a parameter's name first occurs after its type.
pub fn parameter_name_span_exec(
    text: &Vec<char>,
    offs: &Vec<usize>,
    span: Span,
    declared: &Vec<char>,
    name: &Vec<char>,
) -> (r: Span)
    requires
        offsets_of(text@, offs@),
        span_ok(text@, span),
    ensures
        r == parameter_name_span(text@, span, declared@, name@),
{
    let e = clamp_to(text, offs, span.end);
    let s = slice_text(text, offs, span.start, e);
    match find_index(s.as_slice(), declared.as_slice(), 0) {
        Some(k) => {
            proof {
                lemma_find_from_found(s@, declared@, 0);
                lemma_occurrence_bytes(s@, k as int, declared@);
            }
            let rest = char_range(s.as_slice(), k + declared.len(), s.len());
            proof {
                assert(rest@ == s@.skip(k + declared@.len()));
                lemma_subrange_bytes(s@, k + declared@.len(), s@.len() as int);
                lemma_subrange_bytes(s@, k as int, k + declared@.len());
                assert(s@.subrange(k as int, k + declared@.len()) == declared@);
            }
            match find_byte_exec(&rest, name) {
                Some(na) => {
                    let tb = prefix_bytes(s.as_slice(), k);
                    let tl = byte_len(declared.as_slice());
                    let nl = byte_len(name.as_slice());
                    let at = tb + tl + na;
                    Span::new(span.start + at, span.start + at + nl)
                },
                None => span,
            }
        },
        None => span,
    }
}

/// Where a named argument's name last occurs before its value.
pub fn named_argument_span_exec(
    text: &Vec<char>,
    offs: &Vec<usize>,
    section: Span,
    value: Span,
    name: &Vec<char>,
) -> (r: Span)
    requires
        offsets_of(text@, offs@),
        slice_ok(text@, section.start as int, clamp_end(text@, value.start as int)),
    ensures
        r == named_argument_span(text@, section, value, name@),
{
    let e = clamp_to(text, offs, value.start);
    let s = slice_text(text, offs, section.start, e);
    match rfind_byte_exec(&s, name) {
        Some(at) => {
            let n = byte_len(name.as_slice());
            Span::new(section.start + at, section.start + at + n)
        },
        None => value,
    }
}

/// The byte just after the `}` that closes the tag starting the span.
pub fn opening_end_exec(text: &Vec<char>, offs: &Vec<usize>, span: Span) -> (r: Option<usize>)
    requires
        offsets_of(text@, offs@),
    ensures
        match opening_end(text@, span) {
            Some(b) => r == Some(b as usize) && b <= utf8_len(text@),
            None => r is None,
        },
{
    let e = clamp_to(text, offs, span.end);
    if !slice_fits(text, offs, span.start, e) {
        return None;
    }
    let s = slice_text(text, offs, span.start, e);
    match tag_end(s.as_slice(), 0) {
        Some(k) => {
            proof {
                crate::text::lemma_utf8_take_step(s@, k as int);
                lemma_utf8_take_mono(s@, k + 1, s@.len() as int);
                crate::text::lemma_utf8_len_take_full(s@);
                assert(s@[k as int] == '}');
                assert(crate::text::char_width('}') == 1);
            }
            let kb = prefix_bytes(s.as_slice(), k);
            Some(span.start + kb + 1)
        },
        None => None,
    }
}

/// Where the last `{/name` inside the span starts.
pub fn closing_start_exec(text: &Vec<char>, offs: &Vec<usize>, span: Span, name: &str) -> (r: Option<usize>)
    requires
        offsets_of(text@, offs@),
    ensures
        match closing_start(text@, span, name@) {
            Some(b) => r == Some(b as usize) && b <= utf8_len(text@),
            None => r is None,
        },
{
    let e = clamp_to(text, offs, span.end);
    if !slice_fits(text, offs, span.start, e) {
        return None;
    }
    let s = slice_text(text, offs, span.start, e);
    let mut pattern: Vec<char> = Vec::new();
    pattern.push('{');
    pattern.push('/');
    let nc = crate::text::chars_of(name);
    let mut i: usize = 0;
    while i < nc.len()
        invariant
            i <= nc@.len(),
            pattern@ == seq!['{', '/'] + nc@.take(i as int),
        decreases nc@.len() - i,
    {
        pattern.push(nc[i]);
        proof {
            assert(nc@.take(i + 1) =~= nc@.take(i as int).push(nc@[i as int]));
        }
        i = i + 1;
    }
    proof {
        assert(nc@.take(nc@.len() as int) =~= nc@);
        reveal_strlit("{/");
        assert(pattern@ =~= "{/"@ + name@);
    }
    match rfind_byte_exec(&s, &pattern) {
        Some(at) => Some(span.start + at),
        None => None,
    }
}

} // verus!
