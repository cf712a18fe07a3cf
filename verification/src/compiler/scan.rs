//! Character-level scanning helpers of the template parser: trimming,
//! searching, quoting and the argument splitter.

use vstd::prelude::*;

use crate::compiler::span::Span;
use crate::text::{
    byte_at, is_space, is_whitespace, lemma_utf8_subrange, lemma_utf8_take_mono, starts_at,
    starts_with_at, utf8_len, utf8_width,
};

verus! {

/// Index of the first non-space character of `t` (or its length).
pub open spec fn trim_start_at(t: Seq<char>, i: int) -> int
    decreases t.len() - i,
{
    if 0 <= i < t.len() && is_space(t[i]) {
        trim_start_at(t, i + 1)
    } else {
        i
    }
}

/// Index after the last non-space character of `t[..j]`.
pub open spec fn trim_end_at(t: Seq<char>, j: int) -> int
    decreases j,
{
    if 0 < j <= t.len() && is_space(t[j - 1]) {
        trim_end_at(t, j - 1)
    } else {
        j
    }
}

/// `str::trim_start`.
pub open spec fn trim_start(t: Seq<char>) -> Seq<char> {
    t.skip(trim_start_at(t, 0))
}

/// `str::trim_end`.
pub open spec fn trim_end(t: Seq<char>) -> Seq<char> {
    t.take(trim_end_at(t, t.len() as int))
}

/// `str::trim`.
pub open spec fn trim(t: Seq<char>) -> Seq<char> {
    trim_end(trim_start(t))
}

/// Index of the first whitespace character at or after `i` (or the length).
pub open spec fn first_space_from(t: Seq<char>, i: int) -> int
    decreases t.len() - i,
{
    if 0 <= i < t.len() && !is_space(t[i]) {
        first_space_from(t, i + 1)
    } else if i < 0 {
        0
    } else {
        i
    }
}

/// Index of the first occurrence of `p` in `t` at or after `i`.
pub open spec fn find_from(t: Seq<char>, p: Seq<char>, i: int) -> Option<int>
    decreases t.len() + 1 - i,
{
    if i < 0 || i + p.len() > t.len() {
        None
    } else if starts_at(t, i, p) {
        Some(i)
    } else {
        find_from(t, p, i + 1)
    }
}

/// `str::find` of a pattern, as a character index.
pub open spec fn find(t: Seq<char>, p: Seq<char>) -> Option<int> {
    find_from(t, p, 0)
}

pub fn trim_start_index(t: &[char], i: usize) -> (r: usize)
    requires
        i <= t@.len(),
    ensures
        r == trim_start_at(t@, i as int),
        i <= r <= t@.len(),
{
    let mut k = i;
    while k < t.len() && is_whitespace(t[k])
        invariant
            i <= k <= t@.len(),
            trim_start_at(t@, i as int) == trim_start_at(t@, k as int),
        decreases t@.len() - k,
    {
        k = k + 1;
    }
    k
}

pub fn trim_end_index(t: &[char], j: usize) -> (r: usize)
    requires
        j <= t@.len(),
    ensures
        r == trim_end_at(t@, j as int),
        r <= j,
{
    let mut k = j;
    while k > 0 && is_whitespace(t[k - 1])
        invariant
            k <= j <= t@.len(),
            trim_end_at(t@, j as int) == trim_end_at(t@, k as int),
        decreases k,
    {
        k = k - 1;
    }
    k
}

pub fn first_space_index(t: &[char], i: usize) -> (r: usize)
    requires
        i <= t@.len(),
    ensures
        r == first_space_from(t@, i as int),
        i <= r <= t@.len(),
{
    let mut k = i;
    while k < t.len() && !is_whitespace(t[k])
        invariant
            i <= k <= t@.len(),
            first_space_from(t@, i as int) == first_space_from(t@, k as int),
        decreases t@.len() - k,
    {
        k = k + 1;
    }
    k
}

pub fn find_index(t: &[char], p: &[char], i: usize) -> (r: Option<usize>)
    requires
        i <= t@.len(),
    ensures
        r matches Some(k) ==> find_from(t@, p@, i as int) == Some(k as int) && k + p@.len() <= t@.len(),
        r is None ==> find_from(t@, p@, i as int) is None,
{
    let mut k = i;
    while k <= t.len()
        invariant
            i <= k,
            find_from(t@, p@, i as int) == find_from(t@, p@, k as int),
        decreases t@.len() + 1 - k,
    {
        if p.len() > t.len() - k {
            return None;
        }
        if starts_with_at(t, k, p) {
            return Some(k);
        }
        assert(k < t@.len()) by {
            if k == t@.len() {
                assert(t@.subrange(k as int, k as int) =~= p@);
            }
        }
        k = k + 1;
    }
    None
}

/// The characters `t[a..b]`.
pub fn char_range(t: &[char], a: usize, b: usize) -> (r: Vec<char>)
    requires
        a <= b <= t@.len(),
    ensures
        r@ == t@.subrange(a as int, b as int),
{
    let mut r: Vec<char> = Vec::new();
    let mut i = a;
    while i < b
        invariant
            a <= i <= b <= t@.len(),
            r@ == t@.subrange(a as int, i as int),
        decreases b - i,
    {
        r.push(t[i]);
        i = i + 1;
        proof {
            assert(r@ =~= t@.subrange(a as int, i as int));
        }
    }
    r
}

/// `str::trim` as characters.
pub fn trim_chars(t: &[char]) -> (r: Vec<char>)
    ensures
        r@ == trim(t@),
{
    let a = trim_start_index(t, 0);
    let u = char_range(t, a, t.len());
    let b = trim_end_index(u.as_slice(), u.len());
    proof {
        assert(u@ =~= trim_start(t@));
    }
    char_range(u.as_slice(), 0, b)
}

/// Number of bytes of the characters `t`.
pub fn byte_len(t: &[char]) -> (n: usize)
    requires
        utf8_len(t@) <= usize::MAX,
    ensures
        n == utf8_len(t@),
{
    let mut n: usize = 0;
    let mut i: usize = 0;
    proof {
        assert(t@.take(0) =~= Seq::<char>::empty());
    }
    while i < t.len()
        invariant
            i <= t@.len(),
            utf8_len(t@) <= usize::MAX,
            n == utf8_len(t@.take(i as int)),
        decreases t@.len() - i,
    {
        proof {
            crate::text::lemma_utf8_take_step(t@, i as int);
            lemma_utf8_take_mono(t@, i + 1, t@.len() as int);
            crate::text::lemma_utf8_len_take_full(t@);
        }
        n = n + utf8_width(t[i]);
        i = i + 1;
    }
    proof {
        crate::text::lemma_utf8_len_take_full(t@);
    }
    n
}


/// The start of the trimmed text.
pub open spec fn trim_lo(t: Seq<char>) -> int {
    trim_start_at(t, 0)
}

/// The end of the trimmed text.
pub open spec fn trim_hi(t: Seq<char>) -> int {
    trim_lo(t) + trim_end_at(trim_start(t), trim_start(t).len() as int)
}

proof fn lemma_trim_start_at_range(t: Seq<char>, i: int)
    requires
        0 <= i <= t.len(),
    ensures
        i <= trim_start_at(t, i) <= t.len(),
    decreases t.len() - i,
{
    if i < t.len() && is_space(t[i]) {
        lemma_trim_start_at_range(t, i + 1);
    }
}

proof fn lemma_trim_end_at_range(t: Seq<char>, j: int)
    requires
        0 <= j <= t.len(),
    ensures
        0 <= trim_end_at(t, j) <= j,
    decreases j,
{
    if 0 < j && is_space(t[j - 1]) {
        lemma_trim_end_at_range(t, j - 1);
    }
}

/// Trimming keeps a sub-range of the text.
pub proof fn lemma_trim(t: Seq<char>)
    ensures
        0 <= trim_lo(t) <= trim_hi(t) <= t.len(),
        trim(t) == t.subrange(trim_lo(t), trim_hi(t)),
        trim_start(t) == t.subrange(trim_lo(t), t.len() as int),
        trim_end(t) == t.subrange(0, trim_end_at(t, t.len() as int)),
        0 <= trim_end_at(t, t.len() as int) <= t.len(),
{
    lemma_trim_start_at_range(t, 0);
    let u = trim_start(t);
    lemma_trim_end_at_range(u, u.len() as int);
    lemma_trim_end_at_range(t, t.len() as int);
    assert(trim(t) =~= t.subrange(trim_lo(t), trim_hi(t)));
    assert(trim_start(t) =~= t.subrange(trim_lo(t), t.len() as int));
    assert(trim_end(t) =~= t.subrange(0, trim_end_at(t, t.len() as int)));
}

/// A pattern that occurs at `j` is found at or before `j`.
pub proof fn lemma_find_from_occurs(t: Seq<char>, p: Seq<char>, i: int, j: int)
    requires
        0 <= i <= j,
        starts_at(t, j, p),
    ensures
        find_from(t, p, i) matches Some(k) && i <= k <= j && starts_at(t, k, p),
    decreases j - i,
{
    if !starts_at(t, i, p) {
        lemma_find_from_occurs(t, p, i + 1, j);
    }
}

/// What `find_from` finds is an occurrence.
pub proof fn lemma_find_from_found(t: Seq<char>, p: Seq<char>, i: int)
    ensures
        find_from(t, p, i) matches Some(k) ==> i <= k && starts_at(t, k, p),
    decreases t.len() + 1 - i,
{
    if !(i < 0 || i + p.len() > t.len()) && !starts_at(t, i, p) {
        lemma_find_from_found(t, p, i + 1);
    }
}

/// A sub-range of a text is found in it, no later than where it was taken.
pub proof fn lemma_find_subrange(t: Seq<char>, a: int, b: int)
    requires
        0 <= a <= b <= t.len(),
    ensures
        find(t, t.subrange(a, b)) matches Some(k) && 0 <= k <= a && starts_at(t, k, t.subrange(a, b)),
{
    lemma_find_from_occurs(t, t.subrange(a, b), 0, a);
}

/// An occurrence of `p` at `k` fits within the bytes of `t`.
pub proof fn lemma_occurrence_bytes(t: Seq<char>, k: int, p: Seq<char>)
    requires
        starts_at(t, k, p),
    ensures
        byte_at(t, k) + utf8_len(p) <= utf8_len(t),
{
    lemma_utf8_subrange(t, k, k + p.len());
    lemma_utf8_take_mono(t, k + p.len(), t.len() as int);
    crate::text::lemma_utf8_len_take_full(t);
}

/// The bytes of a sub-range are at most those of the whole.
pub proof fn lemma_subrange_bytes(t: Seq<char>, a: int, b: int)
    requires
        0 <= a <= b <= t.len(),
    ensures
        utf8_len(t.subrange(a, b)) + byte_at(t, a) <= utf8_len(t),
        utf8_len(t.subrange(a, b)) + byte_at(t, a) == byte_at(t, b),
{
    lemma_utf8_subrange(t, a, b);
    lemma_utf8_take_mono(t, b, t.len() as int);
    crate::text::lemma_utf8_len_take_full(t);
}

/// The byte offset of character `k` of `t`.
pub fn prefix_bytes(t: &[char], k: usize) -> (n: usize)
    requires
        k <= t@.len(),
        utf8_len(t@) <= usize::MAX,
    ensures
        n == byte_at(t@, k as int),
        n <= utf8_len(t@),
{
    let p = char_range(t, 0, k);
    proof {
        assert(p@ =~= t@.take(k as int));
        lemma_utf8_take_mono(t@, k as int, t@.len() as int);
        crate::text::lemma_utf8_len_take_full(t@);
    }
    byte_len(p.as_slice())
}

/// The characters `t` spell the word `w`.
pub fn is_word(t: &[char], w: &str) -> (r: bool)
    ensures
        r == (t@ == w@),
{
    let v = crate::text::chars_of(w);
    crate::text::chars_eq(t, v.as_slice())
}

} // verus!
