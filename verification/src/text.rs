//! Text model: strings are sequences of Unicode scalar values, and positions
//! in a source are UTF-8 byte offsets (the compiler) or UTF-16 code units
//! (editor protocols).

use vstd::prelude::*;
use vstd::utf8::*;

verus! {

broadcast use vstd::utf8::char_is_scalar;

/// Number of bytes in the UTF-8 encoding of `c`.
pub open spec fn char_width(c: char) -> nat {
    if (c as u32) < 0x80 {
        1
    } else if (c as u32) < 0x800 {
        2
    } else if (c as u32) < 0x10000 {
        3
    } else {
        4
    }
}

/// Number of UTF-16 code units needed for `c`.
pub open spec fn char_utf16_width(c: char) -> nat {
    if (c as u32) < 0x10000 {
        1
    } else {
        2
    }
}

/// Length in bytes of the UTF-8 encoding of `s`.
pub open spec fn utf8_len(s: Seq<char>) -> nat
    decreases s.len(),
{
    if s.len() == 0 {
        0
    } else {
        utf8_len(s.drop_last()) + char_width(s.last())
    }
}

/// Length in UTF-16 code units of `s`.
pub open spec fn utf16_len(s: Seq<char>) -> nat
    decreases s.len(),
{
    if s.len() == 0 {
        0
    } else {
        utf16_len(s.drop_last()) + char_utf16_width(s.last())
    }
}

/// Byte offset of the character at index `k` of `s`.
pub open spec fn byte_at(s: Seq<char>, k: int) -> nat {
    utf8_len(s.take(k))
}

/// The sequence has a byte length below `usize::MAX`, so that every offset
/// into it and one past it is a machine-sized integer.
pub open spec fn fits(s: Seq<char>) -> bool {
    utf8_len(s) < usize::MAX
}

pub proof fn lemma_utf8_len_concat(a: Seq<char>, b: Seq<char>)
    ensures
        utf8_len(a + b) == utf8_len(a) + utf8_len(b),
    decreases b.len(),
{
    if b.len() == 0 {
        assert(a + b =~= a);
    } else {
        lemma_utf8_len_concat(a, b.drop_last());
        assert((a + b).drop_last() =~= a + b.drop_last());
        assert((a + b).last() == b.last());
    }
}

pub proof fn lemma_utf16_len_concat(a: Seq<char>, b: Seq<char>)
    ensures
        utf16_len(a + b) == utf16_len(a) + utf16_len(b),
    decreases b.len(),
{
    if b.len() == 0 {
        assert(a + b =~= a);
    } else {
        lemma_utf16_len_concat(a, b.drop_last());
        assert((a + b).drop_last() =~= a + b.drop_last());
        assert((a + b).last() == b.last());
    }
}

/// Prefix lengths grow one character at a time.
pub proof fn lemma_utf8_take_step(s: Seq<char>, k: int)
    requires
        0 <= k < s.len(),
    ensures
        utf8_len(s.take(k + 1)) == utf8_len(s.take(k)) + char_width(s[k]),
{
    assert(s.take(k + 1).drop_last() =~= s.take(k));
}

pub proof fn lemma_utf16_take_step(s: Seq<char>, k: int)
    requires
        0 <= k < s.len(),
    ensures
        utf16_len(s.take(k + 1)) == utf16_len(s.take(k)) + char_utf16_width(s[k]),
{
    assert(s.take(k + 1).drop_last() =~= s.take(k));
}

/// Byte offsets never decrease along a sequence.
pub proof fn lemma_utf8_take_mono(s: Seq<char>, i: int, j: int)
    requires
        0 <= i <= j <= s.len(),
    ensures
        utf8_len(s.take(i)) <= utf8_len(s.take(j)),
        i < j ==> utf8_len(s.take(i)) < utf8_len(s.take(j)),
    decreases j - i,
{
    if i < j {
        lemma_utf8_take_mono(s, i, j - 1);
        lemma_utf8_take_step(s, j - 1);
    }
}

pub proof fn lemma_utf8_len_take_full(s: Seq<char>)
    ensures
        utf8_len(s.take(s.len() as int)) == utf8_len(s),
{
    assert(s.take(s.len() as int) =~= s);
}

/// The byte offset of a sub-range is the difference of the byte offsets.
pub proof fn lemma_utf8_subrange(s: Seq<char>, i: int, j: int)
    requires
        0 <= i <= j <= s.len(),
    ensures
        utf8_len(s.subrange(i, j)) + utf8_len(s.take(i)) == utf8_len(s.take(j)),
{
    assert(s.take(j) =~= s.take(i) + s.subrange(i, j));
    lemma_utf8_len_concat(s.take(i), s.subrange(i, j));
}

proof fn lemma_encode_scalar_len(c: char)
    ensures
        encode_scalar(c as u32).len() == char_width(c),
{
}

/// The UTF-8 encoding has exactly `utf8_len` bytes.
pub proof fn lemma_encode_utf8_len(s: Seq<char>)
    ensures
        encode_utf8(s).len() == utf8_len(s),
    decreases s.len(),
{
    if s.len() > 0 {
        lemma_encode_utf8_len(s.drop_first());
        lemma_encode_scalar_len(s[0]);
        assert(s =~= seq![s[0]] + s.drop_first());
        lemma_utf8_len_concat(seq![s[0]], s.drop_first());
        let one = seq![s[0]];
        assert(one.drop_last() =~= Seq::<char>::empty());
        assert(utf8_len(one.drop_last()) == 0);
        assert(utf8_len(one) == char_width(s[0]));
        assert(encode_utf8(s) == encode_scalar(s[0] as u32) + encode_utf8(s.drop_first()));
    }
}

/// The byte length of a string, as `str::len` reports it.
pub fn str_byte_len(s: &str) -> (n: usize)
    ensures
        n == utf8_len(s@),
{
    let bytes = s.as_bytes();
    let n = bytes.len();
    proof {
        lemma_encode_utf8_len(s@);
        assert(bytes@.len() == n);
    }
    n
}

/// UTF-8 width of a character.
pub fn utf8_width(c: char) -> (n: usize)
    ensures
        n == char_width(c),
        1 <= n <= 4,
{
    let v = c as u32;
    if v < 0x80 {
        1
    } else if v < 0x800 {
        2
    } else if v < 0x10000 {
        3
    } else {
        4
    }
}

/// UTF-16 width of a character.
pub fn utf16_width(c: char) -> (n: usize)
    ensures
        n == char_utf16_width(c),
        1 <= n <= 2,
{
    if (c as u32) < 0x10000 {
        1
    } else {
        2
    }
}

/// The characters of a string.
pub(crate) fn chars_of(s: &str) -> (v: Vec<char>)
    ensures
        v@ == s@,
{
    broadcast use vstd::string::axiom_spec_iter;
    let mut v: Vec<char> = Vec::new();
    for c in it: s.chars()
        invariant
            it.seq() == s@,
            v@ == it.seq().take(it.index()),
    {
        v.push(c);
    }
    v
}

/// A string made of the given characters.
pub(crate) fn string_of(v: &[char]) -> (s: String)
    ensures
        s@ == v@,
{
    let mut s = String::new();
    push_chars(&mut s, v);
    proof {
        assert(s@ =~= v@);
    }
    s
}

/// The Unicode `White_Space` property, as `char::is_whitespace` defines it.
pub open spec fn is_space(c: char) -> bool {
    let v = c as u32;
    ||| 0x09 <= v <= 0x0D
    ||| v == 0x20
    ||| v == 0x85
    ||| v == 0xA0
    ||| v == 0x1680
    ||| 0x2000 <= v <= 0x200A
    ||| v == 0x2028
    ||| v == 0x2029
    ||| v == 0x202F
    ||| v == 0x205F
    ||| v == 0x3000
}

pub fn is_whitespace(c: char) -> (b: bool)
    ensures
        b == is_space(c),
{
    let v = c as u32;
    (0x09 <= v && v <= 0x0D) || v == 0x20 || v == 0x85 || v == 0xA0 || v == 0x1680 || (0x2000
        <= v && v <= 0x200A) || v == 0x2028 || v == 0x2029 || v == 0x202F || v == 0x205F || v
        == 0x3000
}

pub open spec fn is_ascii_digit(c: char) -> bool {
    '0' <= c <= '9'
}

pub open spec fn is_ascii_alpha(c: char) -> bool {
    ('a' <= c <= 'z') || ('A' <= c <= 'Z')
}

pub open spec fn is_ascii_alnum(c: char) -> bool {
    is_ascii_alpha(c) || is_ascii_digit(c)
}

pub fn ascii_digit(c: char) -> (b: bool)
    ensures
        b == is_ascii_digit(c),
{
    '0' <= c && c <= '9'
}

pub fn ascii_alpha(c: char) -> (b: bool)
    ensures
        b == is_ascii_alpha(c),
{
    ('a' <= c && c <= 'z') || ('A' <= c && c <= 'Z')
}

pub fn ascii_alnum(c: char) -> (b: bool)
    ensures
        b == is_ascii_alnum(c),
{
    ascii_alpha(c) || ascii_digit(c)
}

/// What `char::is_alphanumeric` answers for `c` (Unicode `Alphabetic` or `Numeric`).
pub uninterp spec fn unicode_alphanumeric(c: char) -> bool;

/// Whether `c` is alphanumeric: the ASCII letters and digits among ASCII
/// characters, the Unicode `Alphabetic` and `Numeric` ones beyond.
pub open spec fn alphanumeric(c: char) -> bool {
    if (c as u32) < 0x80 {
        is_ascii_alnum(c)
    } else {
        unicode_alphanumeric(c)
    }
}

/// Calls `char::is_alphanumeric`. Its answer is named by `unicode_alphanumeric`;
/// on ASCII the documentation fixes it to the ASCII letters and digits.
#[verifier::external_body]
pub(crate) fn is_alphanumeric(c: char) -> (b: bool)
    ensures
        b == unicode_alphanumeric(c),
        (c as u32) < 0x80 ==> (b == is_ascii_alnum(c)),
{
    c.is_alphanumeric()
}

/// Byte offsets of every character boundary of `s`, including the end.
pub fn byte_offsets(s: &Vec<char>) -> (offs: Vec<usize>)
    requires
        fits(s@),
    ensures
        offs.len() == s.len() + 1,
        forall|k: int| 0 <= k <= s.len() ==> #[trigger] offs@[k] == byte_at(s@, k),
{
    let mut offs: Vec<usize> = Vec::new();
    offs.push(0);
    let mut total: usize = 0;
    let mut i: usize = 0;
    proof {
        assert(s@.take(0) =~= Seq::<char>::empty());
    }
    while i < s.len()
        invariant
            i <= s.len(),
            fits(s@),
            offs.len() == i + 1,
            total == byte_at(s@, i as int),
            forall|k: int| 0 <= k <= i ==> #[trigger] offs@[k] == byte_at(s@, k),
        decreases s.len() - i,
    {
        proof {
            lemma_utf8_take_step(s@, i as int);
            lemma_utf8_take_mono(s@, i as int + 1, s.len() as int);
            lemma_utf8_len_take_full(s@);
        }
        let w = utf8_width(s[i]);
        total = total + w;
        i = i + 1;
        offs.push(total);
    }
    offs
}

/// Appends a string slice (`String::push_str`).
#[verifier::external_body]
pub(crate) fn push_str(out: &mut String, s: &str)
    ensures
        final(out)@ == old(out)@ + s@,
{
    out.push_str(s);
}

/// Appends one character (`String::push`).
#[verifier::external_body]
pub(crate) fn push_char(out: &mut String, c: char)
    ensures
        final(out)@ == old(out)@.push(c),
{
    out.push(c);
}

/// Appends the given characters, in order.
pub fn push_chars(out: &mut String, cs: &[char])
    ensures
        final(out)@ == old(out)@ + cs@,
{
    let mut i: usize = 0;
    while i < cs.len()
        invariant
            i <= cs@.len(),
            out@ == old(out)@ + cs@.take(i as int),
        decreases cs@.len() - i,
    {
        proof {
            assert(cs@.take(i as int + 1) =~= cs@.take(i as int).push(cs@[i as int]));
        }
        push_char(out, cs[i]);
        i = i + 1;
    }
    proof {
        assert(cs@.take(cs@.len() as int) =~= cs@);
    }
}

/// Character-wise equality of two strings.
pub fn str_eq(a: &str, b: &str) -> (r: bool)
    ensures
        r == (a@ == b@),
{
    let x = chars_of(a);
    let y = chars_of(b);
    chars_eq(x.as_slice(), y.as_slice())
}

/// Element-wise equality of two character slices.
pub fn chars_eq(x: &[char], y: &[char]) -> (r: bool)
    ensures
        r == (x@ == y@),
{
    if x.len() != y.len() {
        return false;
    }
    let mut i: usize = 0;
    while i < x.len()
        invariant
            i <= x@.len(),
            x@.len() == y@.len(),
            forall|j: int| 0 <= j < i ==> x@[j] == y@[j],
        decreases x@.len() - i,
    {
        if x[i] != y[i] {
            return false;
        }
        i = i + 1;
    }
    proof {
        assert(x@ =~= y@);
    }
    true
}

/// `s[i..]` starts with `p`.
pub open spec fn starts_at(s: Seq<char>, i: int, p: Seq<char>) -> bool {
    0 <= i && i + p.len() <= s.len() && s.subrange(i, i + p.len()) == p
}

pub fn starts_with_at(s: &[char], i: usize, p: &[char]) -> (r: bool)
    ensures
        r == starts_at(s@, i as int, p@),
{
    if i > s.len() || p.len() > s.len() - i {
        return false;
    }
    let mut j: usize = 0;
    while j < p.len()
        invariant
            j <= p@.len(),
            i + p@.len() <= s@.len(),
            s@.len() == s.len(),
            forall|t: int| 0 <= t < j ==> s@[i + t] == p@[t],
        decreases p@.len() - j,
    {
        if s[i + j] != p[j] {
            return false;
        }
        j = j + 1;
    }
    proof {
        assert(s@.subrange(i as int, i + p@.len()) =~= p@);
    }
    true
}

/// `s` ends with `p`.
pub open spec fn ends_with(s: Seq<char>, p: Seq<char>) -> bool {
    p.len() <= s.len() && s.subrange(s.len() - p.len(), s.len() as int) == p
}

pub fn chars_end_with(s: &[char], p: &[char]) -> (r: bool)
    ensures
        r == ends_with(s@, p@),
{
    if p.len() > s.len() {
        return false;
    }
    starts_with_at(s, s.len() - p.len(), p)
}

} // verus!
