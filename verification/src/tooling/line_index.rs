//! Conversion between compiler UTF-8 byte offsets and editor (UTF-16) positions.

use vstd::prelude::*;

use crate::compiler::diagnostic::{newline_count};
use crate::compiler::span::Span;
use crate::text::{
    byte_at, byte_offsets, char_utf16_width, char_width, chars_of, fits, lemma_utf16_take_step,
    lemma_utf8_len_take_full, lemma_utf8_take_mono, lemma_utf8_take_step, str_byte_len,
    utf16_len, utf16_width, utf8_len,
};

verus! {

/// A zero-based line and UTF-16 character offset, as editor protocols count them.
#[derive(Debug, Clone, Copy, PartialEq, Eq, Hash, Structural)]
pub struct Position {
    pub line: u32,
    pub character: u32,
}

impl Position {
    pub fn new(line: u32, character: u32) -> (p: Position)
        ensures
            p.line == line,
            p.character == character,
    {
        Position { line, character }
    }
}

/// A range between two positions.
#[derive(Debug, Clone, Copy, PartialEq, Eq, Hash, Structural)]
pub struct Range {
    pub start: Position,
    pub end: Position,
}

impl Range {
    pub fn new(start: Position, end: Position) -> (r: Range)
        ensures
            r.start == start,
            r.end == end,
    {
        Range { start, end }
    }
}

/// The last character boundary at or before byte `b`, as a character index,
/// searching from index `k`.
pub open spec fn floor_from(s: Seq<char>, k: int, b: int) -> int
    decreases s.len() - k,
{
    if 0 <= k < s.len() && byte_at(s, k + 1) <= b {
        floor_from(s, k + 1, b)
    } else {
        k
    }
}

/// The character that byte `b` falls in (or the end).
pub open spec fn floor_index(s: Seq<char>, b: int) -> int {
    floor_from(s, 0, b)
}

/// Index of the first character of the line that contains index `k`.
pub open spec fn line_start_before(s: Seq<char>, k: int) -> int
    decreases k,
{
    if k <= 0 {
        0
    } else if s[k - 1] == '\n' {
        k
    } else {
        line_start_before(s, k - 1)
    }
}

/// Index of the first line feed at or after `i` (or the length).
pub open spec fn next_newline(s: Seq<char>, i: int) -> int
    decreases s.len() - i,
{
    if i >= s.len() || i < 0 {
        s.len() as int
    } else if s[i] == '\n' {
        i
    } else {
        next_newline(s, i + 1)
    }
}

/// End of the content of the line starting at `ls`: before its line feed,
/// and before a carriage return that precedes the line feed.
pub open spec fn content_end(s: Seq<char>, ls: int) -> int {
    let e = next_newline(s, ls);
    if e > ls && s[e - 1] == '\r' {
        e - 1
    } else {
        e
    }
}

/// Index of the first character of line `line`.
pub open spec fn nth_line_start(s: Seq<char>, line: nat) -> int
    decreases line,
{
    if line == 0 {
        0
    } else {
        next_newline(s, nth_line_start(s, (line - 1) as nat)) + 1
    }
}

/// The position of byte offset `byte`: clamped to the text, moved back to a
/// character boundary, and clamped to the end of its line's content.
pub open spec fn position_of(s: Seq<char>, byte: int) -> Position {
    let b = if byte < utf8_len(s) {
        byte
    } else {
        utf8_len(s) as int
    };
    let k = floor_index(s, b);
    let ls = line_start_before(s, k);
    let le = content_end(s, ls);
    let kk = if k < le {
        k
    } else {
        le
    };
    Position {
        line: newline_count(s.take(k)) as u32,
        character: utf16_len(s.subrange(ls, kk)) as u32,
    }
}

/// The first character in `[j, le)` at which the UTF-16 count from the line
/// start (`acc` so far) passes `c`; `le` when none does.
pub open spec fn scan_utf16(s: Seq<char>, j: int, le: int, acc: int, c: int) -> int
    decreases le - j,
{
    if j >= le || j < 0 || j >= s.len() {
        le
    } else if acc + char_utf16_width(s[j]) > c {
        j
    } else {
        scan_utf16(s, j + 1, le, acc + char_utf16_width(s[j]), c)
    }
}

/// The byte offset that a position names.
pub open spec fn byte_of(s: Seq<char>, p: Position) -> int {
    if p.line >= newline_count(s) + 1 {
        utf8_len(s) as int
    } else {
        let ls = nth_line_start(s, p.line as nat);
        let le = content_end(s, ls);
        byte_at(s, scan_utf16(s, ls, le, 0, p.character as int)) as int
    }
}

/// Converts between compiler UTF-8 byte offsets and editor UTF-16 positions.
#[derive(Debug)]
pub struct LineIndex {
    chars: Vec<char>,
    offsets: Vec<usize>,
    line_starts: Vec<usize>,
}

proof fn lemma_next_newline_at(s: Seq<char>, a: int, i: int)
    requires
        0 <= a <= i < s.len(),
        s[i] == '\n',
        forall|j: int| a <= j < i ==> #[trigger] s[j] != '\n',
    ensures
        next_newline(s, a) == i,
    decreases i - a,
{
    if a < i {
        lemma_next_newline_at(s, a + 1, i);
    }
}

proof fn lemma_next_newline_none(s: Seq<char>, a: int)
    requires
        0 <= a <= s.len(),
        forall|j: int| a <= j < s.len() ==> #[trigger] s[j] != '\n',
    ensures
        next_newline(s, a) == s.len(),
    decreases s.len() - a,
{
    if a < s.len() {
        lemma_next_newline_none(s, a + 1);
    }
}

proof fn lemma_newline_count_step(s: Seq<char>, k: int)
    requires
        0 <= k < s.len(),
    ensures
        newline_count(s.take(k + 1)) == newline_count(s.take(k)) + if s[k] == '\n' {
            1nat
        } else {
            0nat
        },
{
    assert(s.take(k + 1).drop_last() =~= s.take(k));
}

proof fn lemma_utf16_le_utf8(s: Seq<char>)
    ensures
        utf16_len(s) <= utf8_len(s),
    decreases s.len(),
{
    if s.len() > 0 {
        lemma_utf16_le_utf8(s.drop_last());
    }
}

impl LineIndex {
    pub closed spec fn text(&self) -> Seq<char> {
        self.chars@
    }

    pub closed spec fn wf(&self) -> bool {
        &&& fits(self.chars@)
        &&& self.offsets@.len() == self.chars@.len() + 1
        &&& forall|k: int|
            0 <= k <= self.chars@.len() ==> #[trigger] self.offsets@[k] == byte_at(self.chars@, k)
        &&& self.line_starts@.len() == newline_count(self.chars@) + 1
        &&& forall|l: int|
            0 <= l < self.line_starts@.len() ==> #[trigger] self.line_starts@[l] == nth_line_start(
                self.chars@,
                l as nat,
            )
        &&& forall|l: int|
            0 <= l < self.line_starts@.len() ==> #[trigger] self.line_starts@[l]
                <= self.chars@.len()
    }

    /// Indexes the lines of `text`.
    pub fn new(text: &str) -> (r: LineIndex)
        requires
            fits(text@),
        ensures
            r.wf(),
            r.text() == text@,
    {
        let chars = chars_of(text);
        let offsets = byte_offsets(&chars);
        let mut line_starts: Vec<usize> = Vec::new();
        line_starts.push(0);
        let mut i: usize = 0;
        proof {
            assert(chars@.take(0) =~= Seq::<char>::empty());
        }
        while i < chars.len()
            invariant
                i <= chars@.len(),
                line_starts@.len() == newline_count(chars@.take(i as int)) + 1,
                forall|l: int|
                    0 <= l < line_starts@.len() ==> #[trigger] line_starts@[l] == nth_line_start(
                        chars@,
                        l as nat,
                    ),
                forall|l: int| 0 <= l < line_starts@.len() ==> #[trigger] line_starts@[l] <= i,
                forall|j: int|
                    line_starts@[line_starts@.len() - 1] <= j < i ==> #[trigger] chars@[j] != '\n',
            decreases chars@.len() - i,
        {
            proof {
                lemma_newline_count_step(chars@, i as int);
            }
            if chars[i] == '\n' {
                proof {
                    let last = line_starts@[line_starts@.len() - 1];
                    lemma_next_newline_at(chars@, last as int, i as int);
                    assert(nth_line_start(chars@, line_starts@.len() as nat) == i + 1);
                }
                line_starts.push(i + 1);
            }
            i = i + 1;
        }
        proof {
            assert(chars@.take(chars@.len() as int) =~= chars@);
        }
        LineIndex { chars, offsets, line_starts }
    }

    /// The position of byte offset `byte`.
    pub fn byte_to_position(&self, byte: usize) -> (p: Position)
        requires
            self.wf(),
        ensures
            p == position_of(self.text(), byte as int),
    {
        let ghost s = self.chars@;
        let n = self.chars.len();
        let total = self.offsets[n];
        let b = if byte < total {
            byte
        } else {
            total
        };
        // the character that contains `b`, with line count and line start
        let mut k: usize = 0;
        let mut lines: usize = 0;
        let mut ls: usize = 0;
        proof {
            lemma_utf8_len_take_full(s);
            assert(s.take(0) =~= Seq::<char>::empty());
        }
        while k < n && self.offsets[k + 1] <= b
            invariant
                self.wf(),
                s == self.chars@,
                n == s.len(),
                k <= n,
                b <= utf8_len(s),
                floor_index(s, b as int) == floor_from(s, k as int, b as int),
                lines == newline_count(s.take(k as int)),
                ls == line_start_before(s, k as int),
                ls <= k,
            decreases n - k,
        {
            proof {
                lemma_newline_count_step(s, k as int);
                lemma_counts_le(s.take(k as int + 1));
                lemma_utf8_len_take_full(s);
                lemma_utf8_take_mono(s, k as int + 1, n as int);
            }
            if self.chars[k] == '\n' {
                lines = lines + 1;
                ls = k + 1;
            }
            k = k + 1;
        }
        // end of the line's content
        let mut e = ls;
        while e < n && self.chars[e] != '\n'
            invariant
                self.wf(),
                s == self.chars@,
                n == s.len(),
                ls <= e <= n,
                next_newline(s, ls as int) == next_newline(s, e as int),
            decreases n - e,
        {
            e = e + 1;
        }
        let le = if e > ls && self.chars[e - 1] == '\r' {
            e - 1
        } else {
            e
        };
        let kk = if k < le {
            k
        } else {
            le
        };
        // UTF-16 length of the line up to `kk`
        let mut units: usize = 0;
        let mut j = ls;
        proof {
            assert(s.subrange(ls as int, ls as int) =~= Seq::<char>::empty());
        }
        while j < kk
            invariant
                self.wf(),
                s == self.chars@,
                ls <= j <= kk <= n,
                n == s.len(),
                units == utf16_len(s.subrange(ls as int, j as int)),
            decreases kk - j,
        {
            proof {
                assert(s.subrange(ls as int, j + 1).drop_last() =~= s.subrange(ls as int, j as int));
                lemma_utf16_le_utf8(s.subrange(ls as int, j + 1));
                crate::text::lemma_utf8_subrange(s, ls as int, j + 1);
                lemma_utf8_take_mono(s, j + 1, n as int);
                lemma_utf8_len_take_full(s);
            }
            units = units + utf16_width(self.chars[j]);
            j = j + 1;
        }
        Position { line: lines as u32, character: units as u32 }
    }

    /// The byte offset that a position names, clamped to the line's content;
    /// positions past the last line name the end of the text.
    pub fn position_to_byte(&self, position: Position) -> (b: usize)
        requires
            self.wf(),
        ensures
            b == byte_of(self.text(), position),
    {
        let ghost s = self.chars@;
        let n = self.chars.len();
        if position.line as usize >= self.line_starts.len() {
            proof {
                lemma_utf8_len_take_full(s);
            }
            return self.offsets[n];
        }
        let ls = self.line_starts[position.line as usize];
        proof {
            assert(ls == nth_line_start(s, position.line as nat));
        }
        let mut e = ls;
        while e < n && self.chars[e] != '\n'
            invariant
                self.wf(),
                s == self.chars@,
                n == s.len(),
                ls <= e <= n,
                next_newline(s, ls as int) == next_newline(s, e as int),
            decreases n - e,
        {
            e = e + 1;
        }
        let le = if e > ls && self.chars[e - 1] == '\r' {
            e - 1
        } else {
            e
        };
        proof {
            assert(e == next_newline(s, ls as int));
            assert(le == content_end(s, ls as int));
        }
        let target = position.character as u64;
        let mut units: u64 = 0;
        let mut j = ls;
        while j < le
            invariant
                self.wf(),
                s == self.chars@,
                n == s.len(),
                ls <= j <= le <= n,
                units <= target,
                target == position.character,
                ls == nth_line_start(s, position.line as nat),
                le == content_end(s, ls as int),
                (position.line as int) < newline_count(s) + 1,
                scan_utf16(s, ls as int, le as int, 0, target as int) == scan_utf16(
                    s,
                    j as int,
                    le as int,
                    units as int,
                    target as int,
                ),
            decreases le - j,
        {
            let next = units + utf16_width(self.chars[j]) as u64;
            if next > target {
                proof {
                    assert(scan_utf16(s, j as int, le as int, units as int, target as int) == j);
                }
                return self.offsets[j];
            }
            units = next;
            j = j + 1;
        }
        self.offsets[le]
    }

    /// The range of a span.
    pub fn span_to_range(&self, span: Span) -> (r: Range)
        requires
            self.wf(),
        ensures
            r.start == position_of(self.text(), span.start as int),
            r.end == position_of(self.text(), span.end as int),
    {
        Range::new(self.byte_to_position(span.start), self.byte_to_position(span.end))
    }
}

proof fn lemma_counts_le(s: Seq<char>)
    ensures
        newline_count(s) <= s.len(),
        s.len() <= utf8_len(s),
    decreases s.len(),
{
    if s.len() > 0 {
        lemma_counts_le(s.drop_last());
    }
}


proof fn lemma_floor_at_boundary(s: Seq<char>, j: int, k: int)
    requires
        0 <= j <= k <= s.len(),
    ensures
        floor_from(s, j, byte_at(s, k) as int) == k,
    decreases k - j,
{
    if j < k {
        lemma_utf8_take_mono(s, j + 1, k);
        lemma_floor_at_boundary(s, j + 1, k);
    } else if k < s.len() {
        lemma_utf8_take_mono(s, k, k + 1);
    }
}

proof fn lemma_no_newline_since_line_start(s: Seq<char>, k: int)
    requires
        0 <= k <= s.len(),
    ensures
        0 <= line_start_before(s, k) <= k,
        forall|j: int| line_start_before(s, k) <= j < k ==> #[trigger] s[j] != '\n',
    decreases k,
{
    if k > 0 && s[k - 1] != '\n' {
        lemma_no_newline_since_line_start(s, k - 1);
    }
}

proof fn lemma_line_start_of_count(s: Seq<char>, k: int)
    requires
        0 <= k <= s.len(),
    ensures
        nth_line_start(s, newline_count(s.take(k))) == line_start_before(s, k),
    decreases k,
{
    if k > 0 {
        lemma_line_start_of_count(s, k - 1);
        lemma_newline_count_step(s, k - 1);
        if s[k - 1] == '\n' {
            lemma_no_newline_since_line_start(s, k - 1);
            lemma_next_newline_at(s, line_start_before(s, k - 1), k - 1);
        }
    } else {
        assert(s.take(0) =~= Seq::<char>::empty());
    }
}

proof fn lemma_newline_count_prefix(s: Seq<char>, k: int)
    requires
        0 <= k <= s.len(),
    ensures
        newline_count(s.take(k)) <= newline_count(s),
    decreases s.len() - k,
{
    if k < s.len() {
        lemma_newline_count_step(s, k);
        lemma_newline_count_prefix(s, k + 1);
    } else {
        assert(s.take(k) =~= s);
    }
}

proof fn lemma_utf16_subrange_le(s: Seq<char>, a: int, b: int)
    requires
        0 <= a <= b <= s.len(),
    ensures
        utf16_len(s.subrange(a, b)) <= utf16_len(s),
{
    assert(s =~= s.take(a) + s.subrange(a, b) + s.skip(b));
    crate::text::lemma_utf16_len_concat(s.take(a), s.subrange(a, b));
    crate::text::lemma_utf16_len_concat(s.take(a) + s.subrange(a, b), s.skip(b));
}

proof fn lemma_scan_finds(s: Seq<char>, ls: int, j: int, k: int, le: int)
    requires
        0 <= ls <= j <= k <= le <= s.len(),
    ensures
        scan_utf16(s, j, le, utf16_len(s.subrange(ls, j)) as int, utf16_len(s.subrange(ls, k)) as int)
            == k,
    decreases k - j,
{
    if j < k {
        assert(s.subrange(ls, j + 1).drop_last() =~= s.subrange(ls, j));
        assert(s.subrange(ls, k) =~= s.subrange(ls, j + 1) + s.subrange(j + 1, k));
        crate::text::lemma_utf16_len_concat(s.subrange(ls, j + 1), s.subrange(j + 1, k));
        lemma_scan_finds(s, ls, j + 1, k, le);
    } else if k < le {
        assert(char_utf16_width(s[k]) >= 1);
    }
}

/// Converting a character boundary to an editor position and back gives the
/// same byte offset, for every boundary that is not between a line's `\r`
/// and its `\n` (positions there name the end of the line's content), as
/// long as line and column numbers fit in 32 bits.
pub proof fn law_position_round_trip(s: Seq<char>, k: int)
    requires
        0 <= k <= s.len(),
        k <= content_end(s, line_start_before(s, k)),
        newline_count(s) <= u32::MAX,
        utf16_len(s) <= u32::MAX,
    ensures
        byte_of(s, position_of(s, byte_at(s, k) as int)) == byte_at(s, k),
{
    lemma_utf8_take_mono(s, k, s.len() as int);
    lemma_utf8_len_take_full(s);
    lemma_floor_at_boundary(s, 0, k);
    let ls = line_start_before(s, k);
    lemma_no_newline_since_line_start(s, k);
    lemma_line_start_of_count(s, k);
    lemma_newline_count_prefix(s, k);
    lemma_utf16_subrange_le(s, ls, k);
    let le = content_end(s, ls);
    lemma_next_newline_range(s, ls);
    assert(s.subrange(ls, ls) =~= Seq::<char>::empty());
    lemma_scan_finds(s, ls, ls, k, le);
}

proof fn lemma_next_newline_range(s: Seq<char>, i: int)
    requires
        0 <= i <= s.len(),
    ensures
        i <= next_newline(s, i) <= s.len(),
    decreases s.len() - i,
{
    if i < s.len() && s[i] != '\n' {
        lemma_next_newline_range(s, i + 1);
    }
}

proof fn lemma_line_starts_inside(s: Seq<char>, l: nat)
    requires
        l <= newline_count(s),
    ensures
        0 <= nth_line_start(s, l) <= s.len(),
    decreases newline_count(s) - l,
{
    if l == newline_count(s) {
        lemma_line_start_of_count(s, s.len() as int);
        assert(s.take(s.len() as int) =~= s);
        lemma_no_newline_since_line_start(s, s.len() as int);
    } else {
        lemma_line_starts_inside(s, l + 1);
        let a = nth_line_start(s, l);
        if l > 0 {
            lemma_line_starts_inside_low(s, l);
        }
        if a > s.len() {
            assert(next_newline(s, a) == s.len());
        }
    }
}

proof fn lemma_line_starts_inside_low(s: Seq<char>, l: nat)
    requires
        0 < l,
    ensures
        0 <= nth_line_start(s, l),
    decreases l,
{
    let a = nth_line_start(s, (l - 1) as nat);
    if l > 1 {
        lemma_line_starts_inside_low(s, (l - 1) as nat);
    }
    if 0 <= a <= s.len() {
        lemma_next_newline_range(s, a);
    }
}

proof fn lemma_scan_inside(s: Seq<char>, j: int, le: int, acc: int, c: int)
    requires
        0 <= j <= le <= s.len(),
    ensures
        j <= scan_utf16(s, j, le, acc, c) <= le,
    decreases le - j,
{
    if j < le && acc + char_utf16_width(s[j]) <= c {
        lemma_scan_inside(s, j + 1, le, acc + char_utf16_width(s[j]), c);
    }
}

/// Every editor position names a character boundary within the text, so
/// that the text can always be cut there.
pub proof fn law_positions_name_boundaries(s: Seq<char>, p: Position)
    ensures
        0 <= byte_of(s, p) <= utf8_len(s),
        crate::error::is_char_boundary(s, byte_of(s, p)),
{
    lemma_utf8_len_take_full(s);
    if p.line >= newline_count(s) + 1 {
        assert(byte_at(s, s.len() as int) == utf8_len(s));
    } else {
        lemma_line_starts_inside(s, p.line as nat);
        let ls = nth_line_start(s, p.line as nat);
        lemma_next_newline_range(s, ls);
        let le = content_end(s, ls);
        lemma_scan_inside(s, ls, le, 0, p.character as int);
        let k = scan_utf16(s, ls, le, 0, p.character as int);
        lemma_utf8_take_mono(s, k, s.len() as int);
        assert(byte_at(s, k) == byte_of(s, p));
    }
}

} // verus!
