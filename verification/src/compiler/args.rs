//! Lexical pieces of tags: where a tag ends, quoted strings, the `in` of a
//! loop, the `=` of a named argument, and the splitting of argument lists.

use vstd::prelude::*;

use crate::compiler::span::Span;
use crate::text::{
    byte_at, ends_with, is_space, is_whitespace, lemma_utf8_len_take_full, lemma_utf8_take_mono,
    lemma_utf8_take_step, starts_at, utf8_len, utf8_width,
};

verus! {

/// Index of the `}` that closes a tag whose content starts at `i`, skipping
/// quoted strings (where a backslash escapes the next character).
pub open spec fn tag_end_from(s: Seq<char>, i: int, quote: Option<char>) -> Option<int>
    decreases s.len() + 1 - i,
{
    if i < 0 || i >= s.len() {
        None
    } else {
        let c = s[i];
        match quote {
            Some(q) => if c == '\\' {
                tag_end_from(s, i + 2, quote)
            } else if c == q {
                tag_end_from(s, i + 1, None)
            } else {
                tag_end_from(s, i + 1, quote)
            },
            None => if c == '\'' || c == '"' {
                tag_end_from(s, i + 1, Some(c))
            } else if c == '}' {
                Some(i)
            } else {
                tag_end_from(s, i + 1, None)
            },
        }
    }
}

/// The inside of a text wrapped in a pair of the same quote character.
pub open spec fn quoted(t: Seq<char>) -> Option<Seq<char>> {
    if t.len() >= 2 && (t[0] == '\'' || t[0] == '"') && t[t.len() - 1] == t[0] {
        Some(t.subrange(1, t.len() - 1))
    } else {
        None
    }
}

/// `w` occurs at `k` of `t` as a word of its own: nothing or whitespace on each side.
pub open spec fn word_at(t: Seq<char>, k: int, w: Seq<char>) -> bool {
    &&& starts_at(t, k, w)
    &&& (k == 0 || is_space(t[k - 1]))
    &&& (k + w.len() == t.len() || is_space(t[k + w.len()]))
}

/// The first index at or after `k` where `w` occurs as a word.
pub open spec fn find_word_from(t: Seq<char>, w: Seq<char>, k: int) -> Option<int>
    decreases t.len() + 1 - k,
{
    if k < 0 || k >= t.len() {
        None
    } else if word_at(t, k, w) {
        Some(k)
    } else {
        find_word_from(t, w, k + 1)
    }
}

/// The first `=` that is outside brackets and quotes and not followed by another `=`.
pub open spec fn top_level_equals_from(t: Seq<char>, k: int, depth: int, quote: Option<char>) -> Option<
    int,
>
    decreases t.len() + 1 - k,
{
    if k < 0 || k >= t.len() {
        None
    } else {
        let c = t[k];
        match quote {
            Some(q) => top_level_equals_from(t, k + 1, depth, if c == q { None } else { quote }),
            None => if c == '\'' || c == '"' {
                top_level_equals_from(t, k + 1, depth, Some(c))
            } else if c == '(' || c == '[' {
                top_level_equals_from(t, k + 1, depth + 1, None)
            } else if c == ')' || c == ']' {
                top_level_equals_from(t, k + 1, depth - 1, None)
            } else if c == '=' && depth == 0 && !(k + 1 < t.len() && t[k + 1] == '=') {
                Some(k)
            } else {
                top_level_equals_from(t, k + 1, depth, None)
            },
        }
    }
}

pub open spec fn top_level_equals(t: Seq<char>) -> Option<int> {
    top_level_equals_from(t, 0, 0, None)
}

/// A piece of an argument list and its byte range.
pub type PieceV = (Seq<char>, Span);

/// The piece `t[s..e]`, whose text starts at byte `base` of the source.
pub open spec fn piece(t: Seq<char>, base: int, s: int, e: int) -> PieceV {
    (t.subrange(s, e), Span { start: (base + byte_at(t, s)) as usize, end: (base + byte_at(t, e)) as usize })
}

/// Splits an argument list at top-level whitespace, keeping brackets and quotes together.
pub open spec fn split_from(
    t: Seq<char>,
    base: int,
    k: int,
    start: Option<int>,
    depth: int,
    quote: Option<char>,
    acc: Seq<PieceV>,
) -> Seq<PieceV>
    decreases t.len() + 1 - k,
{
    if k < 0 || k >= t.len() {
        match start {
            Some(s) => acc.push(piece(t, base, s, t.len() as int)),
            None => acc,
        }
    } else {
        let c = t[k];
        let opened = match start {
            Some(s) => Some(s),
            None => Some(k),
        };
        match quote {
            Some(q) => split_from(t, base, k + 1, start, depth, if c == q { None } else { quote }, acc),
            None => if c == '\'' || c == '"' {
                split_from(t, base, k + 1, opened, depth, Some(c), acc)
            } else if c == '(' || c == '[' {
                split_from(t, base, k + 1, opened, depth + 1, None, acc)
            } else if c == ')' || c == ']' {
                split_from(t, base, k + 1, start, depth - 1, None, acc)
            } else if is_space(c) && depth == 0 {
                match start {
                    Some(s) => split_from(t, base, k + 1, None, depth, None, acc.push(piece(t, base, s, k))),
                    None => split_from(t, base, k + 1, None, depth, None, acc),
                }
            } else {
                split_from(t, base, k + 1, opened, depth, None, acc)
            },
        }
    }
}

pub open spec fn split_arguments(t: Seq<char>, base: int) -> Seq<PieceV> {
    split_from(t, base, 0, None, 0, None, Seq::empty())
}

/// A piece that ends with one `=` (not `==`).
pub open spec fn open_assignment(a: Seq<char>) -> bool {
    ends_with(a, seq!['=']) && !ends_with(a, seq!['=', '='])
}

/// A piece that starts with one `=` (not `==`).
pub open spec fn assignment_start(a: Seq<char>) -> bool {
    starts_at(a, 0, seq!['=']) && !starts_at(a, 0, seq!['=', '='])
}

/// Rejoins `name = value`, `name= value` and `name =value` into one piece.
pub open spec fn merge_from(args: Seq<PieceV>, i: int, acc: Seq<PieceV>) -> Seq<PieceV>
    decreases args.len() + 1 - i,
{
    if i < 0 || i >= args.len() {
        acc
    } else {
        let (a, sp) = args[i];
        if open_assignment(a) {
            if i + 1 < args.len() {
                let (v, vsp) = args[i + 1];
                merge_from(args, i + 2, acc.push((a + v, Span { start: sp.start, end: vsp.end })))
            } else {
                merge_from(args, i + 1, acc.push((a, sp)))
            }
        } else if i + 1 < args.len() && assignment_start(args[i + 1].0) {
            let (e, esp) = args[i + 1];
            if e == seq!['='] && i + 2 < args.len() {
                let (v, vsp) = args[i + 2];
                merge_from(args, i + 3, acc.push((a + e + v, Span { start: sp.start, end: vsp.end })))
            } else {
                merge_from(args, i + 2, acc.push((a + e, Span { start: sp.start, end: esp.end })))
            }
        } else {
            merge_from(args, i + 1, acc.push((a, sp)))
        }
    }
}

pub open spec fn merge_named_arguments(args: Seq<PieceV>) -> Seq<PieceV> {
    merge_from(args, 0, Seq::empty())
}

/// Replaces each `\` followed by `x` with `x`, scanning left to right.
pub open spec fn unescape_char(t: Seq<char>, x: char) -> Seq<char>
    decreases t.len(),
{
    if t.len() < 2 {
        t
    } else if t[0] == '\\' && t[1] == x {
        seq![x] + unescape_char(t.skip(2), x)
    } else {
        seq![t[0]] + unescape_char(t.skip(1), x)
    }
}

/// Template text with `\{` and then `\}` replaced by the brace alone.
pub open spec fn unescape_braces(t: Seq<char>) -> Seq<char> {
    unescape_char(unescape_char(t, '{'), '}')
}

proof fn lemma_tag_end_range(s: Seq<char>, i: int, quote: Option<char>)
    ensures
        tag_end_from(s, i, quote) matches Some(k) ==> i <= k < s.len() && s[k] == '}',
    decreases s.len() + 1 - i,
{
    if 0 <= i < s.len() {
        lemma_tag_end_range(s, i + 1, None);
        lemma_tag_end_range(s, i + 1, quote);
        lemma_tag_end_range(s, i + 1, Some(s[i]));
        lemma_tag_end_range(s, i + 2, quote);
    }
}

proof fn lemma_top_level_equals_range(t: Seq<char>, k: int, depth: int, quote: Option<char>)
    ensures
        top_level_equals_from(t, k, depth, quote) matches Some(j) ==> k <= j < t.len() && t[j] == '=',
    decreases t.len() + 1 - k,
{
    if 0 <= k < t.len() {
        lemma_top_level_equals_range(t, k + 1, depth, None);
        lemma_top_level_equals_range(t, k + 1, depth, quote);
        lemma_top_level_equals_range(t, k + 1, depth, Some(t[k]));
        lemma_top_level_equals_range(t, k + 1, depth + 1, None);
        lemma_top_level_equals_range(t, k + 1, depth - 1, None);
    }
}

pub fn tag_end(s: &[char], at: usize) -> (r: Option<usize>)
    ensures
        r matches Some(k) ==> tag_end_from(s@, at as int, None) == Some(k as int),
        r is None ==> tag_end_from(s@, at as int, None) is None,
        r matches Some(k) ==> at <= k < s@.len() && s@[k as int] == '}',
{
    proof {
        lemma_tag_end_range(s@, at as int, None);
    }
    let mut i = at;
    let mut quote: Option<char> = None;
    while i < s.len()
        invariant
            at <= i,
            tag_end_from(s@, at as int, None) == tag_end_from(s@, i as int, quote),
        decreases s@.len() + 1 - i,
    {
        let c = s[i];
        match quote {
            Some(q) => {
                if c == '\\' {
                    if s.len() - i >= 2 {
                        i = i + 2;
                    } else {
                        assert(tag_end_from(s@, i + 2, quote) is None);
                        return None;
                    }
                } else if c == q {
                    quote = None;
                    i = i + 1;
                } else {
                    i = i + 1;
                }
            },
            None => {
                if c == '\'' || c == '"' {
                    quote = Some(c);
                    i = i + 1;
                } else if c == '}' {
                    return Some(i);
                } else {
                    i = i + 1;
                }
            },
        }
    }
    None
}

pub fn quoted_text(t: &[char]) -> (r: Option<Vec<char>>)
    ensures
        r matches Some(v) ==> quoted(t@) == Some(v@),
        r is None ==> quoted(t@) is None,
{
    let n = t.len();
    if n >= 2 && (t[0] == '\'' || t[0] == '"') && t[n - 1] == t[0] {
        Some(crate::compiler::scan::char_range(t, 1, n - 1))
    } else {
        None
    }
}

pub fn find_word(t: &[char], w: &[char]) -> (r: Option<usize>)
    ensures
        r matches Some(k) ==> find_word_from(t@, w@, 0) == Some(k as int) && k + w@.len() <= t@.len(),
        r is None ==> find_word_from(t@, w@, 0) is None,
{
    let mut k: usize = 0;
    while k < t.len()
        invariant
            k <= t@.len(),
            find_word_from(t@, w@, 0) == find_word_from(t@, w@, k as int),
        decreases t@.len() - k,
    {
        if crate::text::starts_with_at(t, k, w) && (k == 0 || is_whitespace(t[k - 1])) && (
        k + w.len() == t.len() || is_whitespace(t[k + w.len()])) {
            return Some(k);
        }
        k = k + 1;
    }
    None
}

pub fn top_level_equals_index(t: &[char]) -> (r: Option<usize>)
    ensures
        r matches Some(k) ==> top_level_equals(t@) == Some(k as int) && k < t@.len() && t@[k as int]
            == '=',
        r is None ==> top_level_equals(t@) is None,
{
    proof {
        lemma_top_level_equals_range(t@, 0, 0, None);
    }
    let mut k: usize = 0;
    let mut depth: i128 = 0;
    let mut quote: Option<char> = None;
    while k < t.len()
        invariant
            k <= t@.len(),
            -(k as int) <= depth <= k,
            top_level_equals(t@) == top_level_equals_from(t@, k as int, depth as int, quote),
        decreases t@.len() - k,
    {
        let c = t[k];
        match quote {
            Some(q) => {
                if c == q {
                    quote = None;
                }
            },
            None => {
                if c == '\'' || c == '"' {
                    quote = Some(c);
                } else if c == '(' || c == '[' {
                    depth = depth + 1;
                } else if c == ')' || c == ']' {
                    depth = depth - 1;
                } else if c == '=' && depth == 0 && !(k + 1 < t.len() && t[k + 1] == '=') {
                    return Some(k);
                }
            },
        }
        k = k + 1;
    }
    None
}


pub open spec fn pieces_view(v: Seq<(Vec<char>, Span)>) -> Seq<PieceV> {
    v.map_values(|p: (Vec<char>, Span)| (p.0@, p.1))
}

/// Pieces in order, inside `[lo, hi]`, each no longer in bytes than its range.
pub open spec fn pieces_bounded(ps: Seq<PieceV>, lo: int, hi: int) -> bool {
    &&& forall|i: int|
        0 <= i < ps.len() ==> lo <= (#[trigger] ps[i]).1.start && ps[i].1.start + utf8_len(ps[i].0)
            <= ps[i].1.end <= hi
    &&& forall|i: int, j: int| 0 <= i < j < ps.len() ==> (#[trigger] ps[i]).1.end <= (#[trigger] ps[j]).1.start
}

proof fn lemma_pieces_view_push(v: Seq<(Vec<char>, Span)>, p: (Vec<char>, Span))
    ensures
        pieces_view(v.push(p)) == pieces_view(v).push((p.0@, p.1)),
{
    assert(pieces_view(v.push(p)) =~= pieces_view(v).push((p.0@, p.1)));
}

pub fn split_argument_list(t: &[char], base: usize) -> (r: Vec<(Vec<char>, Span)>)
    requires
        base + utf8_len(t@) < usize::MAX,
    ensures
        pieces_view(r@) == split_arguments(t@, base as int),
        pieces_bounded(pieces_view(r@), base as int, base + utf8_len(t@)),
{
    let mut out: Vec<(Vec<char>, Span)> = Vec::new();
    let mut k: usize = 0;
    let mut pos: usize = base;
    let mut start: Option<usize> = None;
    let mut spos: usize = base;
    let mut depth: i128 = 0;
    let mut quote: Option<char> = None;
    proof {
        assert(t@.take(0) =~= Seq::<char>::empty());
        assert(pieces_view(out@) =~= Seq::<PieceV>::empty());
    }
    while k < t.len()
        invariant
            k <= t@.len(),
            base + utf8_len(t@) < usize::MAX,
            pos == base + byte_at(t@, k as int),
            -(k as int) <= depth <= k,
            split_arguments(t@, base as int) == split_from(
                t@,
                base as int,
                k as int,
                match start {
                    Some(s) => Some(s as int),
                    None => None::<int>,
                },
                depth as int,
                quote,
                pieces_view(out@),
            ),
            start matches Some(s) ==> s <= k && spos == base + byte_at(t@, s as int),
            pieces_bounded(pieces_view(out@), base as int, pos as int),
            start matches Some(s) ==> forall|i: int|
                0 <= i < out@.len() ==> (#[trigger] pieces_view(out@)[i]).1.end <= spos,
        decreases t@.len() - k,
    {
        proof {
            lemma_utf8_take_step(t@, k as int);
            lemma_utf8_take_mono(t@, k + 1, t@.len() as int);
            lemma_utf8_len_take_full(t@);
        }
        let c = t[k];
        let w = utf8_width(c);
        match quote {
            Some(q) => {
                if c == q {
                    quote = None;
                }
            },
            None => {
                if c == '\'' || c == '"' {
                    quote = Some(c);
                    if start.is_none() {
                        start = Some(k);
                        spos = pos;
                    }
                } else if c == '(' || c == '[' {
                    depth = depth + 1;
                    if start.is_none() {
                        start = Some(k);
                        spos = pos;
                    }
                } else if c == ')' || c == ']' {
                    depth = depth - 1;
                } else if is_whitespace(c) && depth == 0 {
                    match start {
                        Some(s) => {
                            let part = crate::compiler::scan::char_range(t, s, k);
                            let sp = Span::new(spos, pos);
                            proof {
                                crate::text::lemma_utf8_subrange(t@, s as int, k as int);
                                lemma_pieces_view_push(out@, (part, sp));
                            }
                            out.push((part, sp));
                            start = None;
                        },
                        None => {},
                    }
                } else {
                    if start.is_none() {
                        start = Some(k);
                        spos = pos;
                    }
                }
            },
        }
        k = k + 1;
        pos = pos + w;
    }
    match start {
        Some(s) => {
            let part = crate::compiler::scan::char_range(t, s, t.len());
            let sp = Span::new(spos, pos);
            proof {
                crate::text::lemma_utf8_subrange(t@, s as int, t@.len() as int);
                lemma_pieces_view_push(out@, (part, sp));
            }
            out.push((part, sp));
        },
        None => {},
    }
    proof {
        lemma_utf8_len_take_full(t@);
    }
    out
}


/// The characters of `a` followed by those of `b`.
pub fn join_chars(a: &[char], b: &[char]) -> (r: Vec<char>)
    ensures
        r@ == a@ + b@,
{
    let mut r = crate::compiler::scan::char_range(a, 0, a.len());
    let mut i: usize = 0;
    proof {
        assert(a@.subrange(0, a@.len() as int) =~= a@);
    }
    while i < b.len()
        invariant
            i <= b@.len(),
            r@ == a@ + b@.take(i as int),
        decreases b@.len() - i,
    {
        proof {
            assert(b@.take(i + 1) =~= b@.take(i as int).push(b@[i as int]));
        }
        r.push(b[i]);
        i = i + 1;
    }
    proof {
        assert(b@.take(b@.len() as int) =~= b@);
    }
    r
}

fn is_open_assignment(a: &[char]) -> (r: bool)
    ensures
        r == open_assignment(a@),
{
    let n = a.len();
    let r = n >= 1 && a[n - 1] == '=' && !(n >= 2 && a[n - 2] == '=');
    proof {
        let one = seq!['='];
        let two = seq!['=', '='];
        if n >= 1 {
            let t1 = a@.subrange(n - 1, n as int);
            assert(t1 =~= seq![a@[n - 1]]);
            assert(t1 == one <==> a@[n - 1] == '=') by {
                if t1 == one {
                    assert(t1[0] == one[0]);
                }
                if a@[n - 1] == '=' {
                    assert(t1 =~= one);
                }
            }
        }
        if n >= 2 {
            let t2 = a@.subrange(n - 2, n as int);
            assert(t2 =~= seq![a@[n - 2], a@[n - 1]]);
            assert(t2 == two <==> (a@[n - 2] == '=' && a@[n - 1] == '=')) by {
                if t2 == two {
                    assert(t2[0] == two[0] && t2[1] == two[1]);
                }
                if a@[n - 2] == '=' && a@[n - 1] == '=' {
                    assert(t2 =~= two);
                }
            }
        }
    }
    r
}

fn is_assignment_start(a: &[char]) -> (r: bool)
    ensures
        r == assignment_start(a@),
{
    let n = a.len();
    let r = n >= 1 && a[0] == '=' && !(n >= 2 && a[1] == '=');
    proof {
        let one = seq!['='];
        let two = seq!['=', '='];
        if n >= 1 {
            let t1 = a@.subrange(0, 1);
            assert(t1 =~= seq![a@[0]]);
            assert(t1 == one <==> a@[0] == '=') by {
                if t1 == one {
                    assert(t1[0] == one[0]);
                }
                if a@[0] == '=' {
                    assert(t1 =~= one);
                }
            }
        }
        if n >= 2 {
            let t2 = a@.subrange(0, 2);
            assert(t2 =~= seq![a@[0], a@[1]]);
            assert(t2 == two <==> (a@[0] == '=' && a@[1] == '=')) by {
                if t2 == two {
                    assert(t2[0] == two[0] && t2[1] == two[1]);
                }
                if a@[0] == '=' && a@[1] == '=' {
                    assert(t2 =~= two);
                }
            }
        }
    }
    r
}

proof fn lemma_bounded_push(ps: Seq<PieceV>, p: PieceV, lo: int, hi: int)
    requires
        pieces_bounded(ps, lo, hi),
        lo <= p.1.start,
        p.1.start + utf8_len(p.0) <= p.1.end <= hi,
        forall|i: int| 0 <= i < ps.len() ==> (#[trigger] ps[i]).1.end <= p.1.start,
    ensures
        pieces_bounded(ps.push(p), lo, hi),
{
    let qs = ps.push(p);
    assert forall|i: int, j: int| 0 <= i < j < qs.len() implies (#[trigger] qs[i]).1.end <= (
    #[trigger] qs[j]).1.start by {
        if j < ps.len() {
            assert(qs[i] == ps[i] && qs[j] == ps[j]);
        } else {
            assert(qs[i] == ps[i]);
        }
    }
}

pub fn merge_argument_list(args: &Vec<(Vec<char>, Span)>, Ghost(lo): Ghost<int>, Ghost(hi): Ghost<int>) -> (r: Vec<(Vec<char>, Span)>)
    requires
        pieces_bounded(pieces_view(args@), lo, hi),
    ensures
        pieces_view(r@) == merge_named_arguments(pieces_view(args@)),
        pieces_bounded(pieces_view(r@), lo, hi),
{
    let ghost ps = pieces_view(args@);
    let mut out: Vec<(Vec<char>, Span)> = Vec::new();
    let mut i: usize = 0;
    proof {
        assert(pieces_view(out@) =~= Seq::<PieceV>::empty());
    }
    while i < args.len()
        invariant
            i <= args@.len(),
            ps == pieces_view(args@),
            pieces_bounded(ps, lo, hi),
            merge_named_arguments(ps) == merge_from(ps, i as int, pieces_view(out@)),
            pieces_bounded(pieces_view(out@), lo, hi),
            i < args@.len() ==> forall|j: int|
                0 <= j < out@.len() ==> (#[trigger] pieces_view(out@)[j]).1.end <= ps[i as int].1.start,
        decreases args@.len() - i,
    {
        let a = &args[i].0;
        let sp = args[i].1;
        assert(ps[i as int] == (a@, sp));
        let ghost before = pieces_view(out@);
        if is_open_assignment(a.as_slice()) {
            if i + 1 < args.len() {
                let v = &args[i + 1].0;
                let vsp = args[i + 1].1;
                assert(ps[i + 1] == (v@, vsp));
                let joined = join_chars(a.as_slice(), v.as_slice());
                let p = (joined, Span::new(sp.start, vsp.end));
                proof {
                    crate::text::lemma_utf8_len_concat(a@, v@);
                    lemma_bounded_push(before, (p.0@, p.1), lo, hi);
                    lemma_pieces_view_push(out@, p);
                }
                out.push(p);
                i = i + 2;
            } else {
                let p = (crate::compiler::scan::char_range(a.as_slice(), 0, a.len()), sp);
                proof {
                    assert(a@.subrange(0, a@.len() as int) =~= a@);
                    lemma_bounded_push(before, (p.0@, p.1), lo, hi);
                    lemma_pieces_view_push(out@, p);
                }
                out.push(p);
                i = i + 1;
            }
        } else if i + 1 < args.len() && is_assignment_start(args[i + 1].0.as_slice()) {
            let e = &args[i + 1].0;
            let esp = args[i + 1].1;
            assert(ps[i + 1] == (e@, esp));
            let needs_value = e.len() == 1 && e[0] == '=';
            proof {
                if e@.len() == 1 && e@[0] == '=' {
                    assert(e@ =~= seq!['=']);
                }
            }
            let ae = join_chars(a.as_slice(), e.as_slice());
            proof {
                crate::text::lemma_utf8_len_concat(a@, e@);
            }
            if needs_value && i + 2 < args.len() {
                let v = &args[i + 2].0;
                let vsp = args[i + 2].1;
                assert(ps[i + 2] == (v@, vsp));
                let joined = join_chars(ae.as_slice(), v.as_slice());
                let p = (joined, Span::new(sp.start, vsp.end));
                proof {
                    crate::text::lemma_utf8_len_concat(ae@, v@);
                    lemma_bounded_push(before, (p.0@, p.1), lo, hi);
                    lemma_pieces_view_push(out@, p);
                }
                out.push(p);
                i = i + 3;
            } else {
                let p = (ae, Span::new(sp.start, esp.end));
                proof {
                    assert(!(e@ == seq!['='] && i + 2 < ps.len()));
                    lemma_bounded_push(before, (p.0@, p.1), lo, hi);
                    lemma_pieces_view_push(out@, p);
                }
                out.push(p);
                i = i + 2;
            }
        } else {
            let p = (crate::compiler::scan::char_range(a.as_slice(), 0, a.len()), sp);
            proof {
                assert(a@.subrange(0, a@.len() as int) =~= a@);
                lemma_bounded_push(before, (p.0@, p.1), lo, hi);
                lemma_pieces_view_push(out@, p);
            }
            out.push(p);
            i = i + 1;
        }
    }
    out
}


fn unescape_char_exec(t: &[char], x: char) -> (r: Vec<char>)
    ensures
        r@ == unescape_char(t@, x),
{
    let mut out: Vec<char> = Vec::new();
    let mut i: usize = 0;
    proof {
        assert(t@.skip(0) =~= t@);
    }
    while i < t.len()
        invariant
            i <= t@.len(),
            unescape_char(t@, x) == out@ + unescape_char(t@.skip(i as int), x),
        decreases t@.len() - i,
    {
        let ghost rest = t@.skip(i as int);
        if i + 1 < t.len() && t[i] == '\\' && t[i + 1] == x {
            proof {
                assert(rest.skip(2) =~= t@.skip(i + 2));
                assert(out@ + (seq![x] + unescape_char(rest.skip(2), x)) =~= out@.push(x)
                    + unescape_char(rest.skip(2), x));
            }
            out.push(x);
            i = i + 2;
        } else if i + 1 < t.len() {
            proof {
                assert(rest.skip(1) =~= t@.skip(i + 1));
                assert(out@ + (seq![rest[0]] + unescape_char(rest.skip(1), x)) =~= out@.push(t@[i as int])
                    + unescape_char(rest.skip(1), x));
            }
            out.push(t[i]);
            i = i + 1;
        } else {
            proof {
                assert(rest =~= seq![t@[i as int]]);
                assert(t@.skip(i + 1) =~= Seq::<char>::empty());
                assert(unescape_char(Seq::<char>::empty(), x) =~= Seq::<char>::empty());
                assert(out@ + rest =~= out@.push(t@[i as int]) + Seq::<char>::empty());
            }
            out.push(t[i]);
            i = i + 1;
        }
    }
    proof {
        assert(t@.skip(i as int) =~= Seq::<char>::empty());
        assert(out@ + Seq::<char>::empty() =~= out@);
    }
    out
}

/// Template text with its escaped braces resolved.
pub fn unescape_brace_text(t: &[char]) -> (r: Vec<char>)
    ensures
        r@ == unescape_braces(t@),
{
    let a = unescape_char_exec(t, '{');
    unescape_char_exec(a.as_slice(), '}')
}

} // verus!
