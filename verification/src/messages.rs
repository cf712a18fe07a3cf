//! Locale-aware message bundles: `{0}`-style placeholders, `{{`/`}}` escapes,
//! and exact-locale, base-language and default-locale fallback.

use vstd::prelude::*;

use crate::error::{ErrorCode, RenderError};
use crate::escape::{decimal, format_integer};
use crate::text::{chars_eq, chars_of, push_char, push_chars, push_str, str_eq, string_of};

verus! {

/// Value of a run of ASCII decimal digits.
pub open spec fn digits_value(s: Seq<char>) -> nat
    decreases s.len(),
{
    if s.len() == 0 {
        0
    } else {
        digits_value(s.drop_last()) * 10 + ((s.last() as u32) - ('0' as u32)) as nat
    }
}

pub open spec fn all_digits(s: Seq<char>) -> bool {
    forall|i: int| 0 <= i < s.len() ==> '0' <= #[trigger] s[i] <= '9'
}

/// What `str::parse::<usize>` accepts: an optional `+` and at least one ASCII
/// digit, with a value that fits `usize`.
pub open spec fn usize_value(s: Seq<char>) -> Option<nat> {
    let digits = if s.len() > 0 && s[0] == '+' {
        s.skip(1)
    } else {
        s
    };
    if digits.len() > 0 && all_digits(digits) && digits_value(digits) <= usize::MAX {
        Some(digits_value(digits))
    } else {
        None
    }
}

/// Parses a placeholder index as `str::parse::<usize>` does.
pub fn parse_usize(s: &[char]) -> (r: Option<usize>)
    ensures
        r matches Some(v) ==> usize_value(s@) == Some(v as nat),
        r is None ==> usize_value(s@) is None,
{
    let start: usize = if s.len() > 0 && s[0] == '+' {
        1
    } else {
        0
    };
    let ghost digits = if s@.len() > 0 && s@[0] == '+' {
        s@.skip(1)
    } else {
        s@
    };
    proof {
        assert(digits =~= s@.skip(start as int));
    }
    if start >= s.len() {
        return None;
    }
    let mut value: usize = 0;
    let mut i: usize = start;
    proof {
        assert(s@.subrange(start as int, start as int) =~= Seq::<char>::empty());
    }
    while i < s.len()
        invariant
            start <= i <= s@.len(),
            s@.len() == s.len(),
            digits =~= s@.skip(start as int),
            digits == (if s@.len() > 0 && s@[0] == '+' {
                s@.skip(1)
            } else {
                s@
            }),
            all_digits(s@.subrange(start as int, i as int)),
            value as nat == digits_value(s@.subrange(start as int, i as int)),
        decreases s@.len() - i,
    {
        let c = s[i];
        proof {
            assert(s@.subrange(start as int, i + 1).drop_last() =~= s@.subrange(
                start as int,
                i as int,
            ));
        }
        if !('0' <= c && c <= '9') {
            proof {
                assert(digits[i - start] == c);
                assert(!('0' <= digits[i - start] <= '9'));
                assert(!all_digits(digits));
                assert(usize_value(s@) is None);
            }
            return None;
        }
        let d = (c as u32 - '0' as u32) as usize;
        if value > (usize::MAX - d) / 10 {
            proof {
                assert(value * 10 + d > usize::MAX) by (nonlinear_arith)
                    requires
                        value > (usize::MAX - d) / 10,
                        d <= 9,
                ;
                assert(digits_value(s@.subrange(start as int, i + 1)) == value * 10 + d);
                if all_digits(digits) {
                    lemma_digits_value_prefix_grows(digits, (i - start) as int + 1);
                    assert(digits.take((i - start) as int + 1) =~= s@.subrange(
                        start as int,
                        i + 1,
                    ));
                }
                assert(usize_value(s@) is None);
            }
            return None;
        }
        value = value * 10 + d;
        i = i + 1;
        proof {
            assert forall|j: int| 0 <= j < s@.subrange(start as int, i as int).len() implies '0'
                <= #[trigger] s@.subrange(start as int, i as int)[j] <= '9' by {
                if j < i - 1 - start {
                    assert(s@.subrange(start as int, i as int)[j] == s@.subrange(
                        start as int,
                        i - 1,
                    )[j]);
                }
            }
        }
    }
    proof {
        assert(s@.subrange(start as int, s@.len() as int) =~= digits);
    }
    Some(value)
}

/// Extending a run of digits never lowers its value.
pub proof fn lemma_digits_value_prefix_grows(digits: Seq<char>, k: int)
    requires
        0 <= k <= digits.len(),
        all_digits(digits),
    ensures
        digits_value(digits.take(k)) <= digits_value(digits),
    decreases digits.len() - k,
{
    if k < digits.len() {
        lemma_digits_value_prefix_grows(digits, k + 1);
        assert(digits.take(k + 1).drop_last() =~= digits.take(k));
        assert('0' <= digits[k] <= '9');
    } else {
        assert(digits.take(k) =~= digits);
    }
}

/// Why a message template cannot be used.
#[derive(Debug, Clone, Copy, PartialEq, Eq, Structural)]
pub enum MessageError {
    /// A `}` that neither closes a placeholder nor is doubled.
    UnmatchedClose,
    /// A `{` without a closing `}`.
    Unclosed,
    /// A placeholder whose content is not a `usize`.
    BadPlaceholder,
    /// A placeholder that names an argument that was not supplied.
    MissingArgument(usize),
}

pub open spec fn is_brace(c: char) -> bool {
    c == '{' || c == '}'
}

/// Index of the first brace of `s`.
pub open spec fn first_brace(s: Seq<char>) -> Option<int>
    decreases s.len(),
{
    if s.len() == 0 {
        None
    } else if is_brace(s[0]) {
        Some(0)
    } else {
        match first_brace(s.drop_first()) {
            Some(i) => Some(i + 1),
            None => None,
        }
    }
}

/// Index of the first `c` in `s`.
pub open spec fn first_of(s: Seq<char>, c: char) -> Option<int>
    decreases s.len(),
{
    if s.len() == 0 {
        None
    } else if s[0] == c {
        Some(0)
    } else {
        match first_of(s.drop_first(), c) {
            Some(i) => Some(i + 1),
            None => None,
        }
    }
}

pub open spec fn is_escape_pair(r: Seq<char>) -> bool {
    r.len() >= 2 && ((r[0] == '{' && r[1] == '{') || (r[0] == '}' && r[1] == '}'))
}

/// The checks that a bundle applies to each message when it is built.
#[verifier::opaque]
pub open spec fn check_message(s: Seq<char>) -> Result<(), MessageError>
    decreases s.len(),
{
    match first_brace(s) {
        None => Ok(()),
        Some(i) => {
            let rest = s.skip(i);
            if 0 <= i < s.len() {
                if is_escape_pair(rest) {
                    check_message(rest.skip(2))
                } else if rest[0] == '}' {
                    Err(MessageError::UnmatchedClose)
                } else {
                    let r = rest.skip(1);
                    match first_of(r, '}') {
                        None => Err(MessageError::Unclosed),
                        Some(c) => if 0 <= c < r.len() {
                            if usize_value(r.take(c)) is None {
                                Err(MessageError::BadPlaceholder)
                            } else {
                                check_message(r.skip(c + 1))
                            }
                        } else {
                            Ok(())
                        },
                    }
                }
            } else {
                Ok(())
            }
        },
    }
}

pub open spec fn prepend(p: Seq<char>, r: Result<Seq<char>, MessageError>) -> Result<Seq<char>, MessageError> {
    match r {
        Ok(o) => Ok(p + o),
        Err(e) => Err(e),
    }
}

/// The text a message renders to with the given arguments' plain text.
#[verifier::opaque]
pub open spec fn render_spec(s: Seq<char>, args: Seq<Seq<char>>) -> Result<Seq<char>, MessageError>
    decreases s.len(),
{
    match first_brace(s) {
        None => Ok(s),
        Some(i) => {
            let rest = s.skip(i);
            if 0 <= i < s.len() {
                if is_escape_pair(rest) {
                    prepend(s.take(i).push(rest[0]), render_spec(rest.skip(2), args))
                } else {
                    let r = rest.skip(1);
                    match first_of(r, '}') {
                        None => Err(MessageError::Unclosed),
                        Some(c) => if 0 <= c < r.len() {
                            match usize_value(r.take(c)) {
                                None => Err(MessageError::BadPlaceholder),
                                Some(n) => if n < args.len() {
                                    prepend(s.take(i) + args[n as int], render_spec(r.skip(c + 1), args))
                                } else {
                                    Err(MessageError::MissingArgument(n as usize))
                                },
                            }
                        } else {
                            Ok(s)
                        },
                    }
                }
            } else {
                Ok(s)
            }
        },
    }
}

proof fn lemma_first_brace_bounds(s: Seq<char>)
    ensures
        first_brace(s) matches Some(i) ==> 0 <= i < s.len() && is_brace(s[i]),
        first_brace(s) is None ==> forall|j: int| 0 <= j < s.len() ==> !is_brace(#[trigger] s[j]),
    decreases s.len(),
{
    if s.len() > 0 {
        lemma_first_brace_bounds(s.drop_first());
        assert forall|j: int| 1 <= j < s.len() implies s[j] == s.drop_first()[j - 1] by {}
    }
}

proof fn lemma_first_of_bounds(s: Seq<char>, c: char)
    ensures
        first_of(s, c) matches Some(i) ==> 0 <= i < s.len() && s[i] == c,
        first_of(s, c) is None ==> forall|j: int| 0 <= j < s.len() ==> #[trigger] s[j] != c,
    decreases s.len(),
{
    if s.len() > 0 {
        lemma_first_of_bounds(s.drop_first(), c);
        assert forall|j: int| 1 <= j < s.len() implies s[j] == s.drop_first()[j - 1] by {}
    }
}

proof fn lemma_first_brace(s: Seq<char>, i: int)
    requires
        0 <= i < s.len(),
        is_brace(s[i]),
        forall|j: int| 0 <= j < i ==> !is_brace(#[trigger] s[j]),
    ensures
        first_brace(s) == Some(i),
    decreases i,
{
    if i > 0 {
        assert(!is_brace(s[0]));
        assert forall|j: int| 0 <= j < i - 1 implies !is_brace(#[trigger] s.drop_first()[j]) by {
            assert(s.drop_first()[j] == s[j + 1]);
        }
        lemma_first_brace(s.drop_first(), i - 1);
    }
}

proof fn lemma_first_of(s: Seq<char>, c: char, i: int)
    requires
        0 <= i < s.len(),
        s[i] == c,
        forall|j: int| 0 <= j < i ==> #[trigger] s[j] != c,
    ensures
        first_of(s, c) == Some(i),
    decreases i,
{
    if i > 0 {
        assert(s[0] != c);
        assert forall|j: int| 0 <= j < i - 1 implies #[trigger] s.drop_first()[j] != c by {
            assert(s.drop_first()[j] == s[j + 1]);
        }
        lemma_first_of(s.drop_first(), c, i - 1);
    }
}

/// Position of the first brace at or after `from`.
fn find_brace(s: &Vec<char>, from: usize) -> (r: Option<usize>)
    requires
        from <= s.len(),
    ensures
        r matches Some(i) ==> from <= i < s.len() && first_brace(s@.skip(from as int)) == Some(i - from),
        r is None ==> first_brace(s@.skip(from as int)) is None,
{
    let mut i = from;
    while i < s.len()
        invariant
            from <= i <= s.len(),
            forall|j: int| from <= j < i ==> !is_brace(#[trigger] s@[j]),
        decreases s.len() - i,
    {
        if s[i] == '{' || s[i] == '}' {
            proof {
                let t = s@.skip(from as int);
                assert forall|j: int| 0 <= j < i - from implies !is_brace(#[trigger] t[j]) by {
                    assert(t[j] == s@[from + j]);
                }
                lemma_first_brace(t, i - from);
            }
            return Some(i);
        }
        i = i + 1;
    }
    proof {
        let t = s@.skip(from as int);
        lemma_first_brace_bounds(t);
        if first_brace(t) is Some {
            let j = first_brace(t)->0;
            assert(t[j] == s@[from + j]);
        }
    }
    None
}

/// Position of the first `c` at or after `from`.
fn find_char(s: &Vec<char>, from: usize, c: char) -> (r: Option<usize>)
    requires
        from <= s.len(),
    ensures
        r matches Some(i) ==> from <= i < s.len() && first_of(s@.skip(from as int), c) == Some(i - from),
        r is None ==> first_of(s@.skip(from as int), c) is None,
{
    let mut i = from;
    while i < s.len()
        invariant
            from <= i <= s.len(),
            forall|j: int| from <= j < i ==> #[trigger] s@[j] != c,
        decreases s.len() - i,
    {
        if s[i] == c {
            proof {
                let t = s@.skip(from as int);
                assert forall|j: int| 0 <= j < i - from implies #[trigger] t[j] != c by {
                    assert(t[j] == s@[from + j]);
                }
                lemma_first_of(t, c, i - from);
            }
            return Some(i);
        }
        i = i + 1;
    }
    proof {
        let t = s@.skip(from as int);
        lemma_first_of_bounds(t, c);
        if first_of(t, c) is Some {
            let j = first_of(t, c)->0;
            assert(t[j] == s@[from + j]);
        }
    }
    None
}

proof fn lemma_check_none(t: Seq<char>)
    requires
        first_brace(t) is None,
    ensures
        check_message(t) == Ok::<(), MessageError>(()),
{
    reveal(check_message);
}

proof fn lemma_check_step(t: Seq<char>, k: int)
    requires
        first_brace(t) == Some(k),
        0 <= k < t.len(),
    ensures
        is_escape_pair(t.skip(k)) ==> check_message(t) == check_message(t.skip(k + 2)),
        !is_escape_pair(t.skip(k)) && t[k] == '}' ==> check_message(t) == Err::<(), MessageError>(
            MessageError::UnmatchedClose,
        ),
        !is_escape_pair(t.skip(k)) && t[k] != '}' ==> match first_of(t.skip(k + 1), '}') {
            None => check_message(t) == Err::<(), MessageError>(MessageError::Unclosed),
            Some(c) => 0 <= c < t.len() - k - 1 && (if usize_value(t.skip(k + 1).take(c)) is None {
                check_message(t) == Err::<(), MessageError>(MessageError::BadPlaceholder)
            } else {
                check_message(t) == check_message(t.skip(k + 1 + c + 1))
            }),
        },
{
    reveal(check_message);
    let rest = t.skip(k);
    assert(rest[0] == t[k]);
    if rest.len() >= 2 {
        assert(rest.skip(2) =~= t.skip(k + 2));
    }
    let r = rest.skip(1);
    assert(r =~= t.skip(k + 1));
    lemma_first_of_bounds(r, '}');
    match first_of(r, '}') {
        None => {},
        Some(c) => {
            assert(r.skip(c + 1) =~= t.skip(k + 1 + c + 1));
        },
    }
}

/// Checks a message template: `{{` and `}}` are literal braces, and every
/// other `{` opens a `usize` placeholder that a `}` closes.
pub fn validate_message(template: &str) -> (r: Result<(), &'static str>)
    ensures
        r is Ok <==> check_message(template@) is Ok,
        check_message(template@) == Err::<(), MessageError>(MessageError::UnmatchedClose) ==> r
            == Err::<(), &'static str>("unmatched closing brace; use `}}` for a literal brace"),
        check_message(template@) == Err::<(), MessageError>(MessageError::Unclosed) ==> r == Err::<
            (),
            &'static str,
        >("unclosed placeholder"),
        check_message(template@) == Err::<(), MessageError>(MessageError::BadPlaceholder) ==> r
            == Err::<(), &'static str>("placeholders must be zero-based integers such as `{0}`"),
{
    let s = chars_of(template);
    let mut pos: usize = 0;
    proof {
        assert(s@.skip(0) =~= s@);
    }
    loop
        invariant
            pos <= s.len(),
            s@ == template@,
            check_message(template@) == check_message(s@.skip(pos as int)),
        decreases s.len() - pos,
    {
        let ghost t = s@.skip(pos as int);
        match find_brace(&s, pos) {
            None => {
                proof {
                    lemma_check_none(t);
                }
                return Ok(());
            },
            Some(i) => {
                proof {
                    lemma_check_step(t, i - pos);
                    assert(t.skip(i - pos) =~= s@.skip(i as int));
                    assert(t[i - pos] == s@[i as int]);
                }
                if i + 1 < s.len() && ((s[i] == '{' && s[i + 1] == '{') || (s[i] == '}' && s[i
                    + 1] == '}')) {
                    proof {
                        assert(t.skip(i - pos + 2) =~= s@.skip(i + 2));
                    }
                    pos = i + 2;
                } else if s[i] == '}' {
                    return Err("unmatched closing brace; use `}}` for a literal brace");
                } else {
                    let open = i + 1;
                    proof {
                        assert(t.skip(i - pos + 1) =~= s@.skip(open as int));
                    }
                    match find_char(&s, open, '}') {
                        None => {
                            return Err("unclosed placeholder");
                        },
                        Some(close) => {
                            let inner = slice_of(&s, open, close);
                            proof {
                                assert(inner@ =~= s@.skip(open as int).take(close - open));
                                assert(t.skip(i - pos + 1 + (close - open) + 1) =~= s@.skip(
                                    close + 1,
                                ));
                            }
                            if parse_usize(inner.as_slice()).is_none() {
                                return Err(
                                    "placeholders must be zero-based integers such as `{0}`",
                                );
                            }
                            pos = close + 1;
                        },
                    }
                }
            },
        }
    }
}

/// The characters `s[from..to]`.
pub fn slice_of(s: &Vec<char>, from: usize, to: usize) -> (r: Vec<char>)
    requires
        from <= to <= s.len(),
    ensures
        r@ == s@.subrange(from as int, to as int),
{
    let mut r: Vec<char> = Vec::new();
    let mut i = from;
    while i < to
        invariant
            from <= i <= to <= s.len(),
            r@ == s@.subrange(from as int, i as int),
        decreases to - i,
    {
        r.push(s[i]);
        i = i + 1;
        proof {
            assert(r@ =~= s@.subrange(from as int, i as int));
        }
    }
    r
}

proof fn lemma_render_none(t: Seq<char>, args: Seq<Seq<char>>)
    requires
        first_brace(t) is None,
    ensures
        render_spec(t, args) == Ok::<Seq<char>, MessageError>(t),
{
    reveal(render_spec);
}

proof fn lemma_render_step(t: Seq<char>, k: int, args: Seq<Seq<char>>)
    requires
        first_brace(t) == Some(k),
        0 <= k < t.len(),
    ensures
        is_escape_pair(t.skip(k)) ==> render_spec(t, args) == prepend(
            t.take(k).push(t[k]),
            render_spec(t.skip(k + 2), args),
        ),
        !is_escape_pair(t.skip(k)) ==> match first_of(t.skip(k + 1), '}') {
            None => render_spec(t, args) == Err::<Seq<char>, MessageError>(MessageError::Unclosed),
            Some(c) => 0 <= c < t.len() - k - 1 && match usize_value(t.skip(k + 1).take(c)) {
                None => render_spec(t, args) == Err::<Seq<char>, MessageError>(
                    MessageError::BadPlaceholder,
                ),
                Some(n) => if n < args.len() {
                    render_spec(t, args) == prepend(
                        t.take(k) + args[n as int],
                        render_spec(t.skip(k + 1 + c + 1), args),
                    )
                } else {
                    render_spec(t, args) == Err::<Seq<char>, MessageError>(
                        MessageError::MissingArgument(n as usize),
                    )
                },
            },
        },
{
    reveal(render_spec);
    let rest = t.skip(k);
    assert(rest[0] == t[k]);
    if rest.len() >= 2 {
        assert(rest.skip(2) =~= t.skip(k + 2));
    }
    let r = rest.skip(1);
    assert(r =~= t.skip(k + 1));
    lemma_first_of_bounds(r, '}');
    match first_of(r, '}') {
        None => {},
        Some(c) => {
            assert(r.skip(c + 1) =~= t.skip(k + 1 + c + 1));
        },
    }
}

/// The plain text of each argument.
pub open spec fn texts(arguments: Seq<String>) -> Seq<Seq<char>> {
    arguments.map_values(|a: String| a@)
}

/// The error message that rendering reports for each failure.
pub open spec fn message_error_text(e: MessageError) -> Seq<char> {
    match e {
        MessageError::Unclosed => "unclosed message placeholder"@,
        MessageError::MissingArgument(n) => "message argument "@ + decimal(n as int)
            + " is missing"@,
        _ => "invalid message placeholder"@,
    }
}

proof fn lemma_prepend_assoc(a: Seq<char>, b: Seq<char>, r: Result<Seq<char>, MessageError>)
    ensures
        prepend(a, prepend(b, r)) == prepend(a + b, r),
{
    match r {
        Ok(o) => {
            assert(a + (b + o) =~= (a + b) + o);
        },
        Err(_) => {},
    }
}

/// Renders a message: `{{` and `}}` write literal braces and `{n}` writes the
/// plain text of argument `n`.
pub fn render_message(template: &str, arguments: &[String]) -> (r: Result<String, RenderError>)
    ensures
        match render_spec(template@, texts(arguments@)) {
            Ok(o) => r matches Ok(out) && out@ == o,
            Err(e) => r matches Err(err) && err.code == ErrorCode::Extension && err.message@
                == message_error_text(e),
        },
{
    let ghost args = texts(arguments@);
    let s = chars_of(template);
    let mut out = String::new();
    let mut pos: usize = 0;
    proof {
        assert(s@.skip(0) =~= s@);
        assert(out@ + s@ =~= s@);
        match render_spec(template@, args) {
            Ok(o) => {
                assert(Seq::<char>::empty() + o =~= o);
            },
            Err(_) => {},
        }
    }
    loop
        invariant
            pos <= s.len(),
            s@ == template@,
            args == texts(arguments@),
            render_spec(template@, args) == prepend(out@, render_spec(s@.skip(pos as int), args)),
        decreases s.len() - pos,
    {
        let ghost t = s@.skip(pos as int);
        match find_brace(&s, pos) {
            None => {
                proof {
                    lemma_render_none(t, args);
                }
                let rest = slice_of(&s, pos, s.len());
                proof {
                    assert(rest@ =~= t);
                }
                push_chars(&mut out, rest.as_slice());
                return Ok(out);
            },
            Some(i) => {
                proof {
                    lemma_render_step(t, i - pos, args);
                    assert(t.skip(i - pos) =~= s@.skip(i as int));
                    assert(t[i - pos] == s@[i as int]);
                }
                let prefix = slice_of(&s, pos, i);
                proof {
                    assert(prefix@ =~= t.take(i - pos));
                }
                if i + 1 < s.len() && ((s[i] == '{' && s[i + 1] == '{') || (s[i] == '}' && s[i
                    + 1] == '}')) {
                    let ghost before = out@;
                    push_chars(&mut out, prefix.as_slice());
                    push_char(&mut out, s[i]);
                    proof {
                        assert(t.skip(i - pos + 2) =~= s@.skip(i + 2));
                        assert(out@ =~= before + t.take(i - pos).push(t[i - pos]));
                        lemma_prepend_assoc(
                            before,
                            t.take(i - pos).push(t[i - pos]),
                            render_spec(s@.skip(i + 2), args),
                        );
                    }
                    pos = i + 2;
                } else {
                    let open = i + 1;
                    proof {
                        assert(t.skip(i - pos + 1) =~= s@.skip(open as int));
                    }
                    match find_char(&s, open, '}') {
                        None => {
                            proof {
                                reveal_strlit("unclosed message placeholder");
                            }
                            return Err(
                                RenderError::new(
                                    ErrorCode::Extension,
                                    "unclosed message placeholder".to_owned(),
                                ),
                            );
                        },
                        Some(close) => {
                            let inner = slice_of(&s, open, close);
                            proof {
                                assert(inner@ =~= s@.skip(open as int).take(close - open));
                                assert(t.skip(i - pos + 1 + (close - open) + 1) =~= s@.skip(
                                    close + 1,
                                ));
                            }
                            match parse_usize(inner.as_slice()) {
                                None => {
                                    return Err(
                                        RenderError::new(
                                            ErrorCode::Extension,
                                            "invalid message placeholder".to_owned(),
                                        ),
                                    );
                                },
                                Some(index) => {
                                    if index >= arguments.len() {
                                        let mut message = "message argument ".to_owned();
                                        let digits = format_integer(index as i128);
                                        push_str(&mut message, digits.as_str());
                                        push_str(&mut message, " is missing");
                                        return Err(RenderError::new(ErrorCode::Extension, message));
                                    }
                                    let ghost before = out@;
                                    push_chars(&mut out, prefix.as_slice());
                                    push_str(&mut out, arguments[index].as_str());
                                    proof {
                                        assert(args[index as int] == arguments@[index as int]@);
                                        assert(out@ =~= before + (t.take(i - pos)
                                            + args[index as int]));
                                        lemma_prepend_assoc(
                                            before,
                                            t.take(i - pos) + args[index as int],
                                            render_spec(s@.skip(close + 1), args),
                                        );
                                    }
                                    pos = close + 1;
                                },
                            }
                        },
                    }
                }
            },
        }
    }
}

proof fn lemma_check_never_missing(t: Seq<char>)
    ensures
        !(check_message(t) matches Err(MessageError::MissingArgument(_))),
    decreases t.len(),
{
    lemma_first_brace_bounds(t);
    match first_brace(t) {
        None => {
            lemma_check_none(t);
        },
        Some(k) => {
            lemma_check_step(t, k);
            if is_escape_pair(t.skip(k)) {
                lemma_check_never_missing(t.skip(k + 2));
            } else if t[k] != '}' {
                match first_of(t.skip(k + 1), '}') {
                    None => {},
                    Some(c) => {
                        if usize_value(t.skip(k + 1).take(c)) is Some {
                            lemma_check_never_missing(t.skip(k + 1 + c + 1));
                        }
                    },
                }
            }
        },
    }
}

/// A message that passed the build-time checks renders unless it names an
/// argument that the call does not supply.
pub proof fn law_checked_message_fails_only_on_missing_argument(t: Seq<char>, args: Seq<Seq<char>>)
    requires
        check_message(t) is Ok,
    ensures
        render_spec(t, args) is Ok || render_spec(t, args) matches Err(
            MessageError::MissingArgument(_),
        ),
    decreases t.len(),
{
    lemma_first_brace_bounds(t);
    match first_brace(t) {
        None => {
            lemma_render_none(t, args);
        },
        Some(k) => {
            lemma_check_step(t, k);
            lemma_render_step(t, k, args);
            if is_escape_pair(t.skip(k)) {
                law_checked_message_fails_only_on_missing_argument(t.skip(k + 2), args);
            } else {
                match first_of(t.skip(k + 1), '}') {
                    None => {},
                    Some(c) => {
                        if usize_value(t.skip(k + 1).take(c)) is Some {
                            law_checked_message_fails_only_on_missing_argument(
                                t.skip(k + 1 + c + 1),
                                args,
                            );
                        }
                    },
                }
            }
        },
    }
}

/// Lexicographic order of character sequences (the order of `String`'s `Ord`).
pub open spec fn seq_lt(a: Seq<char>, b: Seq<char>) -> bool
    decreases a.len(),
{
    if a.len() == 0 {
        b.len() > 0
    } else if b.len() == 0 {
        false
    } else if a[0] != b[0] {
        a[0] < b[0]
    } else {
        seq_lt(a.drop_first(), b.drop_first())
    }
}

pub proof fn lemma_seq_lt_irreflexive(a: Seq<char>)
    ensures
        !seq_lt(a, a),
    decreases a.len(),
{
    if a.len() > 0 {
        lemma_seq_lt_irreflexive(a.drop_first());
    }
}

pub proof fn lemma_seq_lt_total(a: Seq<char>, b: Seq<char>)
    ensures
        a == b || seq_lt(a, b) || seq_lt(b, a),
    decreases a.len(),
{
    if a.len() > 0 && b.len() > 0 {
        if a[0] == b[0] {
            lemma_seq_lt_total(a.drop_first(), b.drop_first());
            if a.drop_first() == b.drop_first() {
                assert(a =~= seq![a[0]] + a.drop_first());
                assert(b =~= seq![b[0]] + b.drop_first());
            }
        }
    } else if a.len() == 0 && b.len() == 0 {
        assert(a =~= b);
    }
}

pub proof fn lemma_seq_lt_asymmetric(a: Seq<char>, b: Seq<char>)
    ensures
        seq_lt(a, b) ==> !seq_lt(b, a),
    decreases a.len(),
{
    if a.len() > 0 && b.len() > 0 && a[0] == b[0] {
        lemma_seq_lt_asymmetric(a.drop_first(), b.drop_first());
    }
}

pub proof fn lemma_seq_lt_transitive(a: Seq<char>, b: Seq<char>, c: Seq<char>)
    requires
        seq_lt(a, b),
        seq_lt(b, c),
    ensures
        seq_lt(a, c),
    decreases a.len(),
{
    if a.len() > 0 && b.len() > 0 && c.len() > 0 && a[0] == b[0] && b[0] == c[0] {
        lemma_seq_lt_transitive(a.drop_first(), b.drop_first(), c.drop_first());
    }
}

/// Compares two character slices in lexicographic order.
pub fn chars_lt(a: &[char], b: &[char]) -> (r: bool)
    ensures
        r == seq_lt(a@, b@),
{
    let mut i: usize = 0;
    proof {
        assert(a@.skip(0) =~= a@);
        assert(b@.skip(0) =~= b@);
    }
    while i < a.len() && i < b.len()
        invariant
            i <= a@.len(),
            i <= b@.len(),
            forall|j: int| 0 <= j < i ==> a@[j] == b@[j],
            seq_lt(a@, b@) == seq_lt(a@.skip(i as int), b@.skip(i as int)),
        decreases a@.len() - i,
    {
        if a[i] != b[i] {
            proof {
                assert(a@.skip(i as int)[0] == a@[i as int]);
                assert(b@.skip(i as int)[0] == b@[i as int]);
            }
            return a[i] < b[i];
        }
        proof {
            assert(a@.skip(i as int).drop_first() =~= a@.skip(i + 1));
            assert(b@.skip(i as int).drop_first() =~= b@.skip(i + 1));
        }
        i = i + 1;
    }
    i < b.len()
}

/// One registered message.
#[derive(Debug, Clone)]
pub struct MessageEntry {
    pub locale: String,
    pub key: String,
    pub template: String,
}

/// `(locale, key)` of entry `a` orders before that of entry `b`.
pub open spec fn entry_lt(a: MessageEntry, b: MessageEntry) -> bool {
    seq_lt(a.locale@, b.locale@) || (a.locale@ == b.locale@ && seq_lt(a.key@, b.key@))
}

/// Entries are strictly ordered by `(locale, key)`.
pub open spec fn entries_sorted(es: Seq<MessageEntry>) -> bool {
    forall|i: int| 0 <= i < es.len() - 1 ==> #[trigger] entry_lt(es[i], es[i + 1])
}

/// The template registered for `(locale, key)`: that of the first entry with them.
pub open spec fn lookup(es: Seq<MessageEntry>, locale: Seq<char>, key: Seq<char>) -> Option<Seq<char>>
    decreases es.len(),
{
    if es.len() == 0 {
        None
    } else if es[0].locale@ == locale && es[0].key@ == key {
        Some(es[0].template@)
    } else {
        lookup(es.drop_first(), locale, key)
    }
}

/// Every message registered in `es`, whatever its locale and key, passes the
/// build-time checks.
pub open spec fn all_messages_valid(es: Seq<MessageEntry>) -> bool {
    forall|l: Seq<char>, k: Seq<char>|
        #[trigger] lookup(es, l, k) is Some ==> check_message(lookup(es, l, k)->0) is Ok
}

proof fn lemma_entry_lt_transitive(a: MessageEntry, b: MessageEntry, c: MessageEntry)
    requires
        entry_lt(a, b),
        entry_lt(b, c),
    ensures
        entry_lt(a, c),
{
    if seq_lt(a.locale@, b.locale@) && seq_lt(b.locale@, c.locale@) {
        lemma_seq_lt_transitive(a.locale@, b.locale@, c.locale@);
    }
    lemma_seq_lt_irreflexive(a.locale@);
    lemma_seq_lt_irreflexive(b.locale@);
    if a.locale@ == b.locale@ && b.locale@ == c.locale@ {
        lemma_seq_lt_transitive(a.key@, b.key@, c.key@);
    }
}

proof fn lemma_sorted_lt(es: Seq<MessageEntry>, a: int, b: int)
    requires
        entries_sorted(es),
        0 <= a < b < es.len(),
    ensures
        entry_lt(es[a], es[b]),
    decreases b - a,
{
    assert(entry_lt(es[a], es[a + 1]));
    if b - a > 1 {
        lemma_sorted_lt(es, a, b - 1);
        let i = b - 1;
        assert(entry_lt(es[i], es[i + 1]));
        lemma_entry_lt_transitive(es[a], es[b - 1], es[b]);
    }
}

/// In sorted entries, every entry is the one `lookup` finds for its locale and key.
proof fn lemma_sorted_lookup_finds(es: Seq<MessageEntry>, i: int)
    requires
        entries_sorted(es),
        0 <= i < es.len(),
    ensures
        lookup(es, es[i].locale@, es[i].key@) == Some(es[i].template@),
    decreases i,
{
    if i > 0 {
        lemma_sorted_lt(es, 0, i);
        lemma_seq_lt_irreflexive(es[i].locale@);
        lemma_seq_lt_irreflexive(es[i].key@);
        let rest = es.drop_first();
        assert forall|j: int| 0 <= j < rest.len() - 1 implies #[trigger] entry_lt(rest[j], rest[j + 1]) by {
            let m = j + 1;
            assert(entry_lt(es[m], es[m + 1]));
            assert(rest[j] == es[m] && rest[j + 1] == es[m + 1]);
        }
        assert(rest[i - 1] == es[i]);
        lemma_sorted_lookup_finds(rest, i - 1);
    }
}

/// What `lookup` finds is the template of some entry.
proof fn lemma_lookup_some(es: Seq<MessageEntry>, l: Seq<char>, k: Seq<char>)
    ensures
        lookup(es, l, k) matches Some(t) ==> exists|i: int| 0 <= i < es.len() && #[trigger] es[i].template@ == t,
    decreases es.len(),
{
    if es.len() > 0 && !(es[0].locale@ == l && es[0].key@ == k) {
        lemma_lookup_some(es.drop_first(), l, k);
        if lookup(es, l, k) is Some {
            let t = lookup(es, l, k)->0;
            let j = choose|j: int| 0 <= j < es.drop_first().len() && #[trigger] es.drop_first()[j].template@ == t;
            assert(es[j + 1].template@ == t);
        }
    } else if es.len() > 0 {
        assert(es[0].template@ == lookup(es, l, k)->0);
    }
}

/// Sorted entries all pass the checks exactly when every registered message does.
pub proof fn lemma_messages_valid(es: Seq<MessageEntry>)
    requires
        entries_sorted(es),
    ensures
        all_messages_valid(es) <==> forall|i: int| 0 <= i < es.len() ==> #[trigger] check_message(es[i].template@) is Ok,
{
    if all_messages_valid(es) {
        assert forall|i: int| 0 <= i < es.len() implies #[trigger] check_message(es[i].template@) is Ok by {
            lemma_sorted_lookup_finds(es, i);
            assert(lookup(es, es[i].locale@, es[i].key@) is Some);
        }
    }
    if forall|i: int| 0 <= i < es.len() ==> #[trigger] check_message(es[i].template@) is Ok {
        assert forall|l: Seq<char>, k: Seq<char>| #[trigger] lookup(es, l, k) is Some implies check_message(
            lookup(es, l, k)->0,
        ) is Ok by {
            lemma_lookup_some(es, l, k);
            let t = lookup(es, l, k)->0;
            let i = choose|i: int| 0 <= i < es.len() && #[trigger] es[i].template@ == t;
            assert(check_message(es[i].template@) is Ok);
        }
    }
}

/// Builds a [`MessageBundle`]: the namespace it answers, its default locale
/// (`en` unless set) and its messages.
pub struct MessageBundleBuilder {
    namespace: String,
    default_locale: String,
    entries: Vec<MessageEntry>,
}

/// A locale-aware, explicitly registered message namespace.
pub struct MessageBundle {
    namespace: String,
    default_locale: String,
    entries: Vec<MessageEntry>,
}

impl MessageBundleBuilder {
    pub closed spec fn namespace_view(&self) -> Seq<char> {
        self.namespace@
    }

    pub closed spec fn default_locale_view(&self) -> Seq<char> {
        self.default_locale@
    }

    pub closed spec fn entries_view(&self) -> Seq<MessageEntry> {
        self.entries@
    }

    pub closed spec fn wf(&self) -> bool {
        entries_sorted(self.entries@)
    }

    /// Replaces the default locale.
    pub fn default_locale(self, locale: &str) -> (b: MessageBundleBuilder)
        requires
            self.wf(),
        ensures
            b.wf(),
            b.namespace_view() == self.namespace_view(),
            b.default_locale_view() == locale@,
            b.entries_view() == self.entries_view(),
    {
        let mut b = self;
        b.default_locale = locale.to_owned();
        b
    }

    /// Registers `template` for `key` in `locale`, replacing an earlier one.
    pub fn message(self, locale: &str, key: &str, template: &str) -> (b: MessageBundleBuilder)
        requires
            self.wf(),
        ensures
            b.wf(),
            b.namespace_view() == self.namespace_view(),
            b.default_locale_view() == self.default_locale_view(),
            forall|l: Seq<char>, k: Seq<char>|
                #[trigger] lookup(b.entries_view(), l, k) == if l == locale@ && k == key@ {
                    Some(template@)
                } else {
                    lookup(self.entries_view(), l, k)
                },
    {
        let mut b = self;
        let entry = MessageEntry {
            locale: locale.to_owned(),
            key: key.to_owned(),
            template: template.to_owned(),
        };
        let i = insertion_point(&b.entries, &entry);
        let ghost old_es = b.entries@;
        proof {
            lemma_lookup_skips_smaller(old_es, entry, i as int);
        }
        if i < b.entries.len() && str_pair_eq(&b.entries[i], &entry) {
            b.entries.set(i, entry);
            proof {
                lemma_lookup_replace(old_es, entry, i as int);
                lemma_sorted_replace(old_es, entry, i as int);
            }
        } else {
            b.entries.insert(i, entry);
            proof {
                if i < old_es.len() {
                    lemma_entry_total(old_es[i as int], entry);
                }
                lemma_lookup_insert(old_es, entry, i as int);
                lemma_sorted_insert(old_es, entry, i as int);
            }
        }
        b
    }

    /// Checks every message and the names, and yields the bundle.
    pub fn build(self) -> (r: Result<MessageBundle, RenderError>)
        requires
            self.wf(),
        ensures
            r is Ok <==> (self.namespace_view().len() > 0 && self.default_locale_view().len() > 0
                && all_messages_valid(self.entries_view())),
            r matches Ok(bundle) ==> bundle.namespace_view() == self.namespace_view()
                && bundle.default_locale_view() == self.default_locale_view()
                && bundle.entries_view() == self.entries_view(),
            r matches Err(e) ==> e.code == ErrorCode::Extension,
            (self.namespace_view().len() == 0 || self.default_locale_view().len() == 0) ==> (r
                matches Err(e) && e.message@
                == "message namespace and default locale must not be empty"@),
            (self.namespace_view().len() > 0 && self.default_locale_view().len() > 0) ==> (r matches Err(e)
                ==> exists|i: int|
                0 <= i < self.entries_view().len() && check_message(
                    self.entries_view()[i].template@,
                ) is Err && (forall|j: int|
                    0 <= j < i ==> #[trigger] check_message(self.entries_view()[j].template@) is Ok)
                    && e.message@ == invalid_message_text(#[trigger] self.entries_view()[i])),
    {
        if self.namespace.as_str().is_empty() || self.default_locale.as_str().is_empty() {
            return Err(
                RenderError::new(
                    ErrorCode::Extension,
                    "message namespace and default locale must not be empty".to_owned(),
                ),
            );
        }
        let mut i: usize = 0;
        while i < self.entries.len()
            invariant
                i <= self.entries@.len(),
                self.namespace@.len() > 0,
                self.default_locale@.len() > 0,
                entries_sorted(self.entries@),
                forall|j: int| 0 <= j < i ==> #[trigger] check_message(self.entries@[j].template@) is Ok,
            decreases self.entries@.len() - i,
        {
            match validate_message(self.entries[i].template.as_str()) {
                Ok(()) => {},
                Err(reason) => {
                    let e = &self.entries[i];
                    let mut message = "invalid message `".to_owned();
                    push_str(&mut message, e.key.as_str());
                    push_str(&mut message, "` for locale `");
                    push_str(&mut message, e.locale.as_str());
                    push_str(&mut message, "`: ");
                    push_str(&mut message, reason);
                    proof {
                        lemma_check_never_missing(self.entries@[i as int].template@);
                        assert(message@ =~= invalid_message_text(self.entries@[i as int]));
                    }
                    proof {
                        let es = self.entries@;
                        let ii = i as int;
                        assert(!all_messages_valid(es)) by {
                            lemma_sorted_lookup_finds(es, ii);
                            assert(lookup(es, es[ii].locale@, es[ii].key@) is Some);
                        }
                    }
                    return Err(RenderError::new(ErrorCode::Extension, message));
                },
            }
            i = i + 1;
        }
        proof {
            lemma_messages_valid(self.entries@);
        }
        Ok(MessageBundle {
            namespace: self.namespace,
            default_locale: self.default_locale,
            entries: self.entries,
        })
    }
}

/// Why a message fails the build-time checks, as the error states it.
pub open spec fn reason_text(e: MessageError) -> Seq<char> {
    match e {
        MessageError::UnmatchedClose => "unmatched closing brace; use `}}` for a literal brace"@,
        MessageError::Unclosed => "unclosed placeholder"@,
        _ => "placeholders must be zero-based integers such as `{0}`"@,
    }
}

/// The error message that names an invalid entry.
pub open spec fn invalid_message_text(e: MessageEntry) -> Seq<char> {
    "invalid message `"@ + e.key@ + "` for locale `"@ + e.locale@ + "`: "@ + reason_text(
        check_message(e.template@)->Err_0,
    )
}

proof fn lemma_entry_total(a: MessageEntry, b: MessageEntry)
    ensures
        entry_lt(a, b) || entry_lt(b, a) || (a.locale@ == b.locale@ && a.key@ == b.key@),
{
    lemma_seq_lt_total(a.locale@, b.locale@);
    lemma_seq_lt_total(a.key@, b.key@);
}

fn entry_before(a: &MessageEntry, b: &MessageEntry) -> (r: bool)
    ensures
        r == entry_lt(*a, *b),
{
    let al = chars_of(a.locale.as_str());
    let bl = chars_of(b.locale.as_str());
    let ak = chars_of(a.key.as_str());
    let bk = chars_of(b.key.as_str());
    chars_lt(al.as_slice(), bl.as_slice()) || (chars_eq(al.as_slice(), bl.as_slice()) && chars_lt(
        ak.as_slice(),
        bk.as_slice(),
    ))
}

/// The first position whose entry does not order before `e`.
fn insertion_point(es: &Vec<MessageEntry>, e: &MessageEntry) -> (i: usize)
    ensures
        i <= es@.len(),
        forall|j: int| 0 <= j < i ==> #[trigger] entry_lt(es@[j], *e),
        i < es@.len() ==> !entry_lt(es@[i as int], *e),
{
    let mut i: usize = 0;
    while i < es.len()
        invariant
            i <= es@.len(),
            forall|j: int| 0 <= j < i ==> #[trigger] entry_lt(es@[j], *e),
        decreases es@.len() - i,
    {
        if !entry_before(&es[i], e) {
            return i;
        }
        i = i + 1;
    }
    i
}

fn str_pair_eq(a: &MessageEntry, b: &MessageEntry) -> (r: bool)
    ensures
        r == (a.locale@ == b.locale@ && a.key@ == b.key@),
{
    str_eq(a.locale.as_str(), b.locale.as_str()) && str_eq(a.key.as_str(), b.key.as_str())
}

proof fn lemma_lookup_skips_smaller(es: Seq<MessageEntry>, e: MessageEntry, i: int)
    requires
        0 <= i <= es.len(),
        forall|j: int| 0 <= j < i ==> #[trigger] entry_lt(es[j], e),
    ensures
        forall|j: int| 0 <= j < i ==> !(#[trigger] es[j].locale@ == e.locale@ && es[j].key@ == e.key@),
{
    assert forall|j: int| 0 <= j < i implies !(#[trigger] es[j].locale@ == e.locale@ && es[j].key@
        == e.key@) by {
        assert(entry_lt(es[j], e));
        lemma_seq_lt_irreflexive(e.locale@);
        lemma_seq_lt_irreflexive(e.key@);
    }
}

proof fn lemma_lookup_replace(es: Seq<MessageEntry>, e: MessageEntry, i: int)
    requires
        0 <= i < es.len(),
        es[i].locale@ == e.locale@ && es[i].key@ == e.key@,
        forall|j: int| 0 <= j < i ==> !(#[trigger] es[j].locale@ == e.locale@ && es[j].key@ == e.key@),
    ensures
        forall|l: Seq<char>, k: Seq<char>|
            #[trigger] lookup(es.update(i, e), l, k) == if l == e.locale@ && k == e.key@ {
                Some(e.template@)
            } else {
                lookup(es, l, k)
            },
    decreases i,
{
    assert forall|l: Seq<char>, k: Seq<char>|
        #[trigger] lookup(es.update(i, e), l, k) == if l == e.locale@ && k == e.key@ {
            Some(e.template@)
        } else {
            lookup(es, l, k)
        } by {
        if i > 0 {
            lemma_lookup_replace(es.drop_first(), e, i - 1);
            assert(es.update(i, e).drop_first() =~= es.drop_first().update(i - 1, e));
            assert(lookup(es.drop_first().update(i - 1, e), l, k) == if l == e.locale@ && k
                == e.key@ {
                Some(e.template@)
            } else {
                lookup(es.drop_first(), l, k)
            });
        } else {
            assert(es.update(i, e).drop_first() =~= es.drop_first());
        }
    }
}

proof fn lemma_lookup_insert(es: Seq<MessageEntry>, e: MessageEntry, i: int)
    requires
        0 <= i <= es.len(),
        i < es.len() ==> !(es[i].locale@ == e.locale@ && es[i].key@ == e.key@),
        forall|j: int| 0 <= j < i ==> !(#[trigger] es[j].locale@ == e.locale@ && es[j].key@ == e.key@),
        entries_sorted(es),
        i < es.len() ==> entry_lt(e, es[i]),
    ensures
        forall|l: Seq<char>, k: Seq<char>|
            #[trigger] lookup(es.insert(i, e), l, k) == if l == e.locale@ && k == e.key@ {
                Some(e.template@)
            } else {
                lookup(es, l, k)
            },
    decreases i,
{
    assert forall|l: Seq<char>, k: Seq<char>|
        #[trigger] lookup(es.insert(i, e), l, k) == if l == e.locale@ && k == e.key@ {
            Some(e.template@)
        } else {
            lookup(es, l, k)
        } by {
        if i > 0 {
            assert forall|j: int| 0 <= j < es.drop_first().len() - 1 implies #[trigger] entry_lt(
                es.drop_first()[j],
                es.drop_first()[j + 1],
            ) by {
                let k = j + 1;
                assert(entry_lt(es[k], es[k + 1]));
            }
            lemma_lookup_insert(es.drop_first(), e, i - 1);
            assert(es.insert(i, e).drop_first() =~= es.drop_first().insert(i - 1, e));
            assert(lookup(es.drop_first().insert(i - 1, e), l, k) == if l == e.locale@ && k
                == e.key@ {
                Some(e.template@)
            } else {
                lookup(es.drop_first(), l, k)
            });
        } else {
            assert(es.insert(i, e).drop_first() =~= es);
            if l == e.locale@ && k == e.key@ {
            } else {
            }
        }
    }
}

proof fn lemma_sorted_replace(es: Seq<MessageEntry>, e: MessageEntry, i: int)
    requires
        0 <= i < es.len(),
        es[i].locale@ == e.locale@ && es[i].key@ == e.key@,
        entries_sorted(es),
    ensures
        entries_sorted(es.update(i, e)),
{
    let n = es.update(i, e);
    assert forall|j: int| 0 <= j < n.len() - 1 implies #[trigger] entry_lt(n[j], n[j + 1]) by {
        assert(entry_lt(es[j], es[j + 1]));
    }
}

proof fn lemma_sorted_insert(es: Seq<MessageEntry>, e: MessageEntry, i: int)
    requires
        0 <= i <= es.len(),
        entries_sorted(es),
        i > 0 ==> entry_lt(es[i - 1], e),
        i < es.len() ==> entry_lt(e, es[i]),
    ensures
        entries_sorted(es.insert(i, e)),
{
    let n = es.insert(i, e);
    assert forall|j: int| 0 <= j < n.len() - 1 implies #[trigger] entry_lt(n[j], n[j + 1]) by {
        if j < i - 1 {
            assert(entry_lt(es[j], es[j + 1]));
        } else if j == i - 1 {
        } else if j == i {
        } else {
            let k = j - 1;
            assert(entry_lt(es[k], es[k + 1]));
        }
    }
}

impl MessageBundle {
    /// A builder for a bundle that answers `namespace`, with default locale `en`.
    pub fn builder(namespace: &str) -> (b: MessageBundleBuilder)
        ensures
            b.wf(),
            b.namespace_view() == namespace@,
            b.default_locale_view() == "en"@,
            b.entries_view().len() == 0,
    {
        MessageBundleBuilder {
            namespace: namespace.to_owned(),
            default_locale: "en".to_owned(),
            entries: Vec::new(),
        }
    }

    pub closed spec fn namespace_view(&self) -> Seq<char> {
        self.namespace@
    }

    pub closed spec fn default_locale_view(&self) -> Seq<char> {
        self.default_locale@
    }

    pub closed spec fn entries_view(&self) -> Seq<MessageEntry> {
        self.entries@
    }

    /// The namespace this bundle answers.
    pub fn namespace(&self) -> (r: &str)
        ensures
            r@ == self.namespace_view(),
    {
        self.namespace.as_str()
    }
}

/// The part of a locale before its first `-` or `_` (all of it when there is none).
pub open spec fn language_of(locale: Seq<char>) -> Seq<char>
    decreases locale.len(),
{
    if locale.len() == 0 {
        locale
    } else if locale[0] == '-' || locale[0] == '_' {
        Seq::<char>::empty()
    } else {
        seq![locale[0]] + language_of(locale.drop_first())
    }
}

/// The message a bundle answers for `name`: the exact locale first, then its
/// language, then the default locale.
pub open spec fn resolve_spec(
    es: Seq<MessageEntry>,
    default_locale: Seq<char>,
    language: Option<Seq<char>>,
    name: Seq<char>,
) -> Option<Seq<char>> {
    let locale = match language {
        Some(l) => l,
        None => default_locale,
    };
    match lookup(es, locale, name) {
        Some(t) => Some(t),
        None => match lookup(es, language_of(locale), name) {
            Some(t) => Some(t),
            None => lookup(es, default_locale, name),
        },
    }
}

fn language_part(locale: &[char]) -> (r: Vec<char>)
    ensures
        r@ == language_of(locale@),
{
    let mut r: Vec<char> = Vec::new();
    let mut i: usize = 0;
    proof {
        assert(locale@.skip(0) =~= locale@);
        assert(r@ + language_of(locale@) =~= language_of(locale@));
    }
    while i < locale.len()
        invariant
            i <= locale@.len(),
            language_of(locale@) == r@ + language_of(locale@.skip(i as int)),
        decreases locale@.len() - i,
    {
        proof {
            assert(locale@.skip(i as int)[0] == locale@[i as int]);
            assert(locale@.skip(i as int).drop_first() =~= locale@.skip(i + 1));
        }
        if locale[i] == '-' || locale[i] == '_' {
            proof {
                assert(r@ + Seq::<char>::empty() =~= r@);
            }
            return r;
        }
        r.push(locale[i]);
        proof {
            assert(r@ =~= r@.drop_last() + seq![locale@[i as int]]);
            assert(r@.drop_last() + (seq![locale@[i as int]] + language_of(locale@.skip(i + 1)))
                =~= r@ + language_of(locale@.skip(i + 1)));
        }
        i = i + 1;
    }
    proof {
        assert(locale@.skip(i as int).len() == 0);
        assert(r@ + language_of(locale@.skip(i as int)) =~= r@);
    }
    r
}

fn lookup_exec(es: &Vec<MessageEntry>, locale: &[char], key: &[char]) -> (r: Option<usize>)
    ensures
        r matches Some(i) ==> i < es@.len() && lookup(es@, locale@, key@) == Some(
            es@[i as int].template@,
        ),
        r is None ==> lookup(es@, locale@, key@) is None,
{
    let mut i: usize = 0;
    proof {
        assert(es@.skip(0) =~= es@);
    }
    while i < es.len()
        invariant
            i <= es@.len(),
            lookup(es@, locale@, key@) == lookup(es@.skip(i as int), locale@, key@),
        decreases es@.len() - i,
    {
        let el = chars_of(es[i].locale.as_str());
        let ek = chars_of(es[i].key.as_str());
        proof {
            assert(es@.skip(i as int)[0] == es@[i as int]);
            assert(es@.skip(i as int).drop_first() =~= es@.skip(i + 1));
        }
        if chars_eq(el.as_slice(), locale) && chars_eq(ek.as_slice(), key) {
            return Some(i);
        }
        i = i + 1;
    }
    None
}

impl MessageBundle {
    /// The template this bundle answers for `name` in `language` (or the
    /// default locale when no language is requested).
    pub fn message_for(&self, language: Option<&str>, name: &str) -> (r: Option<String>)
        ensures
            r matches Some(t) ==> resolve_spec(
                self.entries_view(),
                self.default_locale_view(),
                match language {
                    Some(l) => Some(l@),
                    None => None,
                },
                name@,
            ) == Some(t@),
            r is None ==> resolve_spec(
                self.entries_view(),
                self.default_locale_view(),
                match language {
                    Some(l) => Some(l@),
                    None => None,
                },
                name@,
            ) is None,
    {
        let locale = match language {
            Some(l) => chars_of(l),
            None => chars_of(self.default_locale.as_str()),
        };
        let key = chars_of(name);
        let default = chars_of(self.default_locale.as_str());
        let base = language_part(locale.as_slice());
        let found = match lookup_exec(&self.entries, locale.as_slice(), key.as_slice()) {
            Some(i) => Some(i),
            None => match lookup_exec(&self.entries, base.as_slice(), key.as_slice()) {
                Some(i) => Some(i),
                None => lookup_exec(&self.entries, default.as_slice(), key.as_slice()),
            },
        };
        match found {
            Some(i) => Some(self.entries[i].template.clone()),
            None => None,
        }
    }

    /// Resolves `name` and renders it with the arguments' plain text; `None`
    /// when the bundle has no such message.
    pub fn render(&self, language: Option<&str>, name: &str, arguments: &[String]) -> (r: Result<
        Option<String>,
        RenderError,
    >)
        ensures
            ({
                let found = resolve_spec(
                    self.entries_view(),
                    self.default_locale_view(),
                    match language {
                        Some(l) => Some(l@),
                        None => None,
                    },
                    name@,
                );
                match found {
                    None => r matches Ok(None),
                    Some(t) => match render_spec(t, texts(arguments@)) {
                        Ok(o) => r matches Ok(Some(out)) && out@ == o,
                        Err(e) => r matches Err(err) && err.code == ErrorCode::Extension
                            && err.message@ == message_error_text(e),
                    },
                }
            }),
    {
        match self.message_for(language, name) {
            None => Ok(None),
            Some(t) => match render_message(t.as_str(), arguments) {
                Ok(out) => Ok(Some(out)),
                Err(e) => Err(e),
            },
        }
    }
}

} // verus!

verus! {

/// Which message a bundle gives for `name`: that of the requested locale
/// (the default locale when none is requested) when it has one; else that of
/// the locale's language; else that of the default locale; else none.
pub proof fn law_message_locale_fallback(
    es: Seq<MessageEntry>,
    default_locale: Seq<char>,
    language: Option<Seq<char>>,
    name: Seq<char>,
)
    ensures
        ({
            let locale = match language {
                Some(l) => l,
                None => default_locale,
            };
            let r = resolve_spec(es, default_locale, language, name);
            &&& lookup(es, locale, name) is Some ==> r == lookup(es, locale, name)
            &&& (lookup(es, locale, name) is None && lookup(es, language_of(locale), name) is Some) ==> r
                == lookup(es, language_of(locale), name)
            &&& (lookup(es, locale, name) is None && lookup(es, language_of(locale), name) is None) ==> r == lookup(
                es,
                default_locale,
                name,
            )
        }),
{
}

} // verus!

verus! {

/// The language of a locale is the part before its first `-` or `_`: a
/// prefix of it without either separator, followed by a separator or by
/// nothing.
pub proof fn law_language_is_the_part_before_a_separator(locale: Seq<char>)
    ensures
        language_of(locale).len() <= locale.len(),
        language_of(locale) == locale.take(language_of(locale).len() as int),
        forall|i: int| 0 <= i < language_of(locale).len() ==> #[trigger] language_of(locale)[i] != '-' && language_of(locale)[i] != '_',
        language_of(locale).len() < locale.len() ==> (locale[language_of(locale).len() as int] == '-' || locale[language_of(
            locale,
        ).len() as int] == '_'),
    decreases locale.len(),
{
    if locale.len() > 0 && !(locale[0] == '-' || locale[0] == '_') {
        let rest = locale.drop_first();
        law_language_is_the_part_before_a_separator(rest);
        let l = language_of(locale);
        assert(l == seq![locale[0]] + language_of(rest));
        assert(l =~= locale.take(l.len() as int)) by {
            assert forall|i: int| 0 <= i < l.len() implies l[i] == locale.take(l.len() as int)[i] by {
                if i > 0 {
                    assert(l[i] == language_of(rest)[i - 1]);
                    assert(language_of(rest)[i - 1] == rest.take(language_of(rest).len() as int)[i - 1]);
                }
            }
        }
        assert forall|i: int| 0 <= i < l.len() implies #[trigger] l[i] != '-' && l[i] != '_' by {
            if i > 0 {
                assert(l[i] == language_of(rest)[i - 1]);
            }
        }
        if l.len() < locale.len() {
            assert(locale[l.len() as int] == rest[language_of(rest).len() as int]);
        }
    } else if locale.len() > 0 {
        assert(language_of(locale) =~= locale.take(0));
    }
}

} // verus!
