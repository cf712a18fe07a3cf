//! The template parser: text, comments, unparsed blocks, output tags,
//! parameter declarations and sections with their blocks.
//!
//! The parser's meaning is given by the spec functions of this file, which
//! read a template's characters left to right; positions are character
//! indices and every span is a byte range of the source.

use vstd::prelude::*;

use crate::compiler::args::{
    merge_named_arguments, quoted, split_arguments, tag_end_from, top_level_equals,
    unescape_braces, unescape_char, find_word_from, PieceV,
};
use crate::compiler::ast::{ArgumentV, ArgumentValueV, BlockV, NodeV, ParameterV, SectionV};
use crate::compiler::expr::{ExprV, LiteralV};
use crate::compiler::pratt::{parse_expression_spec, ParseError};
use crate::compiler::scan::{find, find_from, first_space_from, trim, trim_end, trim_start};
use crate::compiler::span::Span;
use crate::text::{byte_at, is_ascii_alnum, is_space, starts_at, utf8_len};

verus! {

/// An opening section tag `{#name rest}` as the parser reads it.
pub struct TagV {
    pub name: Seq<char>,
    pub rest: Seq<char>,
    /// Byte offset at which the parser places the start of `rest`.
    pub inner_start: int,
    pub span: Span,
    pub self_closing: bool,
}

/// Why a run of nodes ended: a closing tag, or the opening tag of a block of
/// the enclosing section.
pub enum StopV {
    Close(Seq<char>, Span),
    Block(TagV),
}

/// Parser state: the next character to read and the errors found so far.
pub struct PState {
    pub at: int,
    pub diags: Seq<ParseError>,
}

pub open spec fn perr(code: &'static str, message: Seq<char>, span: Span) -> ParseError {
    ParseError { code, message, span }
}

/// The byte range of characters `[a, b)` of `src`.
pub open spec fn bspan(src: Seq<char>, a: int, b: int) -> Span {
    Span { start: byte_at(src, a) as usize, end: byte_at(src, b) as usize }
}

pub open spec fn moved(st: PState, at: int) -> PState {
    PState { at, diags: st.diags }
}

pub open spec fn with_diag(st: PState, e: ParseError) -> PState {
    PState { at: st.at, diags: st.diags.push(e) }
}

/// Appends the text `src[a..b)`, extending the last node when it is text
/// that ends where this text starts.
pub open spec fn push_text(src: Seq<char>, nodes: Seq<NodeV>, a: int, b: int) -> Seq<NodeV> {
    if a < b {
        let text = unescape_braces(src.subrange(a, b));
        let span = bspan(src, a, b);
        if nodes.len() > 0 && text_ending_at(nodes.last(), span.start) {
            let last = nodes.last();
            nodes.drop_last().push(
                NodeV::Text {
                    value: last->Text_value + text,
                    span: Span { start: last->Text_span.start, end: span.end },
                },
            )
        } else {
            nodes.push(NodeV::Text { value: text, span })
        }
    } else {
        nodes
    }
}

/// A text node that ends at byte `at`.
pub open spec fn text_ending_at(n: NodeV, at: usize) -> bool {
    n is Text && n->Text_span.end == at
}

/// Names of the blocks that a section of the given name can hold.
pub open spec fn is_block(parent: Seq<char>, name: Seq<char>) -> bool {
    if parent == "if"@ || parent == "for"@ {
        name == "else"@
    } else if parent == "when"@ {
        name == "else"@ || name == "is"@ || name == "case"@
    } else if parent == "include"@ {
        !(name == "if"@ || name == "for"@ || name == "when"@ || name == "include"@ || name
            == "fragment"@)
    } else {
        false
    }
}

/// A `{` at `start` opens a tag only when the next character can begin one:
/// a letter or digit, `_`, `#`, `/` or `@` (or nothing at all).
pub open spec fn opens_tag(src: Seq<char>, start: int) -> bool {
    start + 1 >= src.len() || {
        let c = src[start + 1];
        is_ascii_alnum(c) || c == '_' || c == '#' || c == '/' || c == '@'
    }
}

/// Index of the first character at or after `k` that is not `|`.
pub open spec fn pipe_run(src: Seq<char>, k: int) -> int
    decreases src.len() - k,
{
    if 0 <= k < src.len() && src[k] == '|' {
        pipe_run(src, k + 1)
    } else {
        k
    }
}

/// `n` pipes followed by `}`: the end of an unparsed block opened with `n` pipes.
pub open spec fn pipe_delimiter(n: nat) -> Seq<char> {
    Seq::new(n, |i: int| '|').push('}')
}

pub open spec fn mismatched_close(expected: Option<Seq<char>>, close: Seq<char>) -> Seq<char> {
    let e = match expected {
        Some(x) => x,
        None => Seq::empty(),
    };
    "expected `{/"@ + e + "}`, found `{/"@ + close + "}`"@
}

pub open spec fn not_closed(name: Seq<char>) -> Seq<char> {
    "section `"@ + name + "` is not closed"@
}

pub open spec fn parameter_message() -> Seq<char> {
    "parameter declaration must be `{@Type name}` or `{@Type name=default}`"@
}

/// The end of a run of nodes: a section that is still open is reported.
pub open spec fn finish(src: Seq<char>, expected: Option<Seq<char>>, acc: Seq<NodeV>, st: PState) -> (
    Seq<NodeV>,
    Option<StopV>,
    PState,
) {
    match expected {
        Some(x) => (
            acc,
            None,
            with_diag(st, perr("E_MISSING_CLOSE", not_closed(x), bspan(src, src.len() as int, src.len() as int))),
        ),
        None => (acc, None, st),
    }
}

/// An argument whose value is a quoted string or an expression; an expression
/// that does not parse is kept as raw text and its error is recorded.
pub open spec fn expression_argument(
    name: Option<Seq<char>>,
    text: Seq<char>,
    base: int,
    diags: Seq<ParseError>,
) -> (ArgumentV, Seq<ParseError>) {
    let span = Span { start: base as usize, end: (base + utf8_len(text)) as usize };
    match quoted(text) {
        Some(v) => (ArgumentV { name, value: ArgumentValueV::String(v), span }, diags),
        None => match parse_expression_spec(text, base) {
            Ok(e) => (ArgumentV { name, value: ArgumentValueV::Expression(e), span }, diags),
            Err(pe) => (ArgumentV { name, value: ArgumentValueV::Raw(text), span }, diags.push(pe)),
        },
    }
}

/// Sections whose first argument is an identifier or a quoted name.
pub open spec fn names_target(section: Seq<char>) -> bool {
    section == "include"@ || section == "fragment"@ || section == "capture"@
}

/// The argument that the `i`-th piece of a section's argument list denotes.
pub open spec fn piece_argument(section: Seq<char>, i: int, p: PieceV, diags: Seq<ParseError>) -> (
    ArgumentV,
    Seq<ParseError>,
) {
    let (part, span) = p;
    if i == 0 && names_target(section) {
        let value = match quoted(part) {
            Some(v) => ArgumentValueV::String(v),
            None => ArgumentValueV::Raw(part),
        };
        (ArgumentV { name: None, value, span }, diags)
    } else {
        match top_level_equals(part) {
            Some(eq) => {
                let key = trim(part.take(eq));
                let value = trim(part.skip(eq + 1));
                let offset = match find(part, value) {
                    Some(f) => byte_at(part, f) as int,
                    None => (byte_at(part, eq) + 1) as int,
                };
                expression_argument(Some(key), value, span.start + offset, diags)
            },
            None => expression_argument(None, part, span.start as int, diags),
        }
    }
}

pub open spec fn piece_arguments(
    section: Seq<char>,
    ps: Seq<PieceV>,
    i: int,
    acc: Seq<ArgumentV>,
    diags: Seq<ParseError>,
) -> (Seq<ArgumentV>, Seq<ParseError>)
    decreases ps.len() - i,
{
    if i < 0 || i >= ps.len() {
        (acc, diags)
    } else {
        let (a, d) = piece_argument(section, i, ps[i], diags);
        piece_arguments(section, ps, i + 1, acc.push(a), d)
    }
}

/// The arguments of a section or block tag named `section`, whose argument
/// text `text` is placed at byte `base`.
pub open spec fn arguments(section: Seq<char>, text: Seq<char>, base: int, diags: Seq<ParseError>) -> (
    Seq<ArgumentV>,
    Seq<ParseError>,
) {
    if text.len() == 0 {
        (Seq::empty(), diags)
    } else if section == "else"@ && starts_at(text, 0, "if"@) && text.len() > 2 && is_space(text[2]) {
        let condition = trim_start(text.skip(2));
        let (a, d) = expression_argument(
            Some("if"@),
            condition,
            base + utf8_len(text) - utf8_len(condition),
            diags,
        );
        (seq![a], d)
    } else if section == "if"@ || section == "when"@ {
        let (a, d) = expression_argument(None, text, base, diags);
        (seq![a], d)
    } else if section == "for"@ && find_word_from(text, "in"@, 0) is Some {
        let pos = find_word_from(text, "in"@, 0)->0;
        let alias = trim(text.take(pos));
        let expr = trim(text.skip(pos + 2));
        let offset = match find(text, expr) {
            Some(f) => byte_at(text, f) as int,
            None => 0,
        };
        let first = ArgumentV {
            name: Some("alias"@),
            value: ArgumentValueV::Raw(alias),
            span: Span { start: base as usize, end: (base + byte_at(text, pos)) as usize },
        };
        let (second, d) = expression_argument(Some("in"@), expr, base + offset, diags);
        (seq![first, second], d)
    } else {
        piece_arguments(
            section,
            merge_named_arguments(split_arguments(text, base)),
            0,
            Seq::empty(),
            diags,
        )
    }
}

/// The opening tag `{#...}` at characters `[start, end]` of `src`, whose text
/// after `#` (within the trimmed tag) is `open`.
pub open spec fn parse_tag(src: Seq<char>, open: Seq<char>, span: Span, start: int, end: int) -> TagV {
    let content0 = trim(open);
    let self_closing = content0.len() > 0 && content0.last() == '/';
    let content = if self_closing {
        trim_end(content0.take(content0.len() - 1))
    } else {
        content0
    };
    let split = first_space_from(content, 0);
    let name = content.take(split);
    let rest = trim(content.skip(split));
    let raw_inner = src.subrange(start + 1, end);
    let hash = match find(raw_inner, seq!['#']) {
        Some(h) => byte_at(raw_inner, h) as int,
        None => 0,
    };
    let offset = match find(content, rest) {
        Some(f) => byte_at(content, f) as int,
        None => utf8_len(content) as int,
    };
    TagV { name, rest, inner_start: span.start + 1 + hash + 1 + offset, span, self_closing }
}

/// The value of a parameter's default: an expression, or a quoted string as a
/// string literal; raw text gives no default.
pub open spec fn default_of(a: ArgumentV) -> Option<ExprV> {
    match a.value {
        ArgumentValueV::Expression(e) => Some(e),
        ArgumentValueV::String(v) => Some(ExprV::Literal { value: LiteralV::String(v), span: a.span }),
        ArgumentValueV::Raw(_) => None,
    }
}

pub open spec fn has_space(s: Seq<char>) -> bool {
    exists|i: int| 0 <= i < s.len() && is_space(#[trigger] s[i])
}

/// The name and default of a parameter whose declared type ends at `type_end`
/// of `decl`, and `binding` is the trimmed rest.
pub open spec fn parameter_binding(
    decl: Seq<char>,
    type_end: int,
    binding: Seq<char>,
    span: Span,
    diags: Seq<ParseError>,
) -> (Seq<char>, Option<ExprV>, Seq<ParseError>) {
    match top_level_equals(binding) {
        Some(eq) => {
            let name = trim(binding.take(eq));
            let expression = trim(binding.skip(eq + 1));
            let offset = match find(decl, expression) {
                Some(f) => byte_at(decl, f) as int,
                None => (byte_at(decl, type_end) + byte_at(binding, eq) + 1) as int,
            };
            let (a, d) = expression_argument(None, expression, span.start + offset, diags);
            (name, default_of(a), d)
        },
        None => (binding, None, diags),
    }
}

/// A parameter declaration `{@Type name}` or `{@Type name=default}` whose text
/// after `@` is `decl`.
pub open spec fn parameter(decl: Seq<char>, span: Span, acc: Seq<NodeV>, diags: Seq<ParseError>) -> (
    Seq<NodeV>,
    Seq<ParseError>,
) {
    let type_end = first_space_from(decl, 0);
    if type_end >= decl.len() {
        (acc, diags.push(perr("E_PARAMETER", parameter_message(), span)))
    } else {
        let declared_type = decl.take(type_end);
        let binding = trim(decl.skip(type_end));
        let (name, default, d) = parameter_binding(decl, type_end, binding, span, diags);
        if name.len() == 0 || has_space(name) {
            (acc, d.push(perr("E_PARAMETER", parameter_message(), span)))
        } else {
            (acc.push(NodeV::Parameter(ParameterV { declared_type, name, default, span })), d)
        }
    }
}

/// An output tag `{expression}` with the raw text `raw` inside its braces.
pub open spec fn output(src: Seq<char>, raw: Seq<char>, start: int, span: Span, acc: Seq<NodeV>, diags: Seq<
    ParseError,
>) -> (Seq<NodeV>, Seq<ParseError>) {
    let lead = utf8_len(raw) - utf8_len(trim_start(raw));
    match parse_expression_spec(trim(raw), byte_at(src, start) + 1 + lead) {
        Ok(e) => (acc.push(NodeV::Output { expression: e, span }), diags),
        Err(pe) => (acc, diags.push(pe)),
    }
}

/// The nodes read from `st.at` until a closing tag, a block tag of the section
/// `parent`, or the end of the source; `expected` names the section whose
/// closing tag is awaited.
pub open spec fn nodes(
    src: Seq<char>,
    expected: Option<Seq<char>>,
    parent: Option<Seq<char>>,
    acc: Seq<NodeV>,
    st: PState,
) -> (Seq<NodeV>, Option<StopV>, PState)
    decreases src.len() - st.at, 1int,
{
    if st.at < 0 || st.at >= src.len() {
        finish(src, expected, acc, st)
    } else {
        match find_from(src, seq!['{'], st.at) {
            None => finish(
                src,
                expected,
                push_text(src, acc, st.at, src.len() as int),
                moved(st, src.len() as int),
            ),
            Some(start) => if start < st.at || start >= src.len() {
                (acc, None, st)
            } else if start > st.at && src[start - 1] == '\\' {
                nodes(src, expected, parent, push_text(src, acc, st.at, start + 1), moved(st, start + 1))
            } else {
                brace(src, expected, parent, push_text(src, acc, st.at, start), st, start)
            },
        }
    }
}

/// What the `{` at `start` begins: a comment, an unparsed block, a tag, or
/// (when no tag can start there) a literal brace.
pub open spec fn brace(
    src: Seq<char>,
    expected: Option<Seq<char>>,
    parent: Option<Seq<char>>,
    acc: Seq<NodeV>,
    st: PState,
    start: int,
) -> (Seq<NodeV>, Option<StopV>, PState)
    decreases src.len() - st.at, 0int,
{
    if start < st.at || start >= src.len() {
        (acc, None, st)
    } else if starts_at(src, start, "{!"@) {
        match find_from(src, "!}"@, start + 2) {
            None => finish(
                src,
                expected,
                acc,
                PState {
                    at: src.len() as int,
                    diags: st.diags.push(
                        perr("E_UNCLOSED_COMMENT", "unterminated comment"@, bspan(src, start, src.len() as int)),
                    ),
                },
            ),
            Some(e) => if start + 2 <= e && e + 2 <= src.len() {
                nodes(
                    src,
                    expected,
                    parent,
                    acc.push(NodeV::Comment { value: src.subrange(start + 2, e), span: bspan(src, start, e + 2) }),
                    moved(st, e + 2),
                )
            } else {
                (acc, None, st)
            },
        }
    } else if starts_at(src, start, "{|"@) {
        let content_start = pipe_run(src, start + 1);
        let delimiter = pipe_delimiter((content_start - start - 1) as nat);
        match find_from(src, delimiter, content_start) {
            None => finish(
                src,
                expected,
                acc,
                PState {
                    at: src.len() as int,
                    diags: st.diags.push(
                        perr(
                            "E_UNCLOSED_UNPARSED",
                            "unterminated unparsed block"@,
                            bspan(src, start, src.len() as int),
                        ),
                    ),
                },
            ),
            Some(content_end) => {
                let end = content_end + delimiter.len();
                if content_start <= content_end && start < end <= src.len() {
                    nodes(
                        src,
                        expected,
                        parent,
                        acc.push(
                            NodeV::Unparsed {
                                value: src.subrange(content_start, content_end),
                                span: bspan(src, start, end),
                            },
                        ),
                        moved(st, end),
                    )
                } else {
                    (acc, None, st)
                }
            },
        }
    } else if !opens_tag(src, start) {
        nodes(src, expected, parent, push_text(src, acc, start, start + 1), moved(st, start + 1))
    } else {
        match tag_end_from(src, start + 1, None) {
            None => finish(
                src,
                expected,
                acc,
                PState {
                    at: src.len() as int,
                    diags: st.diags.push(
                        perr("E_UNCLOSED_TAG", "unterminated tag"@, bspan(src, start, src.len() as int)),
                    ),
                },
            ),
            Some(end) => if start < end < src.len() {
                tag(src, expected, parent, acc, moved(st, end + 1), start, end)
            } else {
                (acc, None, st)
            },
        }
    }
}

/// The tag at characters `[start, end]`, where `end` holds its `}`.
pub open spec fn tag(
    src: Seq<char>,
    expected: Option<Seq<char>>,
    parent: Option<Seq<char>>,
    acc: Seq<NodeV>,
    st: PState,
    start: int,
    end: int,
) -> (Seq<NodeV>, Option<StopV>, PState)
    decreases src.len() - st.at, 5int,
{
    let span = bspan(src, start, end + 1);
    let raw = src.subrange(start + 1, end);
    let trimmed = trim(raw);
    if trimmed.len() > 0 && trimmed[0] == '/' {
        let close = trim(trimmed.skip(1));
        if close.len() == 0 || expected == Some(close) {
            (acc, Some(StopV::Close(close, span)), st)
        } else {
            (
                acc,
                Some(StopV::Close(close, span)),
                with_diag(st, perr("E_MISMATCHED_CLOSE", mismatched_close(expected, close), span)),
            )
        }
    } else if trimmed.len() > 0 && trimmed[0] == '#' {
        let t = parse_tag(src, trimmed.skip(1), span, start, end);
        if parent matches Some(p) && is_block(p, t.name) {
            (acc, Some(StopV::Block(t)), st)
        } else {
            let (s, st2) = section(src, t, st);
            if st.at <= st2.at <= src.len() {
                nodes(src, expected, parent, acc.push(NodeV::Section(s)), st2)
            } else {
                (acc, None, st2)
            }
        }
    } else if trimmed.len() > 0 && trimmed[0] == '@' {
        let (acc2, d) = parameter(trimmed.skip(1), span, acc, st.diags);
        nodes(src, expected, parent, acc2, PState { at: st.at, diags: d })
    } else {
        let (acc2, d) = output(src, raw, start, span, acc, st.diags);
        nodes(src, expected, parent, acc2, PState { at: st.at, diags: d })
    }
}

/// The section opened by `t`, with its body, its blocks and its closing tag.
pub open spec fn section(src: Seq<char>, t: TagV, st: PState) -> (SectionV, PState)
    decreases src.len() - st.at, 4int,
{
    let (args, d1) = arguments(t.name, t.rest, t.inner_start, st.diags);
    let st1 = PState { at: st.at, diags: d1 };
    if t.self_closing {
        (SectionV { name: t.name, arguments: args, blocks: Seq::empty(), self_closing: true, span: t.span }, st1)
    } else {
        let (body, stop, st2) = nodes(src, Some(t.name), Some(t.name), Seq::empty(), st1);
        let first = BlockV { name: t.name, arguments: Seq::empty(), nodes: body, span: t.span };
        if st.at <= st2.at <= src.len() {
            let (blocks, stop3, end3, st3) = blocks(src, t.name, seq![first], stop, t.span.end as int, st2);
            let end = match stop3 {
                Some(StopV::Close(_, sp)) => sp.end as int,
                _ => end3,
            };
            (
                SectionV {
                    name: t.name,
                    arguments: args,
                    blocks,
                    self_closing: false,
                    span: Span { start: t.span.start, end: end as usize },
                },
                st3,
            )
        } else {
            (SectionV { name: t.name, arguments: args, blocks: seq![first], self_closing: false, span: t.span }, st2)
        }
    }
}

/// The block ranges after `{stop}` of the section `name`; `end` is the byte
/// where the last one read so far ends.
pub open spec fn blocks(
    src: Seq<char>,
    name: Seq<char>,
    acc: Seq<BlockV>,
    stop: Option<StopV>,
    end: int,
    st: PState,
) -> (Seq<BlockV>, Option<StopV>, int, PState)
    decreases src.len() - st.at, 3int,
{
    match stop {
        Some(StopV::Block(bt)) => {
            let (bargs, d1) = arguments(bt.name, bt.rest, bt.inner_start, st.diags);
            let st1 = PState { at: st.at, diags: d1 };
            let explicit = name == "include"@ && bt.name != "else"@;
            let close = if explicit {
                bt.name
            } else {
                name
            };
            let (bnodes, next, st2) = nodes(src, Some(close), Some(name), Seq::empty(), st1);
            let end2 = match next {
                Some(StopV::Close(_, sp)) => sp.end as int,
                Some(StopV::Block(t2)) => t2.span.end as int,
                None => byte_at(src, st2.at) as int,
            };
            let acc2 = acc.push(
                BlockV {
                    name: bt.name,
                    arguments: bargs,
                    nodes: bnodes,
                    span: Span { start: bt.span.start, end: end2 as usize },
                },
            );
            if !(st.at <= st2.at <= src.len()) {
                (acc2, next, end2, st2)
            } else if explicit {
                let (cont, next2, st3) = nodes(src, Some(name), Some(name), Seq::empty(), st2);
                let acc3 = if cont.len() > 0 {
                    acc2.update(0, BlockV { nodes: acc2[0].nodes + cont, ..acc2[0] })
                } else {
                    acc2
                };
                if st.at < st3.at <= src.len() {
                    blocks(src, name, acc3, next2, end2, st3)
                } else {
                    (acc3, next2, end2, st3)
                }
            } else if st.at < st2.at {
                blocks(src, name, acc2, next, end2, st2)
            } else {
                (acc2, next, end2, st2)
            }
        },
        _ => (acc, stop, end, st),
    }
}

/// The nodes of a whole template and the syntax errors found in it.
pub open spec fn parse_nodes(src: Seq<char>) -> (Seq<NodeV>, Seq<ParseError>) {
    let (ns, stop, st) = nodes(src, None, None, Seq::empty(), PState { at: 0, diags: Seq::empty() });
    match stop {
        Some(StopV::Close(close, span)) => (
            ns,
            st.diags.push(perr("E_UNEXPECTED_CLOSE", "unexpected closing tag `"@ + close + "`"@, span)),
        ),
        _ => (ns, st.diags),
    }
}


proof fn lemma_no_brace_found(src: Seq<char>, i: int)
    requires
        0 <= i,
        forall|j: int| 0 <= j < src.len() ==> #[trigger] src[j] != '{',
    ensures
        find_from(src, seq!['{'], i) is None,
    decreases src.len() + 1 - i,
{
    if i + 1 <= src.len() {
        assert(src.subrange(i, i + 1)[0] == src[i]);
        lemma_no_brace_found(src, i + 1);
    }
}

proof fn lemma_unescape_without_backslash(t: Seq<char>, x: char)
    requires
        forall|j: int| 0 <= j < t.len() ==> #[trigger] t[j] != '\\',
    ensures
        unescape_char(t, x) == t,
    decreases t.len(),
{
    if t.len() >= 2 {
        assert forall|j: int| 0 <= j < t.skip(1).len() implies #[trigger] t.skip(1)[j] != '\\' by {
            assert(t.skip(1)[j] == t[j + 1]);
        }
        lemma_unescape_without_backslash(t.skip(1), x);
        assert(t[0] != '\\');
        assert(seq![t[0]] + t.skip(1) =~= t);
    }
}

/// A template without braces or backslashes is one text node holding the
/// whole source, and has no errors.
pub proof fn law_plain_text_is_one_text_node(src: Seq<char>)
    requires
        src.len() > 0,
        forall|j: int| 0 <= j < src.len() ==> #[trigger] src[j] != '{' && src[j] != '\\',
    ensures
        parse_nodes(src) == (
            seq![NodeV::Text { value: src, span: bspan(src, 0, src.len() as int) }],
            Seq::<ParseError>::empty(),
        ),
{
    lemma_no_brace_found(src, 0);
    let whole = src.subrange(0, src.len() as int);
    assert(whole =~= src);
    lemma_unescape_without_backslash(src, '{');
    lemma_unescape_without_backslash(src, '}');
    assert(unescape_braces(whole) == src);
    assert(push_text(src, Seq::empty(), 0, src.len() as int) =~= seq![
        NodeV::Text { value: src, span: bspan(src, 0, src.len() as int) },
    ]);
}

} // verus!
