//! The template parser, proved to compute what `grammar` specifies.

use vstd::prelude::*;

use crate::compiler::args::{
    find_word, merge_argument_list, pieces_bounded, pieces_view, quoted_text, split_argument_list, tag_end,
    top_level_equals_index, unescape_brace_text,
};
use crate::compiler::ast::{
    argument_view, arguments_view, node_view, nodes_view, opt_view, Argument, ArgumentV,
    ArgumentValue, Node, NodeV,
};
use crate::compiler::diagnostic::{make_diag, Diagnostic};
use crate::compiler::args::{merge_named_arguments, split_arguments};
use crate::compiler::ast::ArgumentValueV;
use crate::compiler::grammar::{
    arguments, expression_argument, piece_argument, piece_arguments, push_text, PState, StopV,
    TagV,
};
use crate::compiler::grammar::{
    bspan, default_of, has_space, output, parameter, parameter_binding, parse_tag,
};
use crate::compiler::ast::{block_view, blocks_view, Block, Parameter};
use crate::compiler::grammar::{
    blocks, brace, finish, is_block, mismatched_close, nodes, opens_tag, pipe_delimiter, pipe_run,
    section, tag,
};
use crate::compiler::ast::{section_view, BlockV, Section};
use crate::text::{ascii_alnum, starts_at};
use crate::compiler::expr::{expr_view, Expr, Literal};
use crate::text::is_space;
use crate::compiler::grammar::moved;
use crate::compiler::grammar::parse_nodes;
use crate::compiler::validate::{seqs_view, validate_nodes_exec, validation};
use crate::compiler::ast::Template;
use crate::compiler::scan::{
    find, first_space_index, lemma_find_from_occurs, lemma_subrange_bytes, trim, trim_end,
    trim_end_index,
};
use crate::text::{lemma_utf8_take_mono, lemma_utf8_take_step};
use crate::compiler::pratt::{diagnostic_for, parse_expression, ParseError};
use crate::compiler::scan::{
    byte_len, char_range, find_index, is_word, lemma_find_subrange, lemma_occurrence_bytes,
    lemma_trim, prefix_bytes, trim_chars, trim_hi, trim_lo, trim_start, trim_start_index,
};
use crate::compiler::span::Span;
use crate::text::{
    byte_at, fits, is_whitespace, lemma_utf8_subrange, push_chars, starts_with_at, string_of,
    utf8_len,
};

verus! {

/// An opening section tag as read by the parser.
pub struct Tag {
    pub name: Vec<char>,
    pub rest: Vec<char>,
    pub inner_start: usize,
    pub span: Span,
    pub self_closing: bool,
}

impl View for Tag {
    type V = TagV;

    open spec fn view(&self) -> TagV {
        TagV {
            name: self.name@,
            rest: self.rest@,
            inner_start: self.inner_start as int,
            span: self.span,
            self_closing: self.self_closing,
        }
    }
}

/// Why a run of nodes ended.
pub enum Stop {
    Close(Vec<char>, Span),
    Block(Tag),
}

pub open spec fn stop_view(s: Option<Stop>) -> Option<StopV> {
    match s {
        Some(Stop::Close(c, sp)) => Some(StopV::Close(c@, sp)),
        Some(Stop::Block(t)) => Some(StopV::Block(t@)),
        None => None,
    }
}

/// What the parser reads: the template's name, its characters and the byte
/// offset of each character.
pub struct Ctx<'a> {
    pub name: &'a str,
    pub src: Vec<char>,
    pub offs: Vec<usize>,
}

impl<'a> Ctx<'a> {
    pub open spec fn wf(&self) -> bool {
        &&& fits(self.src@)
        &&& self.offs@.len() == self.src@.len() + 1
        &&& forall|k: int| 0 <= k <= self.src@.len() ==> #[trigger] self.offs@[k] == byte_at(self.src@, k)
    }
}

pub open spec fn diag_view(d: Diagnostic) -> ParseError {
    ParseError { code: d.code, message: d.message@, span: d.span }
}

pub open spec fn diags_view(ds: Seq<Diagnostic>) -> Seq<ParseError> {
    ds.map_values(|d: Diagnostic| diag_view(d))
}

/// Every diagnostic names the template and is located in its source.
pub open spec fn located(ds: Seq<Diagnostic>, name: Seq<char>, src: Seq<char>) -> bool {
    forall|i: int| 0 <= i < ds.len() ==> diagnostic_for(#[trigger] ds[i], name, src, diag_view(ds[i]))
}

/// The parser's position and the diagnostics reported so far.
pub struct St {
    pub at: usize,
    pub diags: Vec<Diagnostic>,
}

impl St {
    pub open spec fn state(&self) -> PState {
        PState { at: self.at as int, diags: diags_view(self.diags@) }
    }
}

pub proof fn lemma_nodes_view(ns: Seq<Node>)
    ensures
        nodes_view(ns).len() == ns.len(),
        forall|i: int| 0 <= i < ns.len() ==> #[trigger] nodes_view(ns)[i] == node_view(ns[i]),
    decreases ns.len(),
{
    if ns.len() > 0 {
        lemma_nodes_view(ns.drop_first());
        assert forall|i: int| 0 <= i < ns.len() implies #[trigger] nodes_view(ns)[i] == node_view(
            ns[i],
        ) by {
            if i > 0 {
                assert(ns.drop_first()[i - 1] == ns[i]);
            }
        }
    }
}

pub proof fn lemma_nodes_view_push(ns: Seq<Node>, n: Node)
    ensures
        nodes_view(ns.push(n)) == nodes_view(ns).push(node_view(n)),
{
    lemma_nodes_view(ns);
    lemma_nodes_view(ns.push(n));
    assert(nodes_view(ns.push(n)) =~= nodes_view(ns).push(node_view(n)));
}

pub proof fn lemma_nodes_view_drop_last(ns: Seq<Node>)
    requires
        ns.len() > 0,
    ensures
        nodes_view(ns.drop_last()) == nodes_view(ns).drop_last(),
        nodes_view(ns).last() == node_view(ns.last()),
{
    lemma_nodes_view(ns);
    lemma_nodes_view(ns.drop_last());
    assert(nodes_view(ns.drop_last()) =~= nodes_view(ns).drop_last());
}

proof fn lemma_diags_push(ds: Seq<Diagnostic>, d: Diagnostic)
    ensures
        diags_view(ds.push(d)) == diags_view(ds).push(diag_view(d)),
{
    assert(diags_view(ds.push(d)) =~= diags_view(ds).push(diag_view(d)));
}

/// Records a diagnostic located in the source.
fn report(ctx: &Ctx, st: &mut St, code: &'static str, message: String, span: Span)
    requires
        ctx.wf(),
        located(old(st).diags@, ctx.name@, ctx.src@),
    ensures
        final(st).at == old(st).at,
        final(st).state().diags == old(st).state().diags.push(ParseError { code, message: message@, span }),
        located(final(st).diags@, ctx.name@, ctx.src@),
{
    let d = make_diag(ctx.name, &ctx.src, code, message, span);
    proof {
        lemma_diags_push(st.diags@, d);
    }
    st.diags.push(d);
    proof {
        assert forall|i: int| 0 <= i < st.diags@.len() implies diagnostic_for(
            #[trigger] st.diags@[i],
            ctx.name@,
            ctx.src@,
            diag_view(st.diags@[i]),
        ) by {
            if i < st.diags@.len() - 1 {
                assert(st.diags@[i] == old(st).diags@[i]);
            }
        }
    }
}

/// Appends the text between characters `a` and `b`, merging it into a text
/// node that ends where it starts.
fn add_text(ctx: &Ctx, nodes: &mut Vec<Node>, a: usize, b: usize)
    requires
        ctx.wf(),
        a <= b <= ctx.src@.len(),
    ensures
        nodes_view(final(nodes)@) == push_text(ctx.src@, nodes_view(old(nodes)@), a as int, b as int),
{
    if a < b {
        let piece = char_range(ctx.src.as_slice(), a, b);
        let text = unescape_brace_text(piece.as_slice());
        let start = ctx.offs[a];
        let end = ctx.offs[b];
        let ghost before = nodes@;
        match nodes.pop() {
            Some(Node::Text { value, span }) => {
                proof {
                    lemma_nodes_view_drop_last(before);
                }
                if span.end == start {
                    let mut value = value;
                    push_chars(&mut value, text.as_slice());
                    let n = Node::Text { value, span: Span::new(span.start, end) };
                    proof {
                        lemma_nodes_view_push(nodes@, n);
                    }
                    nodes.push(n);
                } else {
                    let last = Node::Text { value, span };
                    proof {
                        lemma_nodes_view_push(nodes@, last);
                        assert(nodes@.push(last) =~= before);
                    }
                    nodes.push(last);
                    let n = Node::Text { value: string_of(text.as_slice()), span: Span::new(start, end) };
                    proof {
                        lemma_nodes_view_push(nodes@, n);
                    }
                    nodes.push(n);
                }
            },
            Some(other) => {
                proof {
                    lemma_nodes_view_drop_last(before);
                    lemma_nodes_view_push(nodes@, other);
                    assert(nodes@.push(other) =~= before);
                }
                nodes.push(other);
                let n = Node::Text { value: string_of(text.as_slice()), span: Span::new(start, end) };
                proof {
                    lemma_nodes_view_push(nodes@, n);
                }
                nodes.push(n);
            },
            None => {
                let n = Node::Text { value: string_of(text.as_slice()), span: Span::new(start, end) };
                proof {
                    lemma_nodes_view_push(nodes@, n);
                }
                nodes.push(n);
            },
        }
    }
}


/// Records a diagnostic that is already located in the source.
fn record(ctx: &Ctx, st: &mut St, d: Diagnostic)
    requires
        ctx.wf(),
        located(old(st).diags@, ctx.name@, ctx.src@),
        diagnostic_for(d, ctx.name@, ctx.src@, diag_view(d)),
    ensures
        final(st).at == old(st).at,
        final(st).state().diags == old(st).state().diags.push(diag_view(d)),
        located(final(st).diags@, ctx.name@, ctx.src@),
{
    proof {
        lemma_diags_push(st.diags@, d);
    }
    st.diags.push(d);
    proof {
        assert forall|i: int| 0 <= i < st.diags@.len() implies diagnostic_for(
            #[trigger] st.diags@[i],
            ctx.name@,
            ctx.src@,
            diag_view(st.diags@[i]),
        ) by {
            if i < st.diags@.len() - 1 {
                assert(st.diags@[i] == old(st).diags@[i]);
            }
        }
    }
}

/// An argument whose value is a quoted string or an expression.
fn expression_argument_exec(ctx: &Ctx, name: Option<String>, text: &Vec<char>, base: usize, st: &mut St) -> (a: Argument)
    requires
        ctx.wf(),
        located(old(st).diags@, ctx.name@, ctx.src@),
        base + utf8_len(text@) < usize::MAX,
    ensures
        (argument_view(a), final(st).state().diags) == expression_argument(
            opt_view(name),
            text@,
            base as int,
            old(st).state().diags,
        ),
        final(st).at == old(st).at,
        located(final(st).diags@, ctx.name@, ctx.src@),
{
    let len = byte_len(text.as_slice());
    let span = Span::new(base, base + len);
    match quoted_text(text.as_slice()) {
        Some(v) => Argument { name, value: ArgumentValue::String(string_of(v.as_slice())), span },
        None => match parse_expression(ctx.name, &ctx.src, text, base) {
            Ok(e) => Argument { name, value: ArgumentValue::Expression(e), span },
            Err(d) => {
                record(ctx, st, d);
                Argument { name, value: ArgumentValue::Raw(string_of(text.as_slice())), span }
            },
        },
    }
}

/// The argument that one piece of an argument list denotes.
fn piece_argument_exec(
    ctx: &Ctx,
    section: &Vec<char>,
    i: usize,
    part: &Vec<char>,
    span: Span,
    st: &mut St,
) -> (a: Argument)
    requires
        ctx.wf(),
        located(old(st).diags@, ctx.name@, ctx.src@),
        span.start + utf8_len(part@) <= span.end < usize::MAX,
    ensures
        (argument_view(a), final(st).state().diags) == piece_argument(
            section@,
            i as int,
            (part@, span),
            old(st).state().diags,
        ),
        final(st).at == old(st).at,
        located(final(st).diags@, ctx.name@, ctx.src@),
{
    let target = is_word(section.as_slice(), "include") || is_word(section.as_slice(), "fragment")
        || is_word(section.as_slice(), "capture");
    if i == 0 && target {
        let value = match quoted_text(part.as_slice()) {
            Some(v) => ArgumentValue::String(string_of(v.as_slice())),
            None => ArgumentValue::Raw(string_of(part.as_slice())),
        };
        return Argument { name: None, value, span };
    }
    match top_level_equals_index(part.as_slice()) {
        Some(eq) => {
            let n = part.len();
            assert(eq < n);
            let head = char_range(part.as_slice(), 0, eq);
            let key = trim_chars(head.as_slice());
            let tail = char_range(part.as_slice(), eq + 1, part.len());
            let value = trim_chars(tail.as_slice());
            proof {
                assert(head@ == part@.take(eq as int));
                assert(tail@ == part@.skip(eq + 1));
                lemma_trim(tail@);
                assert(value@ =~= part@.subrange(eq + 1 + trim_lo(tail@), eq + 1 + trim_hi(tail@)));
                lemma_find_subrange(part@, eq + 1 + trim_lo(tail@), eq + 1 + trim_hi(tail@));
            }
            let offset = match find_index(part.as_slice(), value.as_slice(), 0) {
                Some(f) => {
                    proof {
                        lemma_occurrence_bytes(part@, f as int, value@);
                    }
                    prefix_bytes(part.as_slice(), f)
                },
                None => {
                    assert(false);
                    0
                },
            };
            expression_argument_exec(ctx, Some(string_of(key.as_slice())), &value, span.start + offset, st)
        },
        None => expression_argument_exec(ctx, None, part, span.start, st),
    }
}

proof fn lemma_arguments_view_push(args: Seq<Argument>, a: Argument)
    ensures
        arguments_view(args.push(a)) == arguments_view(args).push(argument_view(a)),
{
    assert(arguments_view(args.push(a)) =~= arguments_view(args).push(argument_view(a)));
}

/// The condition of `{#else if condition}`.
fn else_if_argument(ctx: &Ctx, text: &Vec<char>, base: usize, st: &mut St) -> (a: Argument)
    requires
        ctx.wf(),
        located(old(st).diags@, ctx.name@, ctx.src@),
        base + utf8_len(text@) < usize::MAX,
        text@.len() > 2,
    ensures
        (argument_view(a), final(st).state().diags) == expression_argument(
            Some("if"@),
            trim_start(text@.skip(2)),
            base + utf8_len(text@) - utf8_len(trim_start(text@.skip(2))),
            old(st).state().diags,
        ),
        final(st).at == old(st).at,
        located(final(st).diags@, ctx.name@, ctx.src@),
{
    let if_word = crate::text::chars_of("if");
    let u = char_range(text.as_slice(), 2, text.len());
    let k = trim_start_index(u.as_slice(), 0);
    let condition = char_range(u.as_slice(), k, u.len());
    proof {
        assert(u@ == text@.skip(2));
        assert(condition@ == trim_start(u@));
        lemma_utf8_subrange(text@, 2, text@.len() as int);
        lemma_utf8_subrange(u@, k as int, u@.len() as int);
        crate::text::lemma_utf8_len_take_full(text@);
        crate::text::lemma_utf8_len_take_full(u@);
    }
    let whole = byte_len(text.as_slice());
    let part = byte_len(condition.as_slice());
    expression_argument_exec(ctx, Some(string_of(if_word.as_slice())), &condition, base + whole - part, st)
}

/// The alias and the iterable of `{#for alias in iterable}`, where `in` is at `pos`.
fn for_arguments(ctx: &Ctx, text: &Vec<char>, base: usize, pos: usize, st: &mut St) -> (r: (Argument, Argument))
    requires
        ctx.wf(),
        located(old(st).diags@, ctx.name@, ctx.src@),
        base + utf8_len(text@) < usize::MAX,
        pos + 2 <= text@.len(),
    ensures
        ({
            let alias = trim(text@.take(pos as int));
            let expr = trim(text@.skip(pos + 2));
            let offset = match find(text@, expr) {
                Some(f) => byte_at(text@, f) as int,
                None => 0,
            };
            let first = ArgumentV {
                name: Some("alias"@),
                value: ArgumentValueV::Raw(alias),
                span: Span { start: base as usize, end: (base + byte_at(text@, pos as int)) as usize },
            };
            let (second, d) = expression_argument(Some("in"@), expr, base + offset, old(st).state().diags);
            argument_view(r.0) == first && argument_view(r.1) == second && final(st).state().diags == d
        }),
        final(st).at == old(st).at,
        located(final(st).diags@, ctx.name@, ctx.src@),
{
    let in_word = crate::text::chars_of("in");
    let n = text.len();
    assert(pos + 2 <= n);
    let head = char_range(text.as_slice(), 0, pos);
    let alias = trim_chars(head.as_slice());
    let tail = char_range(text.as_slice(), pos + 2, text.len());
    let expr = trim_chars(tail.as_slice());
    proof {
        assert(head@ == text@.take(pos as int));
        assert(tail@ == text@.skip(pos + 2));
        lemma_trim(tail@);
        assert(expr@ =~= text@.subrange(pos + 2 + trim_lo(tail@), pos + 2 + trim_hi(tail@)));
        lemma_find_subrange(text@, pos + 2 + trim_lo(tail@), pos + 2 + trim_hi(tail@));
    }
    let offset = match find_index(text.as_slice(), expr.as_slice(), 0) {
        Some(f) => {
            proof {
                lemma_occurrence_bytes(text@, f as int, expr@);
            }
            prefix_bytes(text.as_slice(), f)
        },
        None => 0,
    };
    let alias_end = prefix_bytes(text.as_slice(), pos);
    let first = Argument {
        name: Some(string_of(crate::text::chars_of("alias").as_slice())),
        value: ArgumentValue::Raw(string_of(alias.as_slice())),
        span: Span::new(base, base + alias_end),
    };
    let second = expression_argument_exec(ctx, Some(string_of(in_word.as_slice())), &expr, base + offset, st);
    (first, second)
}

/// The arguments of a space-separated argument list.
fn listed_arguments(ctx: &Ctx, section: &Vec<char>, text: &Vec<char>, base: usize, st: &mut St) -> (r: Vec<
    Argument,
>)
    requires
        ctx.wf(),
        located(old(st).diags@, ctx.name@, ctx.src@),
        base + utf8_len(text@) < usize::MAX,
    ensures
        (arguments_view(r@), final(st).state().diags) == piece_arguments(
            section@,
            merge_named_arguments(split_arguments(text@, base as int)),
            0,
            Seq::empty(),
            old(st).state().diags,
        ),
        final(st).at == old(st).at,
        located(final(st).diags@, ctx.name@, ctx.src@),
{
    let mut out: Vec<Argument> = Vec::new();
    let pieces = split_argument_list(text.as_slice(), base);
    let merged = merge_argument_list(&pieces, Ghost(base as int), Ghost(base + utf8_len(text@)));
    let ghost ps = pieces_view(merged@);
    let mut i: usize = 0;
    proof {
        assert(arguments_view(out@) =~= Seq::<ArgumentV>::empty());
    }
    while i < merged.len()
        invariant
            ctx.wf(),
            i <= merged@.len(),
            ps == pieces_view(merged@),
            ps == merge_named_arguments(split_arguments(text@, base as int)),
            pieces_bounded(ps, base as int, base + utf8_len(text@)),
            base + utf8_len(text@) < usize::MAX,
            st.at == old(st).at,
            located(st.diags@, ctx.name@, ctx.src@),
            piece_arguments(section@, ps, 0, Seq::empty(), old(st).state().diags) == piece_arguments(
                section@,
                ps,
                i as int,
                arguments_view(out@),
                st.state().diags,
            ),
        decreases merged@.len() - i,
    {
        let part = &merged[i].0;
        let span = merged[i].1;
        assert(ps[i as int] == (part@, span));
        let a = piece_argument_exec(ctx, section, i, part, span, st);
        proof {
            lemma_arguments_view_push(out@, a);
        }
        out.push(a);
        i = i + 1;
    }
    out
}

/// The arguments of a section or block tag.
fn arguments_exec(ctx: &Ctx, section: &Vec<char>, text: &Vec<char>, base: usize, st: &mut St) -> (r: Vec<
    Argument,
>)
    requires
        ctx.wf(),
        located(old(st).diags@, ctx.name@, ctx.src@),
        base + utf8_len(text@) < usize::MAX,
    ensures
        (arguments_view(r@), final(st).state().diags) == arguments(
            section@,
            text@,
            base as int,
            old(st).state().diags,
        ),
        final(st).at == old(st).at,
        located(final(st).diags@, ctx.name@, ctx.src@),
{
    let mut out: Vec<Argument> = Vec::new();
    if text.len() == 0 {
        proof {
            assert(arguments_view(out@) =~= Seq::<ArgumentV>::empty());
        }
        return out;
    }
    let if_word = crate::text::chars_of("if");
    proof {
        reveal_strlit("in");
    }
    if is_word(section.as_slice(), "else") && starts_with_at(text.as_slice(), 0, if_word.as_slice())
        && text.len() > 2 && is_whitespace(text[2]) {
        let a = else_if_argument(ctx, text, base, st);
        proof {
            lemma_arguments_view_push(out@, a);
            assert(arguments_view(out@.push(a)) =~= seq![argument_view(a)]);
        }
        out.push(a);
        return out;
    }
    if is_word(section.as_slice(), "if") || is_word(section.as_slice(), "when") {
        let a = expression_argument_exec(ctx, None, text, base, st);
        proof {
            lemma_arguments_view_push(out@, a);
            assert(arguments_view(out@.push(a)) =~= seq![argument_view(a)]);
        }
        out.push(a);
        return out;
    }
    let in_word = crate::text::chars_of("in");
    if is_word(section.as_slice(), "for") {
        match find_word(text.as_slice(), in_word.as_slice()) {
            Some(pos) => {
                let (first, second) = for_arguments(ctx, text, base, pos, st);
                proof {
                    lemma_arguments_view_push(out@, first);
                }
                out.push(first);
                proof {
                    lemma_arguments_view_push(out@, second);
                    assert(arguments_view(out@.push(second)) =~= seq![argument_view(first), argument_view(second)]);
                }
                out.push(second);
                return out;
            },
            None => {},
        }
    }
    listed_arguments(ctx, section, text, base, st)
}


/// `raw` holds the characters between the `{` at `start` and the `}` at `end`.
pub open spec fn tag_text(src: Seq<char>, start: int, end: int, raw: Seq<char>) -> bool {
    &&& 0 <= start < end < src.len()
    &&& src[start] == '{'
    &&& src[end] == '}'
    &&& raw == src.subrange(start + 1, end)
}

/// The bytes of a tag's inside end where its `}` starts.
proof fn lemma_tag_bytes(src: Seq<char>, start: int, end: int, raw: Seq<char>)
    requires
        tag_text(src, start, end, raw),
        fits(src),
    ensures
        byte_at(src, start) + 1 + utf8_len(raw) == byte_at(src, end),
        byte_at(src, end) + 1 == byte_at(src, end + 1),
        byte_at(src, end + 1) <= utf8_len(src),
{
    lemma_utf8_take_step(src, start);
    lemma_utf8_take_step(src, end);
    lemma_subrange_bytes(src, start + 1, end);
    lemma_utf8_take_mono(src, end + 1, src.len() as int);
    crate::text::lemma_utf8_len_take_full(src);
}

/// A text made of `t`'s characters from `a` on has at most `t`'s bytes.
proof fn lemma_skip_bytes(t: Seq<char>, a: int)
    requires
        0 <= a <= t.len(),
    ensures
        utf8_len(t.skip(a)) <= utf8_len(t),
        utf8_len(t.skip(a)) + byte_at(t, a) == utf8_len(t),
{
    assert(t.skip(a) =~= t.subrange(a, t.len() as int));
    lemma_subrange_bytes(t, a, t.len() as int);
    crate::text::lemma_utf8_len_take_full(t);
}

proof fn lemma_subrange_of_subrange(t: Seq<char>, a: int, b: int, c: int, d: int)
    requires
        0 <= a <= b <= t.len(),
        0 <= c <= d <= b - a,
    ensures
        t.subrange(a, b).subrange(c, d) == t.subrange(a + c, a + d),
{
    assert(t.subrange(a, b).subrange(c, d) =~= t.subrange(a + c, a + d));
}

/// The content of a section tag after `#`: trimmed, without a closing `/`.
fn tag_content(open: &Vec<char>) -> (r: (Vec<char>, bool))
    ensures
        ({
            let content0 = trim(open@);
            let self_closing = content0.len() > 0 && content0.last() == '/';
            &&& r.1 == self_closing
            &&& r.0@ == if self_closing {
                trim_end(content0.take(content0.len() - 1))
            } else {
                content0
            }
        }),
        trim_lo(open@) + r.0@.len() <= open@.len(),
        r.0@ == open@.subrange(trim_lo(open@), trim_lo(open@) + r.0@.len()),
{
    let content0 = trim_chars(open.as_slice());
    let n0 = content0.len();
    let self_closing = n0 > 0 && content0[n0 - 1] == '/';
    proof {
        lemma_trim(open@);
    }
    if self_closing {
        let c = char_range(content0.as_slice(), 0, n0 - 1);
        let e = trim_end_index(c.as_slice(), c.len());
        proof {
            assert(c@ == content0@.take(n0 - 1));
            assert(trim_end(c@) == c@.take(e as int));
        }
        let r = char_range(c.as_slice(), 0, e);
        proof {
            assert(r@ =~= open@.subrange(trim_lo(open@), trim_lo(open@) + r@.len()));
        }
        (r, true)
    } else {
        (content0, false)
    }
}

/// The text after `#` and the first `#` of a tag's inside leave room for
/// the content that follows them.
proof fn lemma_content_fits(raw: Seq<char>, c0: int, c1: int)
    requires
        trim(raw).len() > 0,
        trim(raw)[0] == '#',
        trim_lo(raw) + 1 <= c0 <= c1 <= raw.len(),
    ensures
        find(raw, seq!['#']) matches Some(h) && byte_at(raw, h) + 1 + utf8_len(raw.subrange(c0, c1))
            <= utf8_len(raw),
{
    lemma_trim(raw);
    let a = trim_lo(raw);
    assert(raw[a] == trim(raw)[0]);
    assert(raw.subrange(a, a + 1) =~= seq!['#']);
    lemma_find_from_occurs(raw, seq!['#'], 0, a);
    let h = find(raw, seq!['#'])->0;
    lemma_utf8_take_mono(raw, h, a);
    lemma_utf8_take_step(raw, a);
    lemma_utf8_take_mono(raw, a + 1, c0);
    lemma_subrange_bytes(raw, c0, c1);
    lemma_utf8_take_mono(raw, c1, raw.len() as int);
    crate::text::lemma_utf8_len_take_full(raw);
}

/// Reads an opening section tag whose trimmed inside is `trimmed` (starting with `#`).
fn parse_tag_exec(ctx: &Ctx, raw: &Vec<char>, trimmed: &Vec<char>, span: Span, start: usize, end: usize) -> (t: Tag)
    requires
        ctx.wf(),
        tag_text(ctx.src@, start as int, end as int, raw@),
        trimmed@ == trim(raw@),
        trimmed@.len() > 0,
        trimmed@[0] == '#',
        span == bspan(ctx.src@, start as int, end + 1),
    ensures
        t@ == parse_tag(ctx.src@, trimmed@.skip(1), span, start as int, end as int),
        t.inner_start + utf8_len(t.rest@) < span.end,
{
    let open = char_range(trimmed.as_slice(), 1, trimmed.len());
    let (content, self_closing) = tag_content(&open);
    let ghost c0 = trim_lo(raw@) + 1 + trim_lo(open@);
    proof {
        lemma_tag_bytes(ctx.src@, start as int, end as int, raw@);
        lemma_trim(raw@);
        assert(open@ == trimmed@.skip(1));
        lemma_trim(open@);
        assert(open@ =~= raw@.subrange(trim_lo(raw@) + 1, trim_hi(raw@)));
        assert(open@.len() == trim_hi(raw@) - trim_lo(raw@) - 1);
        assert(c0 + content@.len() <= trim_hi(raw@));
        lemma_subrange_of_subrange(raw@, trim_lo(raw@) + 1, trim_hi(raw@), trim_lo(open@), trim_lo(open@) + content@.len());
        assert(content@ == raw@.subrange(c0, c0 + content@.len()));
        lemma_content_fits(raw@, c0, c0 + content@.len());
    }
    let split = first_space_index(content.as_slice(), 0);
    let name = char_range(content.as_slice(), 0, split);
    let after = char_range(content.as_slice(), split, content.len());
    let rest = trim_chars(after.as_slice());
    proof {
        assert(name@ == content@.take(split as int));
        assert(after@ == content@.skip(split as int));
        lemma_trim(after@);
        assert(rest@ =~= content@.subrange(split + trim_lo(after@), split + trim_hi(after@)));
        lemma_find_subrange(content@, split + trim_lo(after@), split + trim_hi(after@));
    }
    let hash_mark: Vec<char> = vec!['#'];
    proof {
        assert(hash_mark@ =~= seq!['#']);
    }
    let hash = match find_index(raw.as_slice(), hash_mark.as_slice(), 0) {
        Some(h) => prefix_bytes(raw.as_slice(), h),
        None => 0,
    };
    let offset = match find_index(content.as_slice(), rest.as_slice(), 0) {
        Some(f) => {
            proof {
                lemma_occurrence_bytes(content@, f as int, rest@);
            }
            prefix_bytes(content.as_slice(), f)
        },
        None => {
            assert(false);
            0
        },
    };
    let inner_start = span.start + 1 + hash + 1 + offset;
    Tag { name, rest, inner_start, span, self_closing }
}


/// The default of a parameter from the argument that its `=` text denotes.
fn default_of_exec(a: Argument) -> (r: Option<Expr>)
    ensures
        match r {
            Some(e) => default_of(argument_view(a)) == Some(expr_view(e)),
            None => default_of(argument_view(a)) is None,
        },
{
    match a.value {
        ArgumentValue::Expression(e) => Some(e),
        ArgumentValue::String(v) => Some(Expr::Literal { value: Literal::String(v), span: a.span }),
        ArgumentValue::Raw(_) => None,
    }
}

fn contains_space(t: &[char]) -> (r: bool)
    ensures
        r == has_space(t@),
{
    let mut i: usize = 0;
    while i < t.len()
        invariant
            i <= t@.len(),
            forall|j: int| 0 <= j < i ==> !is_space(#[trigger] t@[j]),
        decreases t@.len() - i,
    {
        if is_whitespace(t[i]) {
            return true;
        }
        i = i + 1;
    }
    false
}

/// Where a sub-range `t[x..y]` is first found in `t`, in bytes.
fn found_offset(t: &Vec<char>, p: &Vec<char>, Ghost(x): Ghost<int>, Ghost(y): Ghost<int>) -> (r: usize)
    requires
        0 <= x <= y <= t@.len(),
        p@ == t@.subrange(x, y),
        utf8_len(t@) < usize::MAX,
    ensures
        find(t@, p@) matches Some(f) && r == byte_at(t@, f),
        r + utf8_len(p@) <= utf8_len(t@),
{
    proof {
        lemma_find_subrange(t@, x, y);
    }
    match find_index(t.as_slice(), p.as_slice(), 0) {
        Some(f) => {
            proof {
                lemma_occurrence_bytes(t@, f as int, p@);
            }
            prefix_bytes(t.as_slice(), f)
        },
        None => {
            assert(false);
            0
        },
    }
}

/// The name and default of a parameter declaration.
#[verifier::spinoff_prover]
fn parameter_binding_exec(
    ctx: &Ctx,
    decl: &Vec<char>,
    te: usize,
    binding: &Vec<char>,
    span: Span,
    st: &mut St,
) -> (r: (Vec<char>, Option<Expr>))
    requires
        ctx.wf(),
        located(old(st).diags@, ctx.name@, ctx.src@),
        span.start + utf8_len(decl@) < usize::MAX,
        te <= decl@.len(),
        binding@ == trim(decl@.skip(te as int)),
    ensures
        ({
            let (name, default, d) = parameter_binding(decl@, te as int, binding@, span, old(st).state().diags);
            &&& r.0@ == name
            &&& final(st).state().diags == d
            &&& match r.1 {
                Some(e) => default == Some(expr_view(e)),
                None => default is None,
            }
        }),
        final(st).at == old(st).at,
        located(final(st).diags@, ctx.name@, ctx.src@),
{
    let ghost tail = decl@.skip(te as int);
    proof {
        lemma_trim(tail);
        lemma_subrange_of_subrange(decl@, te as int, decl@.len() as int, trim_lo(tail), trim_hi(tail));
        assert(tail == decl@.subrange(te as int, decl@.len() as int));
        assert(binding@ == decl@.subrange(te + trim_lo(tail), te + trim_hi(tail)));
    }
    match top_level_equals_index(binding.as_slice()) {
        Some(eq) => {
            let n = binding.len();
            assert(eq < n);
            let head = char_range(binding.as_slice(), 0, eq);
            let name = trim_chars(head.as_slice());
            let rest = char_range(binding.as_slice(), eq + 1, binding.len());
            let expression = trim_chars(rest.as_slice());
            let ghost x = te + trim_lo(tail) + eq + 1 + trim_lo(rest@);
            let ghost y = te + trim_lo(tail) + eq + 1 + trim_hi(rest@);
            proof {
                assert(head@ == binding@.take(eq as int));
                assert(rest@ == binding@.subrange(eq + 1, binding@.len() as int));
                lemma_trim(rest@);
                lemma_subrange_of_subrange(binding@, eq + 1, binding@.len() as int, trim_lo(rest@), trim_hi(rest@));
                lemma_subrange_of_subrange(
                    decl@,
                    te + trim_lo(tail),
                    te + trim_hi(tail),
                    eq + 1 + trim_lo(rest@),
                    eq + 1 + trim_hi(rest@),
                );
                assert(expression@ == decl@.subrange(x, y));
            }
            let offset = found_offset(decl, &expression, Ghost(x), Ghost(y));
            let a = expression_argument_exec(ctx, None, &expression, span.start + offset, st);
            (name, default_of_exec(a))
        },
        None => (char_range(binding.as_slice(), 0, binding.len()), None),
    }
}

/// A parameter declaration whose text after `@` is `decl`.
fn parameter_exec(ctx: &Ctx, decl: &Vec<char>, span: Span, nodes: &mut Vec<Node>, st: &mut St)
    requires
        ctx.wf(),
        located(old(st).diags@, ctx.name@, ctx.src@),
        span.start + utf8_len(decl@) < usize::MAX,
    ensures
        (nodes_view(final(nodes)@), final(st).state().diags) == parameter(
            decl@,
            span,
            nodes_view(old(nodes)@),
            old(st).state().diags,
        ),
        final(st).at == old(st).at,
        located(final(st).diags@, ctx.name@, ctx.src@),
{
    let te = first_space_index(decl.as_slice(), 0);
    if te >= decl.len() {
        report(ctx, st, "E_PARAMETER", "parameter declaration must be `{@Type name}` or `{@Type name=default}`".to_owned(), span);
        return;
    }
    let declared_type = char_range(decl.as_slice(), 0, te);
    let tail = char_range(decl.as_slice(), te, decl.len());
    let binding = trim_chars(tail.as_slice());
    proof {
        assert(declared_type@ == decl@.take(te as int));
        assert(tail@ == decl@.skip(te as int));
    }
    let (name, default) = parameter_binding_exec(ctx, decl, te, &binding, span, st);
    if name.len() == 0 || contains_space(name.as_slice()) {
        report(ctx, st, "E_PARAMETER", "parameter declaration must be `{@Type name}` or `{@Type name=default}`".to_owned(), span);
        return;
    }
    let p = Parameter {
        declared_type: string_of(declared_type.as_slice()),
        name: string_of(name.as_slice()),
        default,
        span,
    };
    proof {
        lemma_nodes_view_push(nodes@, Node::Parameter(p));
    }
    nodes.push(Node::Parameter(p));
}

/// An output tag whose inside is `raw`.
fn output_exec(ctx: &Ctx, raw: &Vec<char>, start: usize, end: usize, span: Span, nodes: &mut Vec<Node>, st: &mut St)
    requires
        ctx.wf(),
        located(old(st).diags@, ctx.name@, ctx.src@),
        tag_text(ctx.src@, start as int, end as int, raw@),
    ensures
        (nodes_view(final(nodes)@), final(st).state().diags) == output(
            ctx.src@,
            raw@,
            start as int,
            span,
            nodes_view(old(nodes)@),
            old(st).state().diags,
        ),
        final(st).at == old(st).at,
        located(final(st).diags@, ctx.name@, ctx.src@),
{
    let lo = trim_start_index(raw.as_slice(), 0);
    let text = trim_chars(raw.as_slice());
    proof {
        lemma_tag_bytes(ctx.src@, start as int, end as int, raw@);
        lemma_trim(raw@);
        lemma_skip_bytes(raw@, lo as int);
        assert(trim_start(raw@) == raw@.skip(lo as int));
        lemma_subrange_bytes(raw@, lo as int, trim_hi(raw@));
        lemma_utf8_take_mono(raw@, trim_hi(raw@), raw@.len() as int);
        crate::text::lemma_utf8_len_take_full(raw@);
    }
    let lead = prefix_bytes(raw.as_slice(), lo);
    let base = ctx.offs[start] + 1 + lead;
    match parse_expression(ctx.name, &ctx.src, &text, base) {
        Ok(e) => {
            let n = Node::Output { expression: e, span };
            proof {
                lemma_nodes_view_push(nodes@, n);
            }
            nodes.push(n);
        },
        Err(d) => {
            record(ctx, st, d);
        },
    }
}


pub open spec fn opt_chars(o: Option<&Vec<char>>) -> Option<Seq<char>> {
    match o {
        Some(x) => Some(x@),
        None => None,
    }
}

pub proof fn lemma_blocks_view(bs: Seq<Block>)
    ensures
        blocks_view(bs).len() == bs.len(),
        forall|i: int| 0 <= i < bs.len() ==> #[trigger] blocks_view(bs)[i] == block_view(bs[i]),
    decreases bs.len(),
{
    if bs.len() > 0 {
        lemma_blocks_view(bs.drop_first());
        assert forall|i: int| 0 <= i < bs.len() implies #[trigger] blocks_view(bs)[i] == block_view(
            bs[i],
        ) by {
            if i > 0 {
                assert(bs.drop_first()[i - 1] == bs[i]);
            }
        }
    }
}

pub proof fn lemma_blocks_view_push(bs: Seq<Block>, b: Block)
    ensures
        blocks_view(bs.push(b)) == blocks_view(bs).push(block_view(b)),
{
    lemma_blocks_view(bs);
    lemma_blocks_view(bs.push(b));
    assert(blocks_view(bs.push(b)) =~= blocks_view(bs).push(block_view(b)));
}

proof fn lemma_nodes_view_append(a: Seq<Node>, b: Seq<Node>)
    ensures
        nodes_view(a + b) == nodes_view(a) + nodes_view(b),
{
    lemma_nodes_view(a);
    lemma_nodes_view(b);
    lemma_nodes_view(a + b);
    assert(nodes_view(a + b) =~= nodes_view(a) + nodes_view(b));
}

fn is_block_exec(parent: &Vec<char>, name: &Vec<char>) -> (r: bool)
    ensures
        r == is_block(parent@, name@),
{
    let p = parent.as_slice();
    let n = name.as_slice();
    if is_word(p, "if") || is_word(p, "for") {
        is_word(n, "else")
    } else if is_word(p, "when") {
        is_word(n, "else") || is_word(n, "is") || is_word(n, "case")
    } else if is_word(p, "include") {
        !(is_word(n, "if") || is_word(n, "for") || is_word(n, "when") || is_word(n, "include")
            || is_word(n, "fragment"))
    } else {
        false
    }
}

fn opens_tag_exec(src: &Vec<char>, start: usize) -> (r: bool)
    requires
        start < src@.len(),
    ensures
        r == opens_tag(src@, start as int),
{
    let n = src.len();
    if start >= n - 1 {
        true
    } else {
        let c = src[start + 1];
        ascii_alnum(c) || c == '_' || c == '#' || c == '/' || c == '@'
    }
}

/// A message made of a prefix, a name and a suffix.
fn framed(prefix: &str, name: &[char], suffix: &str) -> (m: String)
    ensures
        m@ == prefix@ + name@ + suffix@,
{
    let mut m = String::new();
    crate::text::push_str(&mut m, prefix);
    push_chars(&mut m, name);
    crate::text::push_str(&mut m, suffix);
    proof {
        assert(m@ =~= prefix@ + name@ + suffix@);
    }
    m
}

/// Reports a section that is still open at the end of the source.
fn finish_exec(ctx: &Ctx, expected: Option<&Vec<char>>, st: &mut St)
    requires
        ctx.wf(),
        located(old(st).diags@, ctx.name@, ctx.src@),
    ensures
        finish(ctx.src@, opt_chars(expected), Seq::empty(), old(st).state()).2 == final(st).state(),
        final(st).at == old(st).at,
        located(final(st).diags@, ctx.name@, ctx.src@),
{
    match expected {
        Some(x) => {
            let n = ctx.src.len();
            let span = Span::new(ctx.offs[n], ctx.offs[n]);
            report(ctx, st, "E_MISSING_CLOSE", framed("section `", x.as_slice(), "` is not closed"), span);
        },
        None => {},
    }
}


/// What a parsing step leaves to do: go on reading nodes, or return.
pub enum Step {
    Continue,
    Done(Option<Stop>),
}

/// A block tag handed back to a section has arguments that fit its tag.
pub open spec fn stop_fits(src: Seq<char>, stop: Option<Stop>) -> bool {
    stop matches Some(Stop::Block(t)) ==> t.inner_start + utf8_len(t.rest@) < t.span.end && t.span.end
        <= utf8_len(src)
}

/// Index of the first character at or after `k` that is not `|`.
pub(crate) fn pipe_run_exec(src: &Vec<char>, k: usize) -> (r: usize)
    requires
        k <= src@.len(),
    ensures
        r == pipe_run(src@, k as int),
        k <= r <= src@.len(),
        k < src@.len() && src@[k as int] == '|' ==> k < r,
{
    let mut i = k;
    while i < src.len() && src[i] == '|'
        invariant
            k <= i <= src@.len(),
            pipe_run(src@, k as int) == pipe_run(src@, i as int),
            k < src@.len() && src@[k as int] == '|' ==> k < i || (i == k && i < src@.len() && src@[i as int] == '|'),
        decreases src@.len() - i,
    {
        i = i + 1;
    }
    i
}

pub(crate) fn pipe_delimiter_exec(n: usize) -> (r: Vec<char>)
    ensures
        r@ == pipe_delimiter(n as nat),
{
    let mut r: Vec<char> = Vec::new();
    let mut i: usize = 0;
    while i < n
        invariant
            i <= n,
            r@ == Seq::new(i as nat, |j: int| '|'),
        decreases n - i,
    {
        r.push('|');
        i = i + 1;
        proof {
            assert(r@ =~= Seq::new(i as nat, |j: int| '|'));
        }
    }
    r.push('}');
    r
}

/// The tag at characters `[start, end]`.
fn tag_step(
    ctx: &Ctx,
    expected: Option<&Vec<char>>,
    parent: Option<&Vec<char>>,
    acc: &mut Vec<Node>,
    st: &mut St,
    start: usize,
    end: usize,
) -> (r: Step)
    requires
        ctx.wf(),
        located(old(st).diags@, ctx.name@, ctx.src@),
        start < end < ctx.src@.len(),
        ctx.src@[start as int] == '{',
        ctx.src@[end as int] == '}',
        old(st).at == end + 1,
    ensures
        located(final(st).diags@, ctx.name@, ctx.src@),
        old(st).at <= final(st).at <= ctx.src@.len(),
        match r {
            Step::Continue => tag(
                ctx.src@,
                opt_chars(expected),
                opt_chars(parent),
                nodes_view(old(acc)@),
                old(st).state(),
                start as int,
                end as int,
            ) == nodes(ctx.src@, opt_chars(expected), opt_chars(parent), nodes_view(final(acc)@), final(st).state()),
            Step::Done(stop) => {
                &&& tag(
                    ctx.src@,
                    opt_chars(expected),
                    opt_chars(parent),
                    nodes_view(old(acc)@),
                    old(st).state(),
                    start as int,
                    end as int,
                ) == (nodes_view(final(acc)@), stop_view(stop), final(st).state())
                &&& stop is Some
                &&& stop_fits(ctx.src@, stop)
            },
        },
    decreases ctx.src@.len() - old(st).at, 5int,
{
    let raw = char_range(ctx.src.as_slice(), start + 1, end);
    let trimmed = trim_chars(raw.as_slice());
    proof {
        lemma_tag_bytes(ctx.src@, start as int, end as int, raw@);
    }
    let span = Span::new(ctx.offs[start], ctx.offs[end + 1]);
    if trimmed.len() > 0 && trimmed[0] == '/' {
        let after = char_range(trimmed.as_slice(), 1, trimmed.len());
        let close = trim_chars(after.as_slice());
        let same = match expected {
            Some(x) => crate::text::chars_eq(x.as_slice(), close.as_slice()),
            None => false,
        };
        if close.len() == 0 || same {
            return Step::Done(Some(Stop::Close(close, span)));
        }
        let none: Vec<char> = Vec::new();
        let e = match expected {
            Some(x) => x.as_slice(),
            None => none.as_slice(),
        };
        let mut message = framed("expected `{/", e, "}`, found `{/");
        push_chars(&mut message, close.as_slice());
        crate::text::push_str(&mut message, "}`");
        proof {
            assert(message@ =~= mismatched_close(opt_chars(expected), close@));
        }
        report(ctx, st, "E_MISMATCHED_CLOSE", message, span);
        return Step::Done(Some(Stop::Close(close, span)));
    }
    if trimmed.len() > 0 && trimmed[0] == '#' {
        let t = parse_tag_exec(ctx, &raw, &trimmed, span, start, end);
        let block = match parent {
            Some(p) => is_block_exec(p, &t.name),
            None => false,
        };
        if block {
            return Step::Done(Some(Stop::Block(t)));
        }
        let section = section_exec(ctx, t, st);
        proof {
            lemma_nodes_view_push(acc@, Node::Section(section));
        }
        acc.push(Node::Section(section));
        return Step::Continue;
    }
    if trimmed.len() > 0 && trimmed[0] == '@' {
        let decl = char_range(trimmed.as_slice(), 1, trimmed.len());
        proof {
            lemma_trim(raw@);
            lemma_subrange_bytes(raw@, trim_lo(raw@), trim_hi(raw@));
            lemma_subrange_bytes(trimmed@, 1, trimmed@.len() as int);
            lemma_utf8_take_mono(raw@, trim_hi(raw@), raw@.len() as int);
            crate::text::lemma_utf8_len_take_full(raw@);
            crate::text::lemma_utf8_len_take_full(trimmed@);
        }
        parameter_exec(ctx, &decl, span, acc, st);
        return Step::Continue;
    }
    output_exec(ctx, &raw, start, end, span, acc, st);
    Step::Continue
}

/// Ensures of a step that handles the `{` at `start` on behalf of `brace`.
pub open spec fn brace_done(
    src: Seq<char>,
    expected: Option<Seq<char>>,
    parent: Option<Seq<char>>,
    acc0: Seq<NodeV>,
    st0: PState,
    start: int,
    r: Step,
    acc1: Seq<NodeV>,
    st1: PState,
) -> bool {
    &&& st0.at <= st1.at <= src.len()
    &&& match r {
        Step::Continue => {
            &&& brace(src, expected, parent, acc0, st0, start) == nodes(src, expected, parent, acc1, st1)
            &&& st0.at < st1.at
        },
        Step::Done(stop) => {
            &&& brace(src, expected, parent, acc0, st0, start) == (acc1, stop_view(stop), st1)
            &&& (stop is Some ==> st0.at < st1.at)
            &&& stop_fits(src, stop)
        },
    }
}

/// A comment `{! ... !}` at `start`.
#[verifier::spinoff_prover]
fn comment_step(ctx: &Ctx, expected: Option<&Vec<char>>, acc: &mut Vec<Node>, st: &mut St, start: usize) -> (r: Step)
    requires
        ctx.wf(),
        located(old(st).diags@, ctx.name@, ctx.src@),
        old(st).at <= start < ctx.src@.len(),
        starts_at(ctx.src@, start as int, "{!"@),
    ensures
        located(final(st).diags@, ctx.name@, ctx.src@),
        forall|parent: Option<Seq<char>>|
            brace_done(
                ctx.src@,
                opt_chars(expected),
                parent,
                nodes_view(old(acc)@),
                old(st).state(),
                start as int,
                r,
                nodes_view(final(acc)@),
                final(st).state(),
            ),
{
    let n = ctx.src.len();
    let src = ctx.src.as_slice();
    let comment_close = crate::text::chars_of("!}");
    proof {
        reveal_strlit("{!");
        reveal_strlit("!}");
    }
    match find_index(src, comment_close.as_slice(), start + 2) {
        None => {
            let span = Span::new(ctx.offs[start], ctx.offs[n]);
            report(ctx, st, "E_UNCLOSED_COMMENT", "unterminated comment".to_owned(), span);
            st.at = n;
            finish_exec(ctx, expected, st);
            Step::Done(None)
        },
        Some(e) => {
            proof {
                crate::compiler::scan::lemma_find_from_found(ctx.src@, comment_close@, start + 2);
            }
            let value = string_of(char_range(src, start + 2, e).as_slice());
            let node = Node::Comment { value, span: Span::new(ctx.offs[start], ctx.offs[e + 2]) };
            proof {
                lemma_nodes_view_push(acc@, node);
            }
            acc.push(node);
            st.at = e + 2;
            Step::Continue
        },
    }
}

/// An unparsed block `{| ... |}` at `start`.
#[verifier::spinoff_prover]
fn unparsed_step(ctx: &Ctx, expected: Option<&Vec<char>>, acc: &mut Vec<Node>, st: &mut St, start: usize) -> (r: Step)
    requires
        ctx.wf(),
        located(old(st).diags@, ctx.name@, ctx.src@),
        old(st).at <= start < ctx.src@.len(),
        !starts_at(ctx.src@, start as int, "{!"@),
        starts_at(ctx.src@, start as int, "{|"@),
    ensures
        located(final(st).diags@, ctx.name@, ctx.src@),
        forall|parent: Option<Seq<char>>|
            brace_done(
                ctx.src@,
                opt_chars(expected),
                parent,
                nodes_view(old(acc)@),
                old(st).state(),
                start as int,
                r,
                nodes_view(final(acc)@),
                final(st).state(),
            ),
{
    let n = ctx.src.len();
    let src = ctx.src.as_slice();
    proof {
        reveal_strlit("{|");
        assert(ctx.src@.subrange(start as int, start + 2)[1] == '|');
    }
    let content_start = pipe_run_exec(&ctx.src, start + 1);
    let delimiter = pipe_delimiter_exec(content_start - start - 1);
    match find_index(src, delimiter.as_slice(), content_start) {
        None => {
            let span = Span::new(ctx.offs[start], ctx.offs[n]);
            report(ctx, st, "E_UNCLOSED_UNPARSED", "unterminated unparsed block".to_owned(), span);
            st.at = n;
            finish_exec(ctx, expected, st);
            Step::Done(None)
        },
        Some(content_end) => {
            proof {
                crate::compiler::scan::lemma_find_from_found(ctx.src@, delimiter@, content_start as int);
            }
            let end = content_end + delimiter.len();
            let value = string_of(char_range(src, content_start, content_end).as_slice());
            let node = Node::Unparsed { value, span: Span::new(ctx.offs[start], ctx.offs[end]) };
            proof {
                lemma_nodes_view_push(acc@, node);
            }
            acc.push(node);
            st.at = end;
            Step::Continue
        },
    }
}

/// What the `{` at `start` begins.
#[verifier::spinoff_prover]
fn brace_step(
    ctx: &Ctx,
    expected: Option<&Vec<char>>,
    parent: Option<&Vec<char>>,
    acc: &mut Vec<Node>,
    st: &mut St,
    start: usize,
) -> (r: Step)
    requires
        ctx.wf(),
        located(old(st).diags@, ctx.name@, ctx.src@),
        old(st).at <= start < ctx.src@.len(),
        ctx.src@[start as int] == '{',
    ensures
        located(final(st).diags@, ctx.name@, ctx.src@),
        brace_done(
            ctx.src@,
            opt_chars(expected),
            opt_chars(parent),
            nodes_view(old(acc)@),
            old(st).state(),
            start as int,
            r,
            nodes_view(final(acc)@),
            final(st).state(),
        ),
    decreases ctx.src@.len() - old(st).at, 0int,
{
    let n = ctx.src.len();
    let src = ctx.src.as_slice();
    let comment_open = crate::text::chars_of("{!");
    let raw_open = crate::text::chars_of("{|");
    let ghost e = opt_chars(expected);
    let ghost p = opt_chars(parent);
    let ghost acc0 = nodes_view(acc@);
    let ghost st0 = st.state();
    if starts_with_at(src, start, comment_open.as_slice()) {
        return comment_step(ctx, expected, acc, st, start);
    }
    if starts_with_at(src, start, raw_open.as_slice()) {
        return unparsed_step(ctx, expected, acc, st, start);
    }
    if !opens_tag_exec(&ctx.src, start) {
        proof {
            assert(brace(ctx.src@, e, p, acc0, st0, start as int) == nodes(
                ctx.src@,
                e,
                p,
                push_text(ctx.src@, acc0, start as int, start + 1),
                moved(st0, start + 1),
            ));
        }
        add_text(ctx, acc, start, start + 1);
        st.at = start + 1;
        return Step::Continue;
    }
    match tag_end(src, start + 1) {
        None => {
            let span = Span::new(ctx.offs[start], ctx.offs[n]);
            report(ctx, st, "E_UNCLOSED_TAG", "unterminated tag".to_owned(), span);
            st.at = n;
            proof {
                assert(brace(ctx.src@, e, p, acc0, st0, start as int) == finish(
                    ctx.src@,
                    e,
                    acc0,
                    st.state(),
                ));
            }
            finish_exec(ctx, expected, st);
            Step::Done(None)
        },
        Some(end) => {
            proof {
                assert(brace(ctx.src@, e, p, acc0, st0, start as int) == tag(
                    ctx.src@,
                    e,
                    p,
                    acc0,
                    moved(st0, end + 1),
                    start as int,
                    end as int,
                ));
            }
            st.at = end + 1;
            tag_step(ctx, expected, parent, acc, st, start, end)
        },
    }
}

/// The nodes read until a closing tag, a block tag of `parent`, or the end.
#[verifier::spinoff_prover]
fn nodes_exec(ctx: &Ctx, expected: Option<&Vec<char>>, parent: Option<&Vec<char>>, st: &mut St) -> (r: (
    Vec<Node>,
    Option<Stop>,
))
    requires
        ctx.wf(),
        located(old(st).diags@, ctx.name@, ctx.src@),
        old(st).at <= ctx.src@.len(),
    ensures
        nodes(ctx.src@, opt_chars(expected), opt_chars(parent), Seq::empty(), old(st).state()) == (
            nodes_view(r.0@),
            stop_view(r.1),
            final(st).state(),
        ),
        located(final(st).diags@, ctx.name@, ctx.src@),
        old(st).at <= final(st).at <= ctx.src@.len(),
        r.1 is Some ==> old(st).at < final(st).at,
        stop_fits(ctx.src@, r.1),
    decreases ctx.src@.len() - old(st).at, 1int,
{
    let mut acc: Vec<Node> = Vec::new();
    let n = ctx.src.len();
    let open_brace: Vec<char> = vec!['{'];
    proof {
        assert(nodes_view(acc@) =~= Seq::<NodeV>::empty());
        assert(open_brace@ =~= seq!['{']);
    }
    loop
        invariant
            ctx.wf(),
            n == ctx.src@.len(),
            open_brace@ == seq!['{'],
            located(st.diags@, ctx.name@, ctx.src@),
            old(st).at <= st.at <= ctx.src@.len(),
            nodes(ctx.src@, opt_chars(expected), opt_chars(parent), Seq::empty(), old(st).state()) == nodes(
                ctx.src@,
                opt_chars(expected),
                opt_chars(parent),
                nodes_view(acc@),
                st.state(),
            ),
        decreases ctx.src@.len() - st.at,
    {
        if st.at >= n {
            finish_exec(ctx, expected, st);
            return (acc, None);
        }
        match find_index(ctx.src.as_slice(), open_brace.as_slice(), st.at) {
            None => {
                add_text(ctx, &mut acc, st.at, n);
                st.at = n;
                finish_exec(ctx, expected, st);
                return (acc, None);
            },
            Some(start) => {
                proof {
                    crate::compiler::scan::lemma_find_from_found(ctx.src@, open_brace@, st.at as int);
                    assert(ctx.src@.subrange(start as int, start + 1) == seq!['{']);
                    assert(ctx.src@[start as int] == ctx.src@.subrange(start as int, start + 1)[0]);
                }
                if start > st.at && ctx.src[start - 1] == '\\' {
                    add_text(ctx, &mut acc, st.at, start + 1);
                    st.at = start + 1;
                } else {
                    add_text(ctx, &mut acc, st.at, start);
                    match brace_step(ctx, expected, parent, &mut acc, st, start) {
                        Step::Continue => {},
                        Step::Done(stop) => {
                            return (acc, stop);
                        },
                    }
                }
            },
        }
    }
}

/// One block of a section opened by the tag `bt`: its arguments, its nodes
/// and, for a block of `include`, the body that continues after it.
#[verifier::spinoff_prover]
fn block_step(
    ctx: &Ctx,
    name: &Vec<char>,
    include_word: bool,
    bs: &mut Vec<Block>,
    bt: Tag,
    end: &mut usize,
    st: &mut St,
) -> (r: Option<Stop>)
    requires
        ctx.wf(),
        located(old(st).diags@, ctx.name@, ctx.src@),
        old(st).at <= ctx.src@.len(),
        include_word == (name@ == "include"@),
        old(bs)@.len() >= 1,
        bt.inner_start + utf8_len(bt.rest@) < bt.span.end,
        bt.span.end <= utf8_len(ctx.src@),
    ensures
        blocks(
            ctx.src@,
            name@,
            blocks_view(old(bs)@),
            Some(StopV::Block(bt@)),
            *old(end) as int,
            old(st).state(),
        ) == blocks(ctx.src@, name@, blocks_view(final(bs)@), stop_view(r), *final(end) as int, final(st).state()),
        r matches Some(Stop::Block(_)) ==> old(st).at < final(st).at,
        old(st).at <= final(st).at <= ctx.src@.len(),
        final(bs)@.len() >= 1,
        stop_fits(ctx.src@, r),
        located(final(st).diags@, ctx.name@, ctx.src@),
    decreases ctx.src@.len() - old(st).at, 3int,
{
    let bargs = arguments_exec(ctx, &bt.name, &bt.rest, bt.inner_start, st);
    let explicit = include_word && !is_word(bt.name.as_slice(), "else");
    let (bnodes, next) = if explicit {
        nodes_exec(ctx, Some(&bt.name), Some(name), st)
    } else {
        nodes_exec(ctx, Some(name), Some(name), st)
    };
    let end2 = match &next {
        Some(Stop::Close(_, sp)) => sp.end,
        Some(Stop::Block(t2)) => t2.span.end,
        None => ctx.offs[st.at],
    };
    let block = Block {
        name: string_of(bt.name.as_slice()),
        arguments: bargs,
        nodes: bnodes,
        span: Span::new(bt.span.start, end2),
    };
    proof {
        lemma_blocks_view_push(bs@, block);
    }
    bs.push(block);
    *end = end2;
    if explicit {
        let (cont, next2) = nodes_exec(ctx, Some(name), Some(name), st);
        if cont.len() > 0 {
            let ghost bv = bs@;
            let mut head = bs.remove(0);
            let ghost hv = head;
            let mut cont = cont;
            let ghost cv = cont@;
            head.nodes.append(&mut cont);
            proof {
                lemma_nodes_view_append(hv.nodes@, cv);
            }
            bs.insert(0, head);
            proof {
                lemma_blocks_view(bv);
                lemma_blocks_view(bs@);
                assert(blocks_view(bs@) =~= blocks_view(bv).update(
                    0,
                    BlockV { nodes: blocks_view(bv)[0].nodes + nodes_view(cv), ..blocks_view(bv)[0] },
                ));
            }
        }
        next2
    } else {
        next
    }
}

/// The section opened by `t`.
#[verifier::spinoff_prover]
fn section_exec(ctx: &Ctx, t: Tag, st: &mut St) -> (r: Section)
    requires
        ctx.wf(),
        located(old(st).diags@, ctx.name@, ctx.src@),
        old(st).at <= ctx.src@.len(),
        t.inner_start + utf8_len(t.rest@) < t.span.end,
        t.span.end <= utf8_len(ctx.src@),
    ensures
        section(ctx.src@, t@, old(st).state()) == (section_view(r), final(st).state()),
        located(final(st).diags@, ctx.name@, ctx.src@),
        old(st).at <= final(st).at <= ctx.src@.len(),
    decreases ctx.src@.len() - old(st).at, 4int,
{
    let ghost st0 = st.state();
    let args = arguments_exec(ctx, &t.name, &t.rest, t.inner_start, st);
    let ghost st1 = st.state();
    proof {
        assert(st1 == PState { at: st0.at, diags: arguments(t.name@, t.rest@, t.inner_start as int, st0.diags).1 });
    }
    if t.self_closing {
        let r = Section { name: string_of(t.name.as_slice()), arguments: args, blocks: Vec::new(), self_closing: true, span: t.span };
        proof {
            assert(blocks_view(r.blocks@) =~= Seq::<BlockV>::empty());
        }
        return r;
    }
    let (body, first_stop) = nodes_exec(ctx, Some(&t.name), Some(&t.name), st);
    proof {
        assert(nodes(ctx.src@, Some(t.name@), Some(t.name@), Seq::empty(), st1) == (
            nodes_view(body@),
            stop_view(first_stop),
            st.state(),
        ));
    }
    let first = Block { name: string_of(t.name.as_slice()), arguments: Vec::new(), nodes: body, span: t.span };
    let ghost st2 = st.state();
    let ghost first_v = block_view(first);
    let ghost stop0 = stop_view(first_stop);
    let mut bs: Vec<Block> = Vec::new();
    proof {
        lemma_blocks_view_push(bs@, first);
        assert(blocks_view(Seq::<Block>::empty()) =~= Seq::<BlockV>::empty());
        assert(arguments_view(first.arguments@) =~= Seq::<ArgumentV>::empty());
        assert(blocks_view(seq![first]) == seq![first_v]);
    }
    bs.push(first);
    let mut stop = first_stop;
    let mut end: usize = t.span.end;
    let include_word = is_word(t.name.as_slice(), "include");
    loop
        invariant
            ctx.wf(),
            located(st.diags@, ctx.name@, ctx.src@),
            old(st).at <= st2.at <= st.at <= ctx.src@.len(),
            bs@.len() >= 1,
            include_word == (t.name@ == "include"@),
            stop_fits(ctx.src@, stop),
            blocks(ctx.src@, t.name@, seq![first_v], stop0, t.span.end as int, st2) == blocks(
                ctx.src@,
                t.name@,
                blocks_view(bs@),
                stop_view(stop),
                end as int,
                st.state(),
            ),
        ensures
            !(stop matches Some(Stop::Block(_))),
        decreases ctx.src@.len() - st.at,
    {
        match stop {
            Some(Stop::Block(bt)) => {
                stop = block_step(ctx, &t.name, include_word, &mut bs, bt, &mut end, st);
                match stop {
                    Some(Stop::Block(_)) => {},
                    _ => {
                        break;
                    },
                }
            },
            _ => {
                break;
            },
        }
    }
    let final_end = match &stop {
        Some(Stop::Close(_, sp)) => sp.end,
        _ => end,
    };
    proof {
        assert(blocks(ctx.src@, t.name@, blocks_view(bs@), stop_view(stop), end as int, st.state()) == (
            blocks_view(bs@),
            stop_view(stop),
            end as int,
            st.state(),
        ));
    }
    Section {
        name: string_of(t.name.as_slice()),
        arguments: args,
        blocks: bs,
        self_closing: false,
        span: Span::new(t.span.start, final_end),
    }
}


/// The best-effort syntax tree and all diagnostics produced while analyzing a template.
#[derive(Debug, PartialEq)]
pub struct Analysis {
    pub template: Template,
    pub diagnostics: Vec<Diagnostic>,
}

/// Every error a template's source holds: syntax errors, then breaches of the
/// structural rules.
pub open spec fn analysis_errors(src: Seq<char>) -> Seq<ParseError> {
    parse_nodes(src).1 + validation(parse_nodes(src).0)
}

/// Parses and validates a template, keeping the syntax tree when errors are present.
pub fn analyze(name: &str, source: &str) -> (a: Analysis)
    requires
        fits(source@),
    ensures
        a.template.name@ == name@,
        a.template.source@ == source@,
        nodes_view(a.template.nodes@) == parse_nodes(source@).0,
        diags_view(a.diagnostics@) == analysis_errors(source@),
        located(a.diagnostics@, name@, source@),
{
    let src = crate::text::chars_of(source);
    let offs = crate::text::byte_offsets(&src);
    let ctx = Ctx { name, src, offs };
    let mut st = St { at: 0, diags: Vec::new() };
    proof {
        assert(diags_view(st.diags@) =~= Seq::<ParseError>::empty());
    }
    let (nodes, stop) = nodes_exec(&ctx, None, None, &mut st);
    match stop {
        Some(Stop::Close(close, span)) => {
            let message = framed("unexpected closing tag `", close.as_slice(), "`");
            report(&ctx, &mut st, "E_UNEXPECTED_CLOSE", message, span);
        },
        _ => {},
    }
    let ghost parsed = diags_view(st.diags@);
    let mut frags: Vec<Vec<char>> = Vec::new();
    proof {
        assert(seqs_view(frags@) =~= Seq::<Seq<char>>::empty());
    }
    let mut checked: Vec<Diagnostic> = Vec::new();
    proof {
        assert(diags_view(checked@) =~= Seq::<ParseError>::empty());
    }
    validate_nodes_exec(name, &ctx.src, &nodes, &mut frags, &mut checked);
    let ghost v = diags_view(checked@);
    let ghost cv = checked@;
    let mut diagnostics = st.diags;
    let ghost before = diagnostics@;
    diagnostics.append(&mut checked);
    proof {
        assert(diags_view(diagnostics@) =~= parsed + v);
        assert forall|i: int| 0 <= i < diagnostics@.len() implies diagnostic_for(
            #[trigger] diagnostics@[i],
            name@,
            source@,
            diag_view(diagnostics@[i]),
        ) by {
            if i < before.len() {
                assert(diagnostics@[i] == before[i]);
            } else {
                assert(diagnostics@[i] == cv[i - before.len()]);
            }
        }
    }
    let template = Template { name: name.to_owned(), source: source.to_owned(), nodes };
    Analysis { template, diagnostics }
}


/// Parses and validates a template: the tree when no error was found, every
/// error otherwise.
pub fn parse(name: &str, source: &str) -> (r: Result<Template, Vec<Diagnostic>>)
    requires
        fits(source@),
    ensures
        r is Ok <==> analysis_errors(source@).len() == 0,
        r matches Ok(t) ==> t.name@ == name@ && t.source@ == source@ && nodes_view(t.nodes@)
            == parse_nodes(source@).0,
        r matches Err(ds) ==> diags_view(ds@) == analysis_errors(source@) && located(
            ds@,
            name@,
            source@,
        ),
{
    let analysis = analyze(name, source);
    if analysis.diagnostics.len() == 0 {
        Ok(analysis.template)
    } else {
        Err(analysis.diagnostics)
    }
}


/// A template that `parse` accepts has no syntax error and breaks no
/// structural rule, so `validate` finds nothing in its tree.
pub proof fn law_accepted_templates_pass_validation(src: Seq<char>)
    requires
        analysis_errors(src).len() == 0,
    ensures
        parse_nodes(src).1.len() == 0,
        validation(parse_nodes(src).0).len() == 0,
{
}

} // verus!
