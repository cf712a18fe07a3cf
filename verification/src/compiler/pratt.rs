//! Precedence-climbing parser for template expressions.

use vstd::prelude::*;

use crate::compiler::expr::{
    clone_literal, expr_view, exprs_view, lemma_expr_view_span, lemma_exprs_view_push, BinaryOp,
    Expr, ExprV, Literal, LiteralV, UnaryOp,
};
use crate::compiler::diagnostic::{char_index_at, column_after, line_after, make_diag, Diagnostic};
use crate::compiler::lexer::{lex, lex_spec, offsets_from, offsets_of, tokens_view, Op, Tok, TokV, Token, TokenV};
use crate::compiler::span::Span;
use crate::text::{byte_at, fits, string_of, utf8_len};

verus! {

/// A syntax error: code, message and the byte range it covers.
pub struct ParseError {
    pub code: &'static str,
    pub message: Seq<char>,
    pub span: Span,
}

/// The kind of token `i`; positions past the end read as the end token.
pub open spec fn kind_at(ts: Seq<TokenV>, i: int) -> TokV {
    if 0 <= i < ts.len() {
        ts[i].kind
    } else {
        TokV::End
    }
}

/// The span of token `i`; positions past the end read as the last token's.
pub open spec fn span_at(ts: Seq<TokenV>, i: int) -> Span {
    if 0 <= i < ts.len() {
        ts[i].span
    } else if ts.len() > 0 {
        ts[ts.len() - 1].span
    } else {
        Span { start: 0, end: 0 }
    }
}

/// Textual operator aliases. There is no `or`: `||` and `?:` say which is meant.
pub open spec fn alias_op(w: Seq<char>) -> Option<Op> {
    if w == seq!['e', 'q'] || w == seq!['i', 's'] {
        Some(Op::EqEq)
    } else if w == seq!['n', 'e'] {
        Some(Op::NotEq)
    } else if w == seq!['g', 't'] {
        Some(Op::Greater)
    } else if w == seq!['g', 'e'] {
        Some(Op::GreaterEq)
    } else if w == seq!['l', 't'] {
        Some(Op::Less)
    } else if w == seq!['l', 'e'] {
        Some(Op::LessEq)
    } else if w == seq!['a', 'n', 'd'] {
        Some(Op::AndAnd)
    } else {
        None
    }
}

/// Binding powers (left, right) and operator of an infix operator.
pub open spec fn infix(op: Op) -> Option<(u8, u8, BinaryOp)> {
    match op {
        Op::Elvis => Some((1, 1, BinaryOp::Elvis)),
        Op::OrOr => Some((2, 3, BinaryOp::Or)),
        Op::AndAnd => Some((4, 5, BinaryOp::And)),
        Op::EqEq => Some((6, 7, BinaryOp::Equal)),
        Op::NotEq => Some((6, 7, BinaryOp::NotEqual)),
        Op::Less => Some((8, 9, BinaryOp::Less)),
        Op::LessEq => Some((8, 9, BinaryOp::LessEqual)),
        Op::Greater => Some((8, 9, BinaryOp::Greater)),
        Op::GreaterEq => Some((8, 9, BinaryOp::GreaterEqual)),
        Op::Plus => Some((10, 11, BinaryOp::Add)),
        Op::Minus => Some((10, 11, BinaryOp::Subtract)),
        Op::Star => Some((12, 13, BinaryOp::Multiply)),
        Op::Slash => Some((12, 13, BinaryOp::Divide)),
        Op::Percent => Some((12, 13, BinaryOp::Remainder)),
        _ => None,
    }
}

/// The infix operator that token kind `k` denotes, if any.
pub open spec fn infix_of(k: TokV) -> Option<(u8, u8, BinaryOp)> {
    match k {
        TokV::Op(op) => infix(op),
        TokV::Ident(w) => match alias_op(w) {
            Some(op) => infix(op),
            None => None,
        },
        _ => None,
    }
}

pub open spec fn perr(code: &'static str, message: Seq<char>, span: Span) -> ParseError {
    ParseError { code, message, span }
}

pub open spec fn join(a: Span, b: Span) -> Span {
    Span { start: a.start, end: b.end }
}

/// Parses an expression at token `at` whose operators bind at least `min`;
/// yields the expression and the position after it.
pub open spec fn parse_bp(ts: Seq<TokenV>, at: int, min: u8) -> Result<(ExprV, int), ParseError>
    decreases ts.len() - at, 1int,
{
    if at < 0 || at >= ts.len() {
        Err(perr("E_EXPR_EXPECTED", "expected expression"@, span_at(ts, at)))
    } else {
        let token = ts[at];
        let at1 = at + 1;
        let prefix: Result<(ExprV, int), ParseError> = match token.kind {
            TokV::Null => Ok((ExprV::Literal { value: LiteralV::Null, span: token.span }, at1)),
            TokV::Bool(v) => Ok((ExprV::Literal { value: LiteralV::Bool(v), span: token.span }, at1)),
            TokV::Str(v) => Ok((ExprV::Literal { value: LiteralV::String(v), span: token.span }, at1)),
            TokV::Int(v) => Ok((ExprV::Literal { value: LiteralV::Integer(v), span: token.span }, at1)),
            TokV::Float(v) => Ok((ExprV::Literal { value: LiteralV::Float(v), span: token.span }, at1)),
            TokV::Ident(name) => if kind_at(ts, at1) is Colon {
                match kind_at(ts, at1 + 1) {
                    TokV::Ident(second) => Ok((
                        ExprV::Namespace {
                            namespace: name,
                            name: second,
                            span: join(token.span, span_at(ts, at1 + 1)),
                        },
                        at1 + 2,
                    )),
                    _ => Err(perr(
                        "E_EXPR_NAMESPACE",
                        "expected name after namespace colon"@,
                        span_at(ts, at1 + 1),
                    )),
                }
            } else {
                Ok((ExprV::Identifier { name, span: token.span }, at1))
            },
            TokV::Op(Op::Bang) | TokV::Op(Op::Minus) => {
                let op = if token.kind == TokV::Op(Op::Bang) {
                    UnaryOp::Not
                } else {
                    UnaryOp::Negate
                };
                match parse_bp(ts, at1, 13) {
                    Err(e) => Err(e),
                    Ok((rhs, at2)) => Ok((
                        ExprV::Unary {
                            op,
                            expression: Box::new(rhs),
                            span: join(token.span, rhs.span_of()),
                        },
                        at2,
                    )),
                }
            },
            TokV::LParen => match parse_bp(ts, at1, 0) {
                Err(e) => Err(e),
                Ok((value, at2)) => if kind_at(ts, at2) is RParen {
                    Ok((value, at2 + 1))
                } else {
                    Err(perr("E_EXPR_PAREN", "expected `)`"@, span_at(ts, at2)))
                },
            },
            _ => Err(perr("E_EXPR_EXPECTED", "expected expression"@, token.span)),
        };
        match prefix {
            Err(e) => Err(e),
            Ok((lhs, at2)) => if at < at2 <= ts.len() {
                parse_loop(ts, lhs, at2, min)
            } else {
                Err(perr("E_EXPR_EXPECTED", "expected expression"@, token.span))
            },
        }
    }
}

/// Applies postfix and infix operators to `lhs` from token `at` on.
pub open spec fn parse_loop(ts: Seq<TokenV>, lhs: ExprV, at: int, min: u8) -> Result<
    (ExprV, int),
    ParseError,
>
    decreases ts.len() - at, 0int,
{
    if at < 0 || at >= ts.len() {
        Ok((lhs, at))
    } else {
        let k = ts[at].kind;
        let start = lhs.span_of();
        if k is Dot && 15 >= min {
            match kind_at(ts, at + 1) {
                TokV::Ident(name) => parse_loop(
                    ts,
                    ExprV::Member {
                        object: Box::new(lhs),
                        member: name,
                        span: join(start, span_at(ts, at + 1)),
                    },
                    at + 2,
                    min,
                ),
                _ => Err(perr("E_EXPR_MEMBER", "expected member name"@, span_at(ts, at + 1))),
            }
        } else if k is LParen && 15 >= min {
            let args = if kind_at(ts, at + 1) is RParen {
                Ok((Seq::<ExprV>::empty(), at + 1))
            } else {
                parse_args(ts, at + 1)
            };
            match args {
                Err(e) => Err(e),
                Ok((arguments, at2)) => if kind_at(ts, at2) is RParen {
                    if at < at2 < ts.len() {
                        parse_loop(
                            ts,
                            ExprV::Call {
                                callee: Box::new(lhs),
                                arguments,
                                span: join(start, span_at(ts, at2)),
                            },
                            at2 + 1,
                            min,
                        )
                    } else {
                        Ok((lhs, at))
                    }
                } else {
                    Err(perr("E_EXPR_CALL", "expected `)`"@, span_at(ts, at2)))
                },
            }
        } else if k is LBracket && 15 >= min {
            match parse_bp(ts, at + 1, 0) {
                Err(e) => Err(e),
                Ok((index, at2)) => if kind_at(ts, at2) is RBracket {
                    if at < at2 < ts.len() {
                        parse_loop(
                            ts,
                            ExprV::Index {
                                object: Box::new(lhs),
                                index: Box::new(index),
                                span: join(start, span_at(ts, at2)),
                            },
                            at2 + 1,
                            min,
                        )
                    } else {
                        Ok((lhs, at))
                    }
                } else {
                    Err(perr("E_EXPR_INDEX", "expected `]`"@, span_at(ts, at2)))
                },
            }
        } else if k == TokV::Op(Op::Safe) && 14 >= min {
            parse_loop(
                ts,
                ExprV::Safe { expression: Box::new(lhs), span: join(start, ts[at].span) },
                at + 1,
                min,
            )
        } else {
            match infix_of(k) {
                None => Ok((lhs, at)),
                Some((l, r, bop)) => if l < min {
                    Ok((lhs, at))
                } else {
                    match parse_bp(ts, at + 1, r) {
                        Err(e) => Err(e),
                        Ok((rhs, at2)) => if at < at2 <= ts.len() {
                            parse_loop(
                                ts,
                                ExprV::Binary {
                                    op: bop,
                                    left: Box::new(lhs),
                                    right: Box::new(rhs),
                                    span: join(start, rhs.span_of()),
                                },
                                at2,
                                min,
                            )
                        } else {
                            Ok((lhs, at))
                        },
                    }
                },
            }
        }
    }
}

/// Comma-separated call arguments from token `at`.
pub open spec fn parse_args(ts: Seq<TokenV>, at: int) -> Result<(Seq<ExprV>, int), ParseError>
    decreases ts.len() - at, 2int,
{
    if at < 0 || at >= ts.len() {
        Err(perr("E_EXPR_EXPECTED", "expected expression"@, span_at(ts, at)))
    } else {
        match parse_bp(ts, at, 0) {
            Err(e) => Err(e),
            Ok((a, at2)) => if kind_at(ts, at2) is Comma && at < at2 < ts.len() {
                match parse_args(ts, at2 + 1) {
                    Err(e) => Err(e),
                    Ok((rest, at3)) => Ok((seq![a] + rest, at3)),
                }
            } else {
                Ok((seq![a], at2))
            },
        }
    }
}

/// A syntax error found by the expression parser.
#[derive(Debug)]
pub struct ParseFailure {
    pub code: &'static str,
    pub message: String,
    pub span: Span,
}

pub open spec fn failure_matches(f: ParseFailure, e: ParseError) -> bool {
    f.code == e.code && f.message@ == e.message && f.span == e.span
}

pub open spec fn result_matches(r: Result<(Expr, usize), ParseFailure>, s: Result<(ExprV, int), ParseError>) -> bool {
    match s {
        Ok((e, at)) => r matches Ok((x, a)) && expr_view(x) == e && a == at,
        Err(e) => r matches Err(f) && failure_matches(f, e),
    }
}

fn fail(code: &'static str, message: &str, span: Span) -> (f: ParseFailure)
    ensures
        f.code == code,
        f.message@ == message@,
        f.span == span,
{
    ParseFailure { code, message: message.to_owned(), span }
}

fn span_at_exec(tokens: &Vec<Token>, i: usize) -> (r: Span)
    ensures
        r == span_at(tokens_view(tokens@), i as int),
{
    if i < tokens.len() {
        tokens[i].span
    } else if tokens.len() > 0 {
        tokens[tokens.len() - 1].span
    } else {
        Span::new(0, 0)
    }
}

fn is_kind(tokens: &Vec<Token>, i: usize, want: u8) -> (r: bool)
    ensures
        want == 0 ==> r == (kind_at(tokens_view(tokens@), i as int) is Colon),
        want == 1 ==> r == (kind_at(tokens_view(tokens@), i as int) is RParen),
        want == 2 ==> r == (kind_at(tokens_view(tokens@), i as int) is RBracket),
        want == 3 ==> r == (kind_at(tokens_view(tokens@), i as int) is Comma),
        want == 4 ==> r == (kind_at(tokens_view(tokens@), i as int) is End),
{
    if i >= tokens.len() {
        return want == 4;
    }
    match &tokens[i].kind {
        Tok::Colon => want == 0,
        Tok::RParen => want == 1,
        Tok::RBracket => want == 2,
        Tok::Comma => want == 3,
        Tok::End => want == 4,
        _ => false,
    }
}

fn alias_op_exec(w: &String) -> (r: Option<Op>)
    ensures
        r == alias_op(w@),
{
    let c = crate::text::chars_of(w.as_str());
    let s = c.as_slice();
    let eq = ['e', 'q'];
    let is = ['i', 's'];
    let ne = ['n', 'e'];
    let gt = ['g', 't'];
    let ge = ['g', 'e'];
    let lt = ['l', 't'];
    let le = ['l', 'e'];
    let and = ['a', 'n', 'd'];
    proof {
        assert(eq@ =~= seq!['e', 'q']);
        assert(is@ =~= seq!['i', 's']);
        assert(ne@ =~= seq!['n', 'e']);
        assert(gt@ =~= seq!['g', 't']);
        assert(ge@ =~= seq!['g', 'e']);
        assert(lt@ =~= seq!['l', 't']);
        assert(le@ =~= seq!['l', 'e']);
        assert(and@ =~= seq!['a', 'n', 'd']);
    }
    if crate::text::chars_eq(s, &eq) || crate::text::chars_eq(s, &is) {
        Some(Op::EqEq)
    } else if crate::text::chars_eq(s, &ne) {
        Some(Op::NotEq)
    } else if crate::text::chars_eq(s, &gt) {
        Some(Op::Greater)
    } else if crate::text::chars_eq(s, &ge) {
        Some(Op::GreaterEq)
    } else if crate::text::chars_eq(s, &lt) {
        Some(Op::Less)
    } else if crate::text::chars_eq(s, &le) {
        Some(Op::LessEq)
    } else if crate::text::chars_eq(s, &and) {
        Some(Op::AndAnd)
    } else {
        None
    }
}

fn infix_exec(op: Op) -> (r: Option<(u8, u8, BinaryOp)>)
    ensures
        r == infix(op),
{
    match op {
        Op::Elvis => Some((1, 1, BinaryOp::Elvis)),
        Op::OrOr => Some((2, 3, BinaryOp::Or)),
        Op::AndAnd => Some((4, 5, BinaryOp::And)),
        Op::EqEq => Some((6, 7, BinaryOp::Equal)),
        Op::NotEq => Some((6, 7, BinaryOp::NotEqual)),
        Op::Less => Some((8, 9, BinaryOp::Less)),
        Op::LessEq => Some((8, 9, BinaryOp::LessEqual)),
        Op::Greater => Some((8, 9, BinaryOp::Greater)),
        Op::GreaterEq => Some((8, 9, BinaryOp::GreaterEqual)),
        Op::Plus => Some((10, 11, BinaryOp::Add)),
        Op::Minus => Some((10, 11, BinaryOp::Subtract)),
        Op::Star => Some((12, 13, BinaryOp::Multiply)),
        Op::Slash => Some((12, 13, BinaryOp::Divide)),
        Op::Percent => Some((12, 13, BinaryOp::Remainder)),
        _ => None,
    }
}

fn infix_of_exec(k: &Tok) -> (r: Option<(u8, u8, BinaryOp)>)
    ensures
        r == infix_of(k@),
{
    match k {
        Tok::Op(op) => infix_exec(*op),
        Tok::Ident(w) => match alias_op_exec(w) {
            Some(op) => infix_exec(op),
            None => None,
        },
        _ => None,
    }
}

/// Parses an expression at token `at` whose operators bind at least `min`.
pub fn parse_bp_exec(tokens: &Vec<Token>, at: usize, min: u8) -> (r: Result<(Expr, usize), ParseFailure>)
    ensures
        result_matches(r, parse_bp(tokens_view(tokens@), at as int, min)),
    decreases tokens@.len() - at, 1int,
{
    let ghost ts = tokens_view(tokens@);
    if at >= tokens.len() {
        return Err(fail("E_EXPR_EXPECTED", "expected expression", span_at_exec(tokens, at)));
    }
    let token = &tokens[at];
    let at1 = at + 1;
    proof {
        assert(ts[at as int] == tokens@[at as int]@);
    }
    let prefix: Result<(Expr, usize), ParseFailure> = match &token.kind {
        Tok::Null => Ok((Expr::Literal { value: Literal::Null, span: token.span }, at1)),
        Tok::Bool(v) => Ok((Expr::Literal { value: Literal::Bool(*v), span: token.span }, at1)),
        Tok::Str(v) => Ok((Expr::Literal { value: Literal::String(v.clone()), span: token.span }, at1)),
        Tok::Int(v) => Ok((Expr::Literal { value: Literal::Integer(*v), span: token.span }, at1)),
        Tok::Float(v) => Ok((Expr::Literal { value: Literal::Float(v.clone()), span: token.span }, at1)),
        Tok::Ident(name) => {
            if is_kind(tokens, at1, 0) {
                if at1 + 1 < tokens.len() {
                    proof {
                        assert(ts[at1 + 1] == tokens@[at1 + 1]@);
                    }
                    match &tokens[at1 + 1].kind {
                        Tok::Ident(second) => Ok((
                            Expr::Namespace {
                                namespace: name.clone(),
                                name: second.clone(),
                                span: Span::new(token.span.start, tokens[at1 + 1].span.end),
                            },
                            at1 + 2,
                        )),
                        _ => Err(fail(
                            "E_EXPR_NAMESPACE",
                            "expected name after namespace colon",
                            span_at_exec(tokens, at1 + 1),
                        )),
                    }
                } else {
                    Err(fail(
                        "E_EXPR_NAMESPACE",
                        "expected name after namespace colon",
                        span_at_exec(tokens, at1 + 1),
                    ))
                }
            } else {
                Ok((Expr::Identifier { name: name.clone(), span: token.span }, at1))
            }
        },
        Tok::Op(Op::Bang) | Tok::Op(Op::Minus) => {
            let op = if matches!(token.kind, Tok::Op(Op::Bang)) {
                UnaryOp::Not
            } else {
                UnaryOp::Negate
            };
            match parse_bp_exec(tokens, at1, 13) {
                Err(e) => Err(e),
                Ok((rhs, at2)) => {
                    let end = rhs.span().end;
                    Ok((
                        Expr::Unary {
                            op,
                            expression: Box::new(rhs),
                            span: Span::new(token.span.start, end),
                        },
                        at2,
                    ))
                },
            }
        },
        Tok::LParen => match parse_bp_exec(tokens, at1, 0) {
            Err(e) => Err(e),
            Ok((value, at2)) => if is_kind(tokens, at2, 1) {
                Ok((value, at2 + 1))
            } else {
                Err(fail("E_EXPR_PAREN", "expected `)`", span_at_exec(tokens, at2)))
            },
        },
        _ => Err(fail("E_EXPR_EXPECTED", "expected expression", token.span)),
    };
    match prefix {
        Err(e) => Err(e),
        Ok((lhs, at2)) => if at < at2 && at2 <= tokens.len() {
            parse_loop_exec(tokens, lhs, at2, min)
        } else {
            Err(fail("E_EXPR_EXPECTED", "expected expression", token.span))
        },
    }
}

pub open spec fn args_prefix(acc: Seq<ExprV>, r: Result<(Seq<ExprV>, int), ParseError>) -> Result<
    (Seq<ExprV>, int),
    ParseError,
> {
    match r {
        Ok((rest, at)) => Ok((acc + rest, at)),
        Err(e) => Err(e),
    }
}

/// Comma-separated call arguments from token `at`.
#[verifier::loop_isolation(false)]
pub fn parse_args_exec(tokens: &Vec<Token>, at: usize) -> (r: Result<(Vec<Expr>, usize), ParseFailure>)
    ensures
        match parse_args(tokens_view(tokens@), at as int) {
            Ok((args, at2)) => r matches Ok((v, a)) && exprs_view(v@) == args && a == at2,
            Err(e) => r matches Err(f) && failure_matches(f, e),
        },
    decreases tokens@.len() - at, 2int,
{
    let ghost ts = tokens_view(tokens@);
    let mut args: Vec<Expr> = Vec::new();
    let mut cur = at;
    proof {
        match parse_args(ts, at as int) {
            Ok((xs, a)) => {
                assert(exprs_view(args@) =~= Seq::<ExprV>::empty());
                assert(Seq::<ExprV>::empty() + xs =~= xs);
            },
            Err(_) => {},
        }
    }
    loop
        invariant
            at <= cur,
            ts == tokens_view(tokens@),
            parse_args(ts, at as int) == args_prefix(exprs_view(args@), parse_args(ts, cur as int)),
        decreases tokens@.len() - cur,
    {
        if cur >= tokens.len() {
            return Err(fail("E_EXPR_EXPECTED", "expected expression", span_at_exec(tokens, cur)));
        }
        match parse_bp_exec(tokens, cur, 0) {
            Err(e) => {
                return Err(e);
            },
            Ok((a, at2)) => {
                let ghost av = expr_view(a);
                let ghost before = args@;
                proof {
                    lemma_exprs_view_push(before, a);
                }
                args.push(a);
                if is_kind(tokens, at2, 3) && cur < at2 && at2 < tokens.len() {
                    proof {
                        match parse_args(ts, at2 + 1) {
                            Ok((rest, a3)) => {
                                assert(exprs_view(before) + (seq![av] + rest) =~= exprs_view(
                                    before,
                                ).push(av) + rest);
                            },
                            Err(_) => {},
                        }
                    }
                    cur = at2 + 1;
                } else {
                    proof {
                        assert(exprs_view(before) + seq![av] =~= exprs_view(before).push(av));
                    }
                    return Ok((args, at2));
                }
            },
        }
    }
}

/// Applies postfix and infix operators to `lhs` from token `at` on.
#[verifier::loop_isolation(false)]
pub fn parse_loop_exec(tokens: &Vec<Token>, lhs: Expr, at: usize, min: u8) -> (r: Result<(Expr, usize), ParseFailure>)
    requires
        at <= tokens@.len(),
    ensures
        result_matches(r, parse_loop(tokens_view(tokens@), expr_view(lhs), at as int, min)),
    decreases tokens@.len() - at, 0int,
{
    let ghost ts = tokens_view(tokens@);
    let ghost goal = parse_loop(ts, expr_view(lhs), at as int, min);
    let mut lhs = lhs;
    let mut cur = at;
    loop
        invariant
            at <= cur <= tokens@.len(),
            ts == tokens_view(tokens@),
            goal == parse_loop(ts, expr_view(lhs), cur as int, min),
        decreases tokens@.len() - cur,
    {
        if cur >= tokens.len() {
            proof {
                assert(ts.len() == tokens@.len());
                assert(goal == Ok::<(ExprV, int), ParseError>((expr_view(lhs), cur as int)));
            }
            return Ok((lhs, cur));
        }
        proof {
            assert(ts[cur as int] == tokens@[cur as int]@);
            lemma_expr_view_span(lhs);
        }
        let start = lhs.span();
        let is_dot = matches!(tokens[cur].kind, Tok::Dot);
        let is_lparen = matches!(tokens[cur].kind, Tok::LParen);
        let is_lbracket = matches!(tokens[cur].kind, Tok::LBracket);
        let is_safe = matches!(tokens[cur].kind, Tok::Op(Op::Safe));
        if is_dot && 15 >= min {
            if cur + 1 < tokens.len() {
                proof {
                    assert(ts[cur + 1] == tokens@[cur + 1]@);
                }
                match &tokens[cur + 1].kind {
                    Tok::Ident(name) => {
                        lhs = Expr::Member {
                            object: Box::new(lhs),
                            member: name.clone(),
                            span: Span::new(start.start, tokens[cur + 1].span.end),
                        };
                        cur = cur + 2;
                    },
                    _ => {
                        return Err(
                            fail("E_EXPR_MEMBER", "expected member name", span_at_exec(tokens, cur + 1)),
                        );
                    },
                }
            } else {
                return Err(
                    fail("E_EXPR_MEMBER", "expected member name", span_at_exec(tokens, cur + 1)),
                );
            }
        } else if is_lparen && 15 >= min {
            let args = if is_kind(tokens, cur + 1, 1) {
                let empty: Vec<Expr> = Vec::new();
                proof {
                    assert(exprs_view(empty@) =~= Seq::<ExprV>::empty());
                }
                Ok((empty, cur + 1))
            } else {
                parse_args_exec(tokens, cur + 1)
            };
            match args {
                Err(e) => {
                    return Err(e);
                },
                Ok((arguments, at2)) => {
                    if is_kind(tokens, at2, 1) {
                        if cur < at2 && at2 < tokens.len() {
                            lhs = Expr::Call {
                                callee: Box::new(lhs),
                                arguments,
                                span: Span::new(start.start, tokens[at2].span.end),
                            };
                            cur = at2 + 1;
                        } else {
                            return Ok((lhs, cur));
                        }
                    } else {
                        return Err(fail("E_EXPR_CALL", "expected `)`", span_at_exec(tokens, at2)));
                    }
                },
            }
        } else if is_lbracket && 15 >= min {
            match parse_bp_exec(tokens, cur + 1, 0) {
                Err(e) => {
                    return Err(e);
                },
                Ok((index, at2)) => {
                    if is_kind(tokens, at2, 2) {
                        if cur < at2 && at2 < tokens.len() {
                            lhs = Expr::Index {
                                object: Box::new(lhs),
                                index: Box::new(index),
                                span: Span::new(start.start, tokens[at2].span.end),
                            };
                            cur = at2 + 1;
                        } else {
                            return Ok((lhs, cur));
                        }
                    } else {
                        return Err(fail("E_EXPR_INDEX", "expected `]`", span_at_exec(tokens, at2)));
                    }
                },
            }
        } else if is_safe && 14 >= min {
            lhs = Expr::Safe {
                expression: Box::new(lhs),
                span: Span::new(start.start, tokens[cur].span.end),
            };
            cur = cur + 1;
        } else {
            match infix_of_exec(&tokens[cur].kind) {
                None => {
                    return Ok((lhs, cur));
                },
                Some((l, r, bop)) => {
                    if l < min {
                        return Ok((lhs, cur));
                    }
                    match parse_bp_exec(tokens, cur + 1, r) {
                        Err(e) => {
                            return Err(e);
                        },
                        Ok((rhs, at2)) => {
                            if cur < at2 && at2 <= tokens.len() {
                                proof {
                                    lemma_expr_view_span(rhs);
                                }
                                let end = rhs.span().end;
                                lhs = Expr::Binary {
                                    op: bop,
                                    left: Box::new(lhs),
                                    right: Box::new(rhs),
                                    span: Span::new(start.start, end),
                                };
                                cur = at2;
                            } else {
                                return Ok((lhs, cur));
                            }
                        },
                    }
                },
            }
        }
    }
}

/// The expression that the text `t` denotes, where `t` starts at byte `base` of its source.
pub open spec fn parse_expression_spec(t: Seq<char>, base: int) -> Result<ExprV, ParseError> {
    match lex_spec(t, base, 0, t.len() as int) {
        Err(e) => Err(
            perr(
                e.code,
                e.message,
                Span {
                    start: (base + byte_at(t, e.start)) as usize,
                    end: (base + byte_at(t, e.end)) as usize,
                },
            ),
        ),
        Ok(ts) => match parse_bp(ts, 0, 0) {
            Err(e) => Err(e),
            Ok((x, at)) => if kind_at(ts, at) is End {
                Ok(x)
            } else {
                Err(perr("E_EXPR_TRAILING", "unexpected token after expression"@, span_at(ts, at)))
            },
        },
    }
}

/// The diagnostic that reports a syntax error in `s`.
pub open spec fn diagnostic_for(d: Diagnostic, name: Seq<char>, s: Seq<char>, e: ParseError) -> bool {
    &&& d.code == e.code
    &&& d.message@ == e.message
    &&& d.source_name@ == name
    &&& d.span == e.span
    &&& d.line == line_after(s.take(char_index_at(s, e.span.start as int)))
    &&& d.column == column_after(s.take(char_index_at(s, e.span.start as int)))
}

/// Parses the expression `text`, which starts at byte `base` of `source`; a syntax error
/// becomes a diagnostic located in `source`.
pub fn parse_expression(name: &str, source: &Vec<char>, text: &Vec<char>, base: usize) -> (r: Result<
    Expr,
    Diagnostic,
>)
    requires
        fits(source@),
        base + utf8_len(text@) < usize::MAX,
    ensures
        match parse_expression_spec(text@, base as int) {
            Ok(x) => r matches Ok(e) && expr_view(e) == x,
            Err(pe) => r matches Err(d) && diagnostic_for(d, name@, source@, pe),
        },
{
    let offs = offsets_from(text, base);
    match lex(text, &offs, 0, text.len()) {
        Err(f) => {
            let span = Span::new(offs[f.start], offs[f.end]);
            Err(make_diag(name, source, f.code, f.message, span))
        },
        Ok(tokens) => match parse_bp_exec(&tokens, 0, 0) {
            Err(f) => Err(make_diag(name, source, f.code, f.message, f.span)),
            Ok((x, at)) => if is_kind(&tokens, at, 4) {
                Ok(x)
            } else {
                let f = fail(
                    "E_EXPR_TRAILING",
                    "unexpected token after expression",
                    span_at_exec(&tokens, at),
                );
                Err(make_diag(name, source, f.code, f.message, f.span))
            },
        },
    }
}

} // verus!

verus! {

/// How tightly a binary operator binds, loosest first: `?:`, then `||`,
/// `&&`, equality, comparison, `+ -`, and `* / %` tightest.
pub open spec fn precedence(op: Op) -> Option<int> {
    match op {
        Op::Elvis => Some(0),
        Op::OrOr => Some(1),
        Op::AndAnd => Some(2),
        Op::EqEq | Op::NotEq => Some(3),
        Op::Less | Op::LessEq | Op::Greater | Op::GreaterEq => Some(4),
        Op::Plus | Op::Minus => Some(5),
        Op::Star | Op::Slash | Op::Percent => Some(6),
        _ => None,
    }
}

/// The operation a binary operator token stands for.
pub open spec fn operation(op: Op) -> BinaryOp {
    match op {
        Op::Elvis => BinaryOp::Elvis,
        Op::OrOr => BinaryOp::Or,
        Op::AndAnd => BinaryOp::And,
        Op::EqEq => BinaryOp::Equal,
        Op::NotEq => BinaryOp::NotEqual,
        Op::Less => BinaryOp::Less,
        Op::LessEq => BinaryOp::LessEqual,
        Op::Greater => BinaryOp::Greater,
        Op::GreaterEq => BinaryOp::GreaterEqual,
        Op::Plus => BinaryOp::Add,
        Op::Minus => BinaryOp::Subtract,
        Op::Star => BinaryOp::Multiply,
        Op::Slash => BinaryOp::Divide,
        _ => BinaryOp::Remainder,
    }
}

/// `e` is the integer literal `v`.
pub open spec fn is_int(e: ExprV, v: i64) -> bool {
    e matches ExprV::Literal { value: LiteralV::Integer(w), .. } && w == v
}

/// `e` applies `op` to `l` and `r`.
pub open spec fn is_binary(e: ExprV, op: BinaryOp, l: spec_fn(ExprV) -> bool, r: spec_fn(ExprV) -> bool) -> bool {
    e matches ExprV::Binary { op: o, left, right, .. } && o == op && l(*left) && r(*right)
}

/// `x o1 y o2 z` groups by precedence: the tighter operator takes its
/// operands first; of two operators of one precedence the left one does,
/// except `?:`, which groups to the right. So `a - b - c` is `(a - b) - c`,
/// `a + b * c` is `a + (b * c)`, and `a ?: b ?: c` is `a ?: (b ?: c)`.
pub proof fn law_binary_operators_group_by_precedence(
    x: i64,
    y: i64,
    z: i64,
    o1: Op,
    o2: Op,
    sx: Span,
    s1: Span,
    sy: Span,
    s2: Span,
    sz: Span,
    se: Span,
)
    requires
        precedence(o1) is Some,
        precedence(o2) is Some,
    ensures
        ({
            let ts = seq![
                TokenV { kind: TokV::Int(x), span: sx },
                TokenV { kind: TokV::Op(o1), span: s1 },
                TokenV { kind: TokV::Int(y), span: sy },
                TokenV { kind: TokV::Op(o2), span: s2 },
                TokenV { kind: TokV::Int(z), span: sz },
                TokenV { kind: TokV::End, span: se },
            ];
            let left_first = precedence(o1)->0 > precedence(o2)->0 || (precedence(o1)->0 == precedence(o2)->0
                && o1 != Op::Elvis);
            parse_bp(ts, 0, 0) matches Ok((e, at)) && at == 5 && if left_first {
                is_binary(
                    e,
                    operation(o2),
                    |l: ExprV| is_binary(l, operation(o1), |a: ExprV| is_int(a, x), |b: ExprV| is_int(b, y)),
                    |r: ExprV| is_int(r, z),
                )
            } else {
                is_binary(
                    e,
                    operation(o1),
                    |l: ExprV| is_int(l, x),
                    |r: ExprV| is_binary(r, operation(o2), |a: ExprV| is_int(a, y), |b: ExprV| is_int(b, z)),
                )
            }
        }),
{
    let ts = seq![
        TokenV { kind: TokV::Int(x), span: sx },
        TokenV { kind: TokV::Op(o1), span: s1 },
        TokenV { kind: TokV::Int(y), span: sy },
        TokenV { kind: TokV::Op(o2), span: s2 },
        TokenV { kind: TokV::Int(z), span: sz },
        TokenV { kind: TokV::End, span: se },
    ];
    let ex = ExprV::Literal { value: LiteralV::Integer(x), span: sx };
    let ey = ExprV::Literal { value: LiteralV::Integer(y), span: sy };
    let ez = ExprV::Literal { value: LiteralV::Integer(z), span: sz };
    let (l1, r1, b1) = infix(o1)->0;
    let (l2, r2, b2) = infix(o2)->0;
    assert(infix_of(ts[1].kind) == infix(o1));
    assert(infix_of(ts[3].kind) == infix(o2));
    assert(infix_of(ts[5].kind) is None);
    // z, then the end
    assert(parse_loop(ts, ez, 5, r2) == Ok::<(ExprV, int), ParseError>((ez, 5)));
    assert(parse_bp(ts, 4, r2) == Ok::<(ExprV, int), ParseError>((ez, 5)));
    if l2 < r1 {
        assert(parse_loop(ts, ey, 3, r1) == Ok::<(ExprV, int), ParseError>((ey, 3)));
        assert(parse_bp(ts, 2, r1) == Ok::<(ExprV, int), ParseError>((ey, 3)));
        let e1 = ExprV::Binary { op: b1, left: Box::new(ex), right: Box::new(ey), span: join(ex.span_of(), ey.span_of()) };
        assert(parse_loop(ts, ex, 1, 0) == parse_loop(ts, e1, 3, 0));
        let e2 = ExprV::Binary { op: b2, left: Box::new(e1), right: Box::new(ez), span: join(e1.span_of(), ez.span_of()) };
        assert(parse_loop(ts, e2, 5, 0) == Ok::<(ExprV, int), ParseError>((e2, 5)));
        assert(parse_loop(ts, e1, 3, 0) == parse_loop(ts, e2, 5, 0));
        assert(parse_bp(ts, 0, 0) == Ok::<(ExprV, int), ParseError>((e2, 5)));
    } else {
        let e1 = ExprV::Binary { op: b2, left: Box::new(ey), right: Box::new(ez), span: join(ey.span_of(), ez.span_of()) };
        assert(parse_loop(ts, e1, 5, r1) == Ok::<(ExprV, int), ParseError>((e1, 5)));
        assert(parse_loop(ts, ey, 3, r1) == parse_loop(ts, e1, 5, r1));
        assert(parse_bp(ts, 2, r1) == Ok::<(ExprV, int), ParseError>((e1, 5)));
        let e2 = ExprV::Binary { op: b1, left: Box::new(ex), right: Box::new(e1), span: join(ex.span_of(), e1.span_of()) };
        assert(parse_loop(ts, e2, 5, 0) == Ok::<(ExprV, int), ParseError>((e2, 5)));
        assert(parse_loop(ts, ex, 1, 0) == parse_loop(ts, e2, 5, 0));
        assert(parse_bp(ts, 0, 0) == Ok::<(ExprV, int), ParseError>((e2, 5)));
    }
}

} // verus!
