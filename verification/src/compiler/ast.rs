//! The owned syntax tree of a template.

use vstd::prelude::*;

use crate::compiler::expr::{expr_view, Expr, ExprV};
use crate::compiler::span::Span;

verus! {

#[derive(Debug, PartialEq)]
pub struct Template {
    pub name: String,
    pub source: String,
    pub nodes: Vec<Node>,
}

#[derive(Debug, PartialEq)]
pub enum Node {
    Text { value: String, span: Span },
    Unparsed { value: String, span: Span },
    Comment { value: String, span: Span },
    Output { expression: Expr, span: Span },
    Parameter(Parameter),
    Section(Section),
}

/// A parameter declaration `{@Type name}` or `{@Type name=default}`.
#[derive(Debug, PartialEq)]
pub struct Parameter {
    pub declared_type: String,
    pub name: String,
    pub default: Option<Expr>,
    pub span: Span,
}

#[derive(Debug, PartialEq)]
pub struct Section {
    pub name: String,
    pub arguments: Vec<Argument>,
    /// The first block is the section body and has the section's name.
    pub blocks: Vec<Block>,
    pub self_closing: bool,
    pub span: Span,
}

#[derive(Debug, PartialEq)]
pub struct Block {
    pub name: String,
    pub arguments: Vec<Argument>,
    pub nodes: Vec<Node>,
    pub span: Span,
}

#[derive(Debug, PartialEq)]
pub struct Argument {
    pub name: Option<String>,
    pub value: ArgumentValue,
    pub span: Span,
}

#[derive(Debug, PartialEq)]
pub enum ArgumentValue {
    Expression(Expr),
    String(String),
    Raw(String),
}

pub enum ArgumentValueV {
    Expression(ExprV),
    String(Seq<char>),
    Raw(Seq<char>),
}

pub struct ArgumentV {
    pub name: Option<Seq<char>>,
    pub value: ArgumentValueV,
    pub span: Span,
}

pub struct ParameterV {
    pub declared_type: Seq<char>,
    pub name: Seq<char>,
    pub default: Option<ExprV>,
    pub span: Span,
}

pub enum NodeV {
    Text { value: Seq<char>, span: Span },
    Unparsed { value: Seq<char>, span: Span },
    Comment { value: Seq<char>, span: Span },
    Output { expression: ExprV, span: Span },
    Parameter(ParameterV),
    Section(SectionV),
}

pub struct SectionV {
    pub name: Seq<char>,
    pub arguments: Seq<ArgumentV>,
    pub blocks: Seq<BlockV>,
    pub self_closing: bool,
    pub span: Span,
}

pub struct BlockV {
    pub name: Seq<char>,
    pub arguments: Seq<ArgumentV>,
    pub nodes: Seq<NodeV>,
    pub span: Span,
}

pub open spec fn opt_view(o: Option<String>) -> Option<Seq<char>> {
    match o {
        Some(s) => Some(s@),
        None => None,
    }
}

pub open spec fn argument_view(a: Argument) -> ArgumentV {
    ArgumentV {
        name: opt_view(a.name),
        value: match a.value {
            ArgumentValue::Expression(e) => ArgumentValueV::Expression(expr_view(e)),
            ArgumentValue::String(s) => ArgumentValueV::String(s@),
            ArgumentValue::Raw(s) => ArgumentValueV::Raw(s@),
        },
        span: a.span,
    }
}

pub open spec fn arguments_view(args: Seq<Argument>) -> Seq<ArgumentV> {
    args.map_values(|a: Argument| argument_view(a))
}

pub open spec fn parameter_view(p: Parameter) -> ParameterV {
    ParameterV {
        declared_type: p.declared_type@,
        name: p.name@,
        default: match p.default {
            Some(e) => Some(expr_view(e)),
            None => None,
        },
        span: p.span,
    }
}

pub open spec fn node_view(n: Node) -> NodeV
    decreases n,
{
    match n {
        Node::Text { value, span } => NodeV::Text { value: value@, span },
        Node::Unparsed { value, span } => NodeV::Unparsed { value: value@, span },
        Node::Comment { value, span } => NodeV::Comment { value: value@, span },
        Node::Output { expression, span } => NodeV::Output { expression: expr_view(expression), span },
        Node::Parameter(p) => NodeV::Parameter(parameter_view(p)),
        Node::Section(s) => NodeV::Section(section_view(s)),
    }
}

pub open spec fn section_view(s: Section) -> SectionV
    decreases s,
{
    SectionV {
        name: s.name@,
        arguments: arguments_view(s.arguments@),
        blocks: blocks_view(s.blocks@),
        self_closing: s.self_closing,
        span: s.span,
    }
}

pub open spec fn blocks_view(bs: Seq<Block>) -> Seq<BlockV>
    decreases bs,
{
    if bs.len() == 0 {
        Seq::empty()
    } else {
        seq![block_view(bs[0])] + blocks_view(bs.drop_first())
    }
}

pub open spec fn block_view(b: Block) -> BlockV
    decreases b,
{
    BlockV {
        name: b.name@,
        arguments: arguments_view(b.arguments@),
        nodes: nodes_view(b.nodes@),
        span: b.span,
    }
}

pub open spec fn nodes_view(ns: Seq<Node>) -> Seq<NodeV>
    decreases ns,
{
    if ns.len() == 0 {
        Seq::empty()
    } else {
        seq![node_view(ns[0])] + nodes_view(ns.drop_first())
    }
}

} // verus!
