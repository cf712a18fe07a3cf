//! Deep copies of syntax trees.

use vstd::prelude::*;

use crate::compiler::ast::{
    argument_view, arguments_view, block_view, blocks_view, node_view, nodes_view, parameter_view,
    section_view, Argument, ArgumentValue, Block, Node, Parameter, Section,
};
use crate::compiler::expr::{clone_expr, expr_view};
use crate::compiler::parser::lemma_nodes_view;
use crate::engine::plan::lemma_blocks_view;

verus! {

/// A copy of an argument.
pub fn copy_argument(a: &Argument) -> (r: Argument)
    ensures
        argument_view(r) == argument_view(*a),
{
    let value = match &a.value {
        ArgumentValue::Expression(e) => ArgumentValue::Expression(clone_expr(e)),
        ArgumentValue::String(s) => ArgumentValue::String(s.clone()),
        ArgumentValue::Raw(s) => ArgumentValue::Raw(s.clone()),
    };
    let name = match &a.name {
        Some(n) => Some(n.clone()),
        None => None,
    };
    Argument { name, value, span: a.span }
}

/// A copy of a list of arguments.
pub fn copy_arguments(args: &Vec<Argument>) -> (r: Vec<Argument>)
    ensures
        arguments_view(r@) == arguments_view(args@),
{
    let mut r: Vec<Argument> = Vec::new();
    let mut i: usize = 0;
    while i < args.len()
        invariant
            i <= args@.len(),
            r@.len() == i,
            forall|j: int| 0 <= j < i ==> argument_view(#[trigger] r@[j]) == argument_view(args@[j]),
        decreases args@.len() - i,
    {
        r.push(copy_argument(&args[i]));
        i = i + 1;
    }
    proof {
        assert(arguments_view(r@) =~= arguments_view(args@));
    }
    r
}

/// A copy of a parameter declaration.
pub fn copy_parameter(p: &Parameter) -> (r: Parameter)
    ensures
        parameter_view(r) == parameter_view(*p),
{
    let default = match &p.default {
        Some(e) => Some(clone_expr(e)),
        None => None,
    };
    Parameter { declared_type: p.declared_type.clone(), name: p.name.clone(), default, span: p.span }
}

/// A copy of a node.
pub fn copy_node(n: &Node) -> (r: Node)
    ensures
        node_view(r) == node_view(*n),
    decreases n,
{
    match n {
        Node::Text { value, span } => Node::Text { value: value.clone(), span: *span },
        Node::Unparsed { value, span } => Node::Unparsed { value: value.clone(), span: *span },
        Node::Comment { value, span } => Node::Comment { value: value.clone(), span: *span },
        Node::Output { expression, span } => Node::Output { expression: clone_expr(expression), span: *span },
        Node::Parameter(p) => Node::Parameter(copy_parameter(p)),
        Node::Section(s) => Node::Section(copy_section(s)),
    }
}

/// A copy of a section with everything it holds.
pub fn copy_section(s: &Section) -> (r: Section)
    ensures
        section_view(r) == section_view(*s),
    decreases s,
{
    let blocks = copy_blocks(&s.blocks);
    Section {
        name: s.name.clone(),
        arguments: copy_arguments(&s.arguments),
        blocks,
        self_closing: s.self_closing,
        span: s.span,
    }
}

fn copy_blocks(bs: &Vec<Block>) -> (r: Vec<Block>)
    ensures
        blocks_view(r@) == blocks_view(bs@),
    decreases bs,
{
    let mut r: Vec<Block> = Vec::new();
    let mut i: usize = 0;
    while i < bs.len()
        invariant
            i <= bs@.len(),
            r@.len() == i,
            forall|j: int| 0 <= j < i ==> block_view(#[trigger] r@[j]) == block_view(bs@[j]),
        decreases bs@.len() - i,
    {
        proof {
            assert(decreases_to!(bs => bs@[i as int]));
        }
        r.push(copy_block(&bs[i]));
        i = i + 1;
    }
    proof {
        lemma_blocks_view(r@);
        lemma_blocks_view(bs@);
        assert(blocks_view(r@) =~= blocks_view(bs@));
    }
    r
}

/// A copy of a block.
pub fn copy_block(b: &Block) -> (r: Block)
    ensures
        block_view(r) == block_view(*b),
    decreases b,
{
    let nodes = copy_nodes(&b.nodes);
    Block { name: b.name.clone(), arguments: copy_arguments(&b.arguments), nodes, span: b.span }
}

/// A copy of a list of nodes.
pub fn copy_nodes(ns: &Vec<Node>) -> (r: Vec<Node>)
    ensures
        nodes_view(r@) == nodes_view(ns@),
    decreases ns,
{
    let mut r: Vec<Node> = Vec::new();
    let mut i: usize = 0;
    while i < ns.len()
        invariant
            i <= ns@.len(),
            r@.len() == i,
            forall|j: int| 0 <= j < i ==> node_view(#[trigger] r@[j]) == node_view(ns@[j]),
        decreases ns@.len() - i,
    {
        proof {
            assert(decreases_to!(ns => ns@[i as int]));
        }
        r.push(copy_node(&ns[i]));
        i = i + 1;
    }
    proof {
        lemma_nodes_view(r@);
        lemma_nodes_view(ns@);
        assert(nodes_view(r@) =~= nodes_view(ns@));
    }
    r
}

} // verus!
