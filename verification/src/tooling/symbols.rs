//! The outline of a template: its parameters, sections, blocks, fragments
//! and captures as a tree of symbols with byte ranges.

use vstd::prelude::*;

use crate::compiler::ast::{
    block_view, node_view, nodes_view, parameter_view, section_view, Node, NodeV, Parameter, ParameterV,
    Section, SectionV,
};
use crate::compiler::parser::lemma_nodes_view;
use crate::compiler::span::Span;
use crate::compiler::validate::static_text;
use crate::engine::plan::lemma_blocks_view;
use crate::text::{byte_offsets, chars_of, fits, utf8_len};
use crate::tooling::references::{opening_name_span, opening_name_span_exec};
use crate::tooling::spans::{
    clamp_end, offsets_of, rfind_byte, rfind_byte_exec, slice_of, slice_text, span_ok,
};

verus! {

/// What a symbol stands for.
#[derive(Debug, Clone, Copy, PartialEq, Eq, Structural)]
pub enum SymbolKind {
    /// A parameter declaration.
    Variable,
    /// A section.
    Namespace,
    /// A fragment or a capture.
    Object,
    /// A block of a section.
    Struct,
}

/// One entry of a template's outline.
#[derive(Debug)]
pub struct Symbol {
    pub name: String,
    pub detail: Option<String>,
    pub kind: SymbolKind,
    /// The whole construct.
    pub span: Span,
    /// The part to select: usually the name.
    pub selection: Span,
    pub children: Vec<Symbol>,
}

pub struct SymbolV {
    pub name: Seq<char>,
    pub detail: Option<Seq<char>>,
    pub kind: SymbolKind,
    pub span: Span,
    pub selection: Span,
    pub children: Seq<SymbolV>,
}

pub open spec fn symbol_view(s: Symbol) -> SymbolV
    decreases s,
{
    SymbolV {
        name: s.name@,
        detail: match s.detail {
            Some(d) => Some(d@),
            None => None,
        },
        kind: s.kind,
        span: s.span,
        selection: s.selection,
        children: symbols_view(s.children@),
    }
}

pub open spec fn symbols_view(ss: Seq<Symbol>) -> Seq<SymbolV>
    decreases ss,
{
    if ss.len() == 0 {
        Seq::empty()
    } else {
        seq![symbol_view(ss[0])] + symbols_view(ss.drop_first())
    }
}

pub proof fn lemma_symbols_view(ss: Seq<Symbol>)
    ensures
        symbols_view(ss).len() == ss.len(),
        forall|i: int| 0 <= i < ss.len() ==> #[trigger] symbols_view(ss)[i] == symbol_view(ss[i]),
    decreases ss.len(),
{
    if ss.len() > 0 {
        lemma_symbols_view(ss.drop_first());
        assert forall|i: int| 0 <= i < ss.len() implies #[trigger] symbols_view(ss)[i] == symbol_view(
            ss[i],
        ) by {
            if i > 0 {
                assert(ss.drop_first()[i - 1] == ss[i]);
            }
        }
    }
}

proof fn lemma_symbols_view_push(ss: Seq<Symbol>, s: Symbol)
    ensures
        symbols_view(ss.push(s)) == symbols_view(ss).push(symbol_view(s)),
{
    lemma_symbols_view(ss);
    lemma_symbols_view(ss.push(s));
    assert(symbols_view(ss.push(s)) =~= symbols_view(ss).push(symbol_view(s)));
}

// ---------------------------------------------------------------------------
// The outline, as a function of the syntax tree and the text
// ---------------------------------------------------------------------------

/// The range of `name` where it last occurs in the text of `span`; the whole
/// span when it does not.
pub open spec fn last_name_span(t: Seq<char>, span: Span, name: Seq<char>) -> Span {
    let s = slice_of(t, span.start as int, clamp_end(t, span.end as int));
    match rfind_byte(s, name) {
        Some(at) => Span { start: (span.start + at) as usize, end: (span.start + at + utf8_len(name)) as usize },
        None => span,
    }
}

pub open spec fn parameter_symbol(p: ParameterV, t: Seq<char>) -> SymbolV {
    SymbolV {
        name: p.name,
        detail: Some(p.declared_type),
        kind: SymbolKind::Variable,
        span: p.span,
        selection: last_name_span(t, p.span, p.name),
        children: Seq::empty(),
    }
}

/// A section's symbol over the symbols of its blocks: a fragment or a capture
/// is named by its identifier and selected at its first argument.
pub open spec fn section_symbol(s: SectionV, t: Seq<char>, children: Seq<SymbolV>) -> SymbolV {
    let declaration = opening_name_span(t, s.span, s.name);
    if s.name == "fragment"@ || s.name == "capture"@ {
        SymbolV {
            name: if s.arguments.len() > 0 && static_text(s.arguments[0]) is Some {
                static_text(s.arguments[0])->0
            } else {
                s.name
            },
            detail: Some(s.name),
            kind: SymbolKind::Object,
            span: s.span,
            selection: if s.arguments.len() > 0 {
                s.arguments[0].span
            } else {
                declaration
            },
            children,
        }
    } else {
        SymbolV {
            name: s.name,
            detail: Some("section"@),
            kind: SymbolKind::Namespace,
            span: s.span,
            selection: declaration,
            children,
        }
    }
}

/// Where the `j`-th block of a section ends: where the next one starts, or at
/// the section's end.
pub open spec fn block_end(s: SectionV, j: int) -> usize {
    if j + 1 < s.blocks.len() {
        s.blocks[j + 1].span.start
    } else {
        s.span.end
    }
}

/// The symbols of the parameters and sections among `ns[i..]`, in order.
pub open spec fn symbols_from(ns: Seq<NodeV>, i: int, t: Seq<char>) -> Seq<SymbolV>
    decreases ns, ns.len() - i,
{
    if i < 0 || i >= ns.len() {
        Seq::empty()
    } else {
        (match ns[i] {
            NodeV::Parameter(p) => seq![parameter_symbol(p, t)],
            NodeV::Section(s) => seq![section_symbol(s, t, block_symbols(s, 0, t))],
            _ => Seq::empty(),
        }) + symbols_from(ns, i + 1, t)
    }
}

/// The symbols of the blocks `s.blocks[j..]`, each over the symbols of its nodes.
pub open spec fn block_symbols(s: SectionV, j: int, t: Seq<char>) -> Seq<SymbolV>
    decreases s.blocks, s.blocks.len() - j,
{
    if j < 0 || j >= s.blocks.len() {
        Seq::empty()
    } else {
        seq![
            SymbolV {
                name: s.blocks[j].name,
                detail: Some("block"@),
                kind: SymbolKind::Struct,
                span: Span { start: s.blocks[j].span.start, end: block_end(s, j) },
                selection: opening_name_span(t, s.blocks[j].span, s.blocks[j].name),
                children: symbols_from(s.blocks[j].nodes, 0, t),
            },
        ] + block_symbols(s, j + 1, t)
    }
}

/// The ranges the outline reads from the text lie on character boundaries.
pub open spec fn outline_ok_from(ns: Seq<NodeV>, i: int, t: Seq<char>) -> bool
    decreases ns, ns.len() - i,
{
    if i < 0 || i >= ns.len() {
        true
    } else {
        (match ns[i] {
            NodeV::Parameter(p) => span_ok(t, p.span),
            NodeV::Section(s) => span_ok(t, s.span) && outline_blocks_ok(s, 0, t),
            _ => true,
        }) && outline_ok_from(ns, i + 1, t)
    }
}

pub open spec fn outline_blocks_ok(s: SectionV, j: int, t: Seq<char>) -> bool
    decreases s.blocks, s.blocks.len() - j,
{
    if j < 0 || j >= s.blocks.len() {
        true
    } else {
        span_ok(t, s.blocks[j].span) && outline_ok_from(s.blocks[j].nodes, 0, t) && outline_blocks_ok(
            s,
            j + 1,
            t,
        )
    }
}

/// The text fits the machine and every range the outline reads from it lies
/// on character boundaries.
pub open spec fn outline_inputs_ok(ns: Seq<NodeV>, t: Seq<char>) -> bool {
    fits(t) && outline_ok_from(ns, 0, t)
}

// ---------------------------------------------------------------------------
// Building the outline
// ---------------------------------------------------------------------------

fn last_name_span_exec(text: &Vec<char>, offs: &Vec<usize>, span: Span, name: &Vec<char>) -> (r: Span)
    requires
        offsets_of(text@, offs@),
        span_ok(text@, span),
    ensures
        r == last_name_span(text@, span, name@),
{
    let e = crate::tooling::spans::clamp_to(text, offs, span.end);
    let s = slice_text(text, offs, span.start, e);
    proof {
        crate::text::lemma_utf8_len_take_full(text@);
    }
    match rfind_byte_exec(&s, name) {
        Some(at) => {
            let n = crate::compiler::scan::byte_len(name.as_slice());
            Span::new(span.start + at, span.start + at + n)
        },
        None => span,
    }
}

fn parameter_symbol_exec(p: &Parameter, text: &Vec<char>, offs: &Vec<usize>) -> (r: Symbol)
    requires
        offsets_of(text@, offs@),
        span_ok(text@, p.span),
    ensures
        symbol_view(r) == parameter_symbol(parameter_view(*p), text@),
{
    let nm = chars_of(p.name.as_str());
    let selection = last_name_span_exec(text, offs, p.span, &nm);
    let r = Symbol {
        name: p.name.clone(),
        detail: Some(p.declared_type.clone()),
        kind: SymbolKind::Variable,
        span: p.span,
        selection,
        children: Vec::new(),
    };
    proof {
        assert(symbols_view(r.children@) =~= Seq::<SymbolV>::empty());
    }
    r
}

fn symbols_exec(nodes: &Vec<Node>, text: &Vec<char>, offs: &Vec<usize>) -> (r: Vec<Symbol>)
    requires
        offsets_of(text@, offs@),
        outline_ok_from(nodes_view(nodes@), 0, text@),
    ensures
        symbols_view(r@) == symbols_from(nodes_view(nodes@), 0, text@),
    decreases nodes,
{
    let ghost nv = nodes_view(nodes@);
    let ghost t = text@;
    proof {
        lemma_nodes_view(nodes@);
    }
    let mut out: Vec<Symbol> = Vec::new();
    let mut i: usize = 0;
    while i < nodes.len()
        invariant
            i <= nodes@.len(),
            nv == nodes_view(nodes@),
            nv.len() == nodes@.len(),
            forall|j: int| 0 <= j < nodes@.len() ==> #[trigger] nv[j] == node_view(nodes@[j]),
            t == text@,
            offsets_of(text@, offs@),
            outline_ok_from(nv, i as int, t),
            symbols_from(nv, 0, t) == symbols_view(out@) + symbols_from(nv, i as int, t),
        decreases nodes@.len() - i,
    {
        proof {
            assert(decreases_to!(nodes => nodes@[i as int]));
        }
        let ghost before = out@;
        match &nodes[i] {
            Node::Parameter(p) => {
                let s = parameter_symbol_exec(p, text, offs);
                out.push(s);
                proof {
                    lemma_symbols_view_push(before, s);
                    assert(symbols_from(nv, i as int, t) == seq![symbol_view(s)] + symbols_from(
                        nv,
                        i + 1,
                        t,
                    ));
                    assert(symbols_view(before) + (seq![symbol_view(s)] + symbols_from(nv, i + 1, t))
                        =~= symbols_view(out@) + symbols_from(nv, i + 1, t));
                }
            },
            Node::Section(section) => {
                let s = section_symbol_exec(section, text, offs);
                out.push(s);
                proof {
                    lemma_symbols_view_push(before, s);
                    assert(symbols_from(nv, i as int, t) == seq![symbol_view(s)] + symbols_from(
                        nv,
                        i + 1,
                        t,
                    ));
                    assert(symbols_view(before) + (seq![symbol_view(s)] + symbols_from(nv, i + 1, t))
                        =~= symbols_view(out@) + symbols_from(nv, i + 1, t));
                }
            },
            _ => {
                proof {
                    assert(symbols_from(nv, i as int, t) =~= symbols_from(nv, i + 1, t));
                }
            },
        }
        i = i + 1;
    }
    proof {
        assert(symbols_from(nv, i as int, t) =~= Seq::<SymbolV>::empty());
        assert(symbols_view(out@) + Seq::<SymbolV>::empty() =~= symbols_view(out@));
    }
    out
}

fn section_symbol_exec(s: &Section, text: &Vec<char>, offs: &Vec<usize>) -> (r: Symbol)
    requires
        offsets_of(text@, offs@),
        span_ok(text@, s.span),
        outline_blocks_ok(section_view(*s), 0, text@),
    ensures
        symbol_view(r) == section_symbol(section_view(*s), text@, block_symbols(section_view(*s), 0, text@)),
    decreases s,
{
    let ghost sv = section_view(*s);
    let ghost t = text@;
    proof {
        lemma_blocks_view(s.blocks@);
    }
    let mut children: Vec<Symbol> = Vec::new();
    let mut j: usize = 0;
    let nb = s.blocks.len();
    while j < nb
        invariant
            j <= nb,
            nb == s.blocks@.len(),
            sv == section_view(*s),
            sv.blocks.len() == s.blocks@.len(),
            forall|k: int| 0 <= k < s.blocks@.len() ==> #[trigger] sv.blocks[k] == block_view(s.blocks@[k]),
            t == text@,
            offsets_of(text@, offs@),
            outline_blocks_ok(sv, j as int, t),
            block_symbols(sv, 0, t) == symbols_view(children@) + block_symbols(sv, j as int, t),
        decreases nb - j,
    {
        proof {
            assert(decreases_to!(s => s.blocks));
            assert(decreases_to!(s.blocks => s.blocks@[j as int]));
            assert(decreases_to!(s.blocks@[j as int] => s.blocks@[j as int].nodes));
        }
        let b = &s.blocks[j];
        let inner = symbols_exec(&b.nodes, text, offs);
        let nm = chars_of(b.name.as_str());
        let selection = opening_name_span_exec(text, offs, b.span, &nm);
        let end = if j + 1 < nb {
            s.blocks[j + 1].span.start
        } else {
            s.span.end
        };
        let sym = Symbol {
            name: b.name.clone(),
            detail: Some("block".to_string()),
            kind: SymbolKind::Struct,
            span: Span::new(b.span.start, end),
            selection,
            children: inner,
        };
        let ghost before = children@;
        children.push(sym);
        proof {
            lemma_symbols_view_push(before, sym);
            assert(block_symbols(sv, j as int, t) == seq![symbol_view(sym)] + block_symbols(sv, j + 1, t));
            assert(symbols_view(before) + (seq![symbol_view(sym)] + block_symbols(sv, j + 1, t))
                =~= symbols_view(children@) + block_symbols(sv, j + 1, t));
        }
        j = j + 1;
    }
    proof {
        assert(block_symbols(sv, j as int, t) =~= Seq::<SymbolV>::empty());
        assert(symbols_view(children@) + Seq::<SymbolV>::empty() =~= symbols_view(children@));
    }
    let nm = chars_of(s.name.as_str());
    let declaration = opening_name_span_exec(text, offs, s.span, &nm);
    if crate::text::str_eq(s.name.as_str(), "fragment") || crate::text::str_eq(s.name.as_str(), "capture") {
        let first = if s.arguments.len() > 0 {
            Some(&s.arguments[0])
        } else {
            None
        };
        let name = match first {
            Some(a) => match a.static_text() {
                Some(id) => id.to_string(),
                None => s.name.clone(),
            },
            None => s.name.clone(),
        };
        let selection = match first {
            Some(a) => a.span,
            None => declaration,
        };
        Symbol {
            name,
            detail: Some(s.name.clone()),
            kind: SymbolKind::Object,
            span: s.span,
            selection,
            children,
        }
    } else {
        Symbol {
            name: s.name.clone(),
            detail: Some("section".to_string()),
            kind: SymbolKind::Namespace,
            span: s.span,
            selection: declaration,
            children,
        }
    }
}

/// The outline of a template: its parameters and sections in order, each
/// section over its blocks and each block over the symbols of its body.
pub fn document_symbols(nodes: &Vec<Node>, text: &str) -> (r: Vec<Symbol>)
    requires
        outline_inputs_ok(nodes_view(nodes@), text@),
    ensures
        symbols_view(r@) == symbols_from(nodes_view(nodes@), 0, text@),
{
    let t = chars_of(text);
    let offs = byte_offsets(&t);
    symbols_exec(nodes, &t, &offs)
}

fn span_fits(text: &Vec<char>, offs: &Vec<usize>, span: Span) -> (r: bool)
    requires
        offsets_of(text@, offs@),
    ensures
        r == span_ok(text@, span),
{
    let e = crate::tooling::spans::clamp_to(text, offs, span.end);
    crate::tooling::spans::slice_fits(text, offs, span.start, e)
}

fn outline_holds(nodes: &Vec<Node>, text: &Vec<char>, offs: &Vec<usize>) -> (r: bool)
    requires
        offsets_of(text@, offs@),
    ensures
        r == outline_ok_from(nodes_view(nodes@), 0, text@),
    decreases nodes,
{
    let ghost nv = nodes_view(nodes@);
    proof {
        lemma_nodes_view(nodes@);
    }
    let mut i: usize = 0;
    while i < nodes.len()
        invariant
            i <= nodes@.len(),
            nv == nodes_view(nodes@),
            nv.len() == nodes@.len(),
            forall|j: int| 0 <= j < nodes@.len() ==> #[trigger] nv[j] == node_view(nodes@[j]),
            offsets_of(text@, offs@),
            outline_ok_from(nv, 0, text@) == outline_ok_from(nv, i as int, text@),
        decreases nodes@.len() - i,
    {
        proof {
            assert(decreases_to!(nodes => nodes@[i as int]));
        }
        let ok = match &nodes[i] {
            Node::Parameter(p) => span_fits(text, offs, p.span),
            Node::Section(section) => span_fits(text, offs, section.span) && outline_section_holds(
                section,
                text,
                offs,
            ),
            _ => true,
        };
        if !ok {
            return false;
        }
        i = i + 1;
    }
    true
}

fn outline_section_holds(s: &Section, text: &Vec<char>, offs: &Vec<usize>) -> (r: bool)
    requires
        offsets_of(text@, offs@),
    ensures
        r == outline_blocks_ok(section_view(*s), 0, text@),
    decreases s,
{
    let ghost sv = section_view(*s);
    proof {
        lemma_blocks_view(s.blocks@);
    }
    let mut j: usize = 0;
    while j < s.blocks.len()
        invariant
            j <= s.blocks@.len(),
            sv == section_view(*s),
            sv.blocks.len() == s.blocks@.len(),
            forall|k: int| 0 <= k < s.blocks@.len() ==> #[trigger] sv.blocks[k] == block_view(s.blocks@[k]),
            offsets_of(text@, offs@),
            outline_blocks_ok(sv, 0, text@) == outline_blocks_ok(sv, j as int, text@),
        decreases s.blocks@.len() - j,
    {
        proof {
            assert(decreases_to!(s => s.blocks));
            assert(decreases_to!(s.blocks => s.blocks@[j as int]));
            assert(decreases_to!(s.blocks@[j as int] => s.blocks@[j as int].nodes));
        }
        if !span_fits(text, offs, s.blocks[j].span) || !outline_holds(&s.blocks[j].nodes, text, offs) {
            return false;
        }
        j = j + 1;
    }
    true
}

/// Whether `document_symbols` can take these nodes and this text: the text
/// fits the machine and every range the outline reads lies on character
/// boundaries.
pub fn outline_inputs_hold(nodes: &Vec<Node>, text: &str) -> (r: bool)
    ensures
        r == outline_inputs_ok(nodes_view(nodes@), text@),
{
    let n = crate::text::str_byte_len(text);
    if n == usize::MAX {
        return false;
    }
    let t = chars_of(text);
    let offs = byte_offsets(&t);
    outline_holds(nodes, &t, &offs)
}

} // verus!
