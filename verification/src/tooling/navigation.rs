//! Hover and go-to-definition over a template's semantic index.

use vstd::prelude::*;

use crate::compiler::ast::opt_view;
use crate::compiler::span::Span;
use crate::tooling::semantic::{
    construct_markdown, construct_markdown_of, construct_spans, decl_name_spans, decl_view, declaration_markdown_of,
    decls_view, last_covering, reference_spans, resolve_of, DeclV, SemanticIndex,
};

verus! {

/// What a hover shows: Markdown over a range of the document.
#[derive(Debug)]
pub struct HoverText {
    pub span: Span,
    pub markdown: String,
}

/// The hover at `cursor`: the help of a built-in section or block whose tag
/// name is there (nothing for any other tag); else the declaration whose
/// name is there; else the declaration that the name used there refers to.
pub open spec fn hover_of(x: SemanticIndex, cursor: int) -> Option<(Span, Seq<char>)> {
    match last_covering(construct_spans(x.constructs@), cursor, x.constructs@.len() as int) {
        Some(k) => match construct_markdown_of(x.constructs@[k].name@, opt_view(x.constructs@[k].parent)) {
            Some(m) => Some((x.constructs@[k].name_span, m)),
            None => None,
        },
        None => match last_covering(decl_name_spans(x.declarations@), cursor, x.declarations@.len() as int) {
            Some(k) => Some(
                (x.declarations@[k].name_span, declaration_markdown_of(decl_view(x.declarations@[k]))),
            ),
            None => match last_covering(reference_spans(x.references@), cursor, x.references@.len() as int) {
                Some(k) => match resolve_of(decls_view(x.declarations@), x.references@[k].name@, cursor) {
                    Some(d) => Some((x.references@[k].span, declaration_markdown_of(d))),
                    None => None,
                },
                None => None,
            },
        },
    }
}

/// Where go-to-definition leads from `cursor`: nowhere from a section or
/// block tag; from a declared name to itself; from a used name to the name
/// of the declaration it refers to.
pub open spec fn definition_of(x: SemanticIndex, cursor: int) -> Option<Span> {
    if last_covering(construct_spans(x.constructs@), cursor, x.constructs@.len() as int) is Some {
        None
    } else {
        match last_covering(decl_name_spans(x.declarations@), cursor, x.declarations@.len() as int) {
            Some(k) => Some(x.declarations@[k].name_span),
            None => match last_covering(reference_spans(x.references@), cursor, x.references@.len() as int) {
                Some(k) => match resolve_of(decls_view(x.declarations@), x.references@[k].name@, cursor) {
                    Some(d) => Some(d.name_span),
                    None => None,
                },
                None => None,
            },
        }
    }
}

/// The hover at `cursor`.
pub fn hover(index: &SemanticIndex, cursor: usize) -> (r: Option<HoverText>)
    ensures
        match hover_of(*index, cursor as int) {
            Some((span, m)) => r matches Some(h) && h.span == span && h.markdown@ == m,
            None => r is None,
        },
{
    match index.construct_at(cursor) {
        Some(c) => {
            let parent = match &c.parent {
                Some(p) => Some(p.as_str()),
                None => None,
            };
            return match construct_markdown(c.name.as_str(), parent) {
                Some(m) => Some(HoverText { span: c.name_span, markdown: m }),
                None => None,
            };
        },
        None => {},
    }
    match index.declaration_at(cursor) {
        Some(d) => {
            return Some(HoverText { span: d.name_span, markdown: d.markdown() });
        },
        None => {},
    }
    match index.reference_at(cursor) {
        Some(reference) => match index.resolve(reference.name.as_str(), cursor) {
            Some(d) => Some(HoverText { span: reference.span, markdown: d.markdown() }),
            None => None,
        },
        None => None,
    }
}

/// Where go-to-definition leads from `cursor`.
pub fn definition(index: &SemanticIndex, cursor: usize) -> (r: Option<Span>)
    ensures
        r == definition_of(*index, cursor as int),
{
    if index.construct_at(cursor).is_some() {
        return None;
    }
    match index.declaration_at(cursor) {
        Some(d) => Some(d.name_span),
        None => match index.reference_at(cursor) {
            Some(reference) => match index.resolve(reference.name.as_str(), cursor) {
                Some(d) => Some(d.name_span),
                None => None,
            },
            None => None,
        },
    }
}

/// The declaration that a cursor designates: the one whose name is there,
/// else the one that the name used there refers to.
pub open spec fn designated(x: SemanticIndex, cursor: int) -> Option<DeclV> {
    match last_covering(decl_name_spans(x.declarations@), cursor, x.declarations@.len() as int) {
        Some(k) => Some(decl_view(x.declarations@[k])),
        None => match last_covering(reference_spans(x.references@), cursor, x.references@.len() as int) {
            Some(k) => resolve_of(decls_view(x.declarations@), x.references@[k].name@, cursor),
            None => None,
        },
    }
}

/// Hover and go-to-definition share one index, so they cannot disagree:
/// away from section and block tags, both answer exactly when the cursor
/// designates a declaration; hover then describes that declaration and
/// go-to-definition leads to its name.
pub proof fn law_hover_and_definition_agree(x: SemanticIndex, cursor: int)
    requires
        last_covering(construct_spans(x.constructs@), cursor, x.constructs@.len() as int) is None,
    ensures
        match designated(x, cursor) {
            Some(d) => definition_of(x, cursor) == Some(d.name_span) && (hover_of(x, cursor) matches Some(
                (_, m),
            ) && m == declaration_markdown_of(d)),
            None => definition_of(x, cursor) is None && hover_of(x, cursor) is None,
        },
{
}

} // verus!
