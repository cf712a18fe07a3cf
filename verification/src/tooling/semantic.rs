//! What names a template declares and uses, and where: the index behind
//! completion, hover and go-to-definition.

use vstd::prelude::*;

use crate::compiler::ast::{
    argument_view, arguments_view, block_view, blocks_view, node_view, nodes_view, parameter_view,
    section_view, Argument, ArgumentV, ArgumentValue, ArgumentValueV, Block, BlockV, Node, NodeV,
    Section, SectionV,
};
use crate::compiler::expr::{expr_view, exprs_view, Expr, ExprV};
use crate::compiler::outline::{block_names_of, is_built_in, is_built_in_name};
use crate::compiler::parser::lemma_nodes_view;
use crate::compiler::span::Span;
use crate::compiler::validate::static_text;
use crate::engine::nesting::{first_at, split_first, split_first_dollar};
use crate::engine::plan::{find_named, first_named, lemma_blocks_view};
use crate::text::{byte_at, byte_offsets, chars_of, fits, lemma_utf8_len_concat, push_str, str_eq, utf8_len};
use crate::tooling::references::{opening_name_span, opening_name_span_exec, slice_ok};
use crate::tooling::spans::{
    clamp_end, closing_start, closing_start_exec, named_argument_span, named_argument_span_exec,
    offsets_of, opening_end, opening_end_exec, parameter_name_span, parameter_name_span_exec, span_ok,
    value_span, value_span_exec,
};

verus! {

// ---------------------------------------------------------------------------
// The index
// ---------------------------------------------------------------------------

/// How a name is declared.
#[derive(Clone, Copy, Debug, PartialEq, Eq, Structural)]
pub enum DeclarationKind {
    Parameter,
    LoopAlias,
    LocalBinding,
}

pub open spec fn kind_detail(k: DeclarationKind) -> Seq<char> {
    match k {
        DeclarationKind::Parameter => "parameter"@,
        DeclarationKind::LoopAlias => "loop alias"@,
        DeclarationKind::LocalBinding => "local binding"@,
    }
}

impl DeclarationKind {
    /// How the declaration is described to the user.
    pub fn detail(self) -> (r: &'static str)
        ensures
            r@ == kind_detail(self),
    {
        match self {
            DeclarationKind::Parameter => "parameter",
            DeclarationKind::LoopAlias => "loop alias",
            DeclarationKind::LocalBinding => "local binding",
        }
    }
}

/// A declared name: where it is written, what declares it, and the range of
/// the document it is visible in, at a nesting depth.
#[derive(Debug)]
pub struct Declaration {
    pub name: String,
    pub name_span: Span,
    pub kind: DeclarationKind,
    pub parameter_type: Option<String>,
    pub scope: Span,
    pub depth: usize,
}

/// A section or block tag whose name can be hovered.
#[derive(Debug)]
pub struct Construct {
    pub name: String,
    pub name_span: Span,
    pub parent: Option<String>,
}

/// A use of a name in an expression.
#[derive(Debug)]
pub struct Reference {
    pub name: String,
    pub span: Span,
}

/// A fragment or capture declared by the template.
#[derive(Debug)]
pub struct FragmentDeclaration {
    pub name: String,
    pub name_span: Span,
}

/// A template that this one names: by a static include, or as a user tag.
#[derive(Debug)]
pub enum TemplateReference {
    Include { target: String, target_span: Span, fragment: Option<(String, Span)> },
    Tag { target: String, span: Span },
}

/// The names a template declares and uses.
#[derive(Debug)]
pub struct SemanticIndex {
    pub declarations: Vec<Declaration>,
    pub constructs: Vec<Construct>,
    pub references: Vec<Reference>,
    pub fragments: Vec<FragmentDeclaration>,
    pub template_references: Vec<TemplateReference>,
}

pub struct DeclV {
    pub name: Seq<char>,
    pub name_span: Span,
    pub kind: DeclarationKind,
    pub parameter_type: Option<Seq<char>>,
    pub scope: Span,
    pub depth: int,
}

pub open spec fn decl_view(d: Declaration) -> DeclV {
    DeclV {
        name: d.name@,
        name_span: d.name_span,
        kind: d.kind,
        parameter_type: match d.parameter_type {
            Some(t) => Some(t@),
            None => None,
        },
        scope: d.scope,
        depth: d.depth as int,
    }
}

pub open spec fn decls_view(ds: Seq<Declaration>) -> Seq<DeclV> {
    ds.map_values(|d: Declaration| decl_view(d))
}

pub open spec fn decl_refs_view(ds: Seq<&Declaration>) -> Seq<DeclV> {
    ds.map_values(|d: &Declaration| decl_view(*d))
}

/// The cursor is inside the span.
pub open spec fn covers(span: Span, cursor: int) -> bool {
    span.start <= cursor < span.end
}

fn contains(span: Span, cursor: usize) -> (r: bool)
    ensures
        r == covers(span, cursor as int),
{
    span.start <= cursor && cursor < span.end
}

// ---------------------------------------------------------------------------
// Descriptions
// ---------------------------------------------------------------------------

pub open spec fn declaration_detail_of(d: DeclV) -> Seq<char> {
    match d.parameter_type {
        Some(t) => kind_detail(d.kind) + ": "@ + t,
        None => kind_detail(d.kind),
    }
}

pub open spec fn declaration_markdown_of(d: DeclV) -> Seq<char> {
    match d.parameter_type {
        Some(t) => "**"@ + kind_detail(d.kind) + "** `"@ + d.name + "`\n\nType: `"@ + t + "`"@,
        None => "**"@ + kind_detail(d.kind) + "** `"@ + d.name + "`"@,
    }
}

impl Declaration {
    /// The completion detail: the kind, and a parameter's type.
    pub fn detail(&self) -> (r: String)
        ensures
            r@ == declaration_detail_of(decl_view(*self)),
    {
        let mut s = self.kind.detail().to_string();
        match &self.parameter_type {
            Some(t) => {
                push_str(&mut s, ": ");
                push_str(&mut s, t.as_str());
            },
            None => {},
        }
        s
    }

    /// The hover text: the kind in bold, the name as code, and a parameter's type.
    pub fn markdown(&self) -> (r: String)
        ensures
            r@ == declaration_markdown_of(decl_view(*self)),
    {
        let mut s = "**".to_string();
        push_str(&mut s, self.kind.detail());
        push_str(&mut s, "** `");
        push_str(&mut s, self.name.as_str());
        match &self.parameter_type {
            Some(t) => {
                push_str(&mut s, "`\n\nType: `");
                push_str(&mut s, t.as_str());
                push_str(&mut s, "`");
            },
            None => {
                push_str(&mut s, "`");
            },
        }
        s
    }
}

/// The syntax and description shown for a built-in section.
pub open spec fn section_help(name: Seq<char>) -> Option<(Seq<char>, Seq<char>)> {
    if name == "if"@ {
        Some(("{#if condition}…{/if}"@, "Conditionally renders its body."@))
    } else if name == "for"@ {
        Some(("{#for item in items}…{/for}"@, "Iterates with an explicit alias."@))
    } else if name == "each"@ {
        Some(("{#each items}…{/each}"@, "Iterates with the implicit `it` alias."@))
    } else if name == "let"@ {
        Some(("{#let name=value}…{/let}"@, "Introduces named local bindings in its primary block."@))
    } else if name == "set"@ {
        Some(("{#set name=value}…{/set}"@, "Introduces named local bindings in its primary block."@))
    } else if name == "with"@ {
        Some(("{#with value}…{/with}"@, "Renders its body with a value."@))
    } else if name == "when"@ {
        Some(("{#when value}{#is expected}…{/when}"@, "Selects a matching case block."@))
    } else if name == "switch"@ {
        Some(("{#switch value}…{/switch}"@, "Selects a matching case block."@))
    } else if name == "include"@ {
        Some(("{#include 'template-id' /}"@, "Includes a template."@))
    } else if name == "insert"@ {
        Some(("{#insert name}…{/insert}"@, "Declares overridable inserted content."@))
    } else if name == "nested-content"@ {
        Some(("{#nested-content /}"@, "Renders nested tag content."@))
    } else if name == "fragment"@ {
        Some(("{#fragment name}…{/fragment}"@, "Declares a named fragment."@))
    } else if name == "capture"@ {
        Some(("{#capture name}…{/capture}"@, "Captures rendered content."@))
    } else {
        None
    }
}

/// The hover text of a section tag, or of a block tag inside `parent`: the
/// syntax as a code block and what it does; nothing for names that are not
/// built in.
pub open spec fn construct_markdown_of(name: Seq<char>, parent: Option<Seq<char>>) -> Option<Seq<char>> {
    match parent {
        Some(p) => if !block_names_of(p).contains(name) {
            None
        } else {
            let syntax = if p == "when"@ && (name == "is"@ || name == "case"@) {
                "{#"@ + name + " value}"@
            } else {
                "{#"@ + name + "}"@
            };
            Some("```radiant\n"@ + syntax + "\n```\n\n`"@ + name + "` block in the `"@ + p + "` section."@)
        },
        None => if !is_built_in(name) {
            None
        } else {
            match section_help(name) {
                Some((syntax, description)) => Some("```radiant\n"@ + syntax + "\n```\n\n"@ + description),
                None => None,
            }
        },
    }
}

fn section_help_exec(name: &str) -> (r: Option<(&'static str, &'static str)>)
    ensures
        match section_help(name@) {
            Some((a, b)) => r matches Some((x, y)) && x@ == a && y@ == b,
            None => r is None,
        },
{
    if str_eq(name, "if") {
        Some(("{#if condition}…{/if}", "Conditionally renders its body."))
    } else if str_eq(name, "for") {
        Some(("{#for item in items}…{/for}", "Iterates with an explicit alias."))
    } else if str_eq(name, "each") {
        Some(("{#each items}…{/each}", "Iterates with the implicit `it` alias."))
    } else if str_eq(name, "let") {
        Some(("{#let name=value}…{/let}", "Introduces named local bindings in its primary block."))
    } else if str_eq(name, "set") {
        Some(("{#set name=value}…{/set}", "Introduces named local bindings in its primary block."))
    } else if str_eq(name, "with") {
        Some(("{#with value}…{/with}", "Renders its body with a value."))
    } else if str_eq(name, "when") {
        Some(("{#when value}{#is expected}…{/when}", "Selects a matching case block."))
    } else if str_eq(name, "switch") {
        Some(("{#switch value}…{/switch}", "Selects a matching case block."))
    } else if str_eq(name, "include") {
        Some(("{#include 'template-id' /}", "Includes a template."))
    } else if str_eq(name, "insert") {
        Some(("{#insert name}…{/insert}", "Declares overridable inserted content."))
    } else if str_eq(name, "nested-content") {
        Some(("{#nested-content /}", "Renders nested tag content."))
    } else if str_eq(name, "fragment") {
        Some(("{#fragment name}…{/fragment}", "Declares a named fragment."))
    } else if str_eq(name, "capture") {
        Some(("{#capture name}…{/capture}", "Captures rendered content."))
    } else {
        None
    }
}

fn is_block_name(parent: &str, name: &str) -> (r: bool)
    ensures
        r == block_names_of(parent@).contains(name@),
{
    let names = crate::compiler::outline::built_in_block_names(parent);
    let ghost nv = names@.map_values(|s: &str| s@);
    let mut i: usize = 0;
    while i < names.len()
        invariant
            i <= names@.len(),
            nv == names@.map_values(|s: &str| s@),
            nv == block_names_of(parent@),
            forall|j: int| 0 <= j < i ==> #[trigger] nv[j] != name@,
        decreases names@.len() - i,
    {
        if str_eq(names[i], name) {
            proof {
                assert(nv[i as int] == name@);
            }
            return true;
        }
        i = i + 1;
    }
    false
}

/// The hover text of a section or block tag.
pub fn construct_markdown(name: &str, parent: Option<&str>) -> (r: Option<String>)
    ensures
        match construct_markdown_of(
            name@,
            match parent {
                Some(p) => Some(p@),
                None => None,
            },
        ) {
            Some(m) => r matches Some(s) && s@ == m,
            None => r is None,
        },
{
    match parent {
        Some(p) => {
            if !is_block_name(p, name) {
                return None;
            }
            let mut syntax = "{#".to_string();
            push_str(&mut syntax, name);
            if str_eq(p, "when") && (str_eq(name, "is") || str_eq(name, "case")) {
                push_str(&mut syntax, " value}");
            } else {
                push_str(&mut syntax, "}");
            }
            let mut s = "```radiant\n".to_string();
            push_str(&mut s, syntax.as_str());
            push_str(&mut s, "\n```\n\n`");
            push_str(&mut s, name);
            push_str(&mut s, "` block in the `");
            push_str(&mut s, p);
            push_str(&mut s, "` section.");
            Some(s)
        },
        None => {
            if !is_built_in_name(name) {
                return None;
            }
            match section_help_exec(name) {
                Some((syntax, description)) => {
                    let mut s = "```radiant\n".to_string();
                    push_str(&mut s, syntax);
                    push_str(&mut s, "\n```\n\n");
                    push_str(&mut s, description);
                    Some(s)
                },
                None => None,
            }
        },
    }
}

// ---------------------------------------------------------------------------
// Queries
// ---------------------------------------------------------------------------

/// The first position at or after `i` of a declaration named `name`.
pub open spec fn named_from(vis: Seq<DeclV>, name: Seq<char>, i: int) -> Option<int>
    decreases vis.len() - i,
{
    if i < 0 || i >= vis.len() {
        None
    } else if vis[i].name == name {
        Some(i)
    } else {
        named_from(vis, name, i + 1)
    }
}

/// Adds a declaration to the visible ones: it takes the place of a visible
/// declaration of the same name that is not nested deeper, and is otherwise
/// added after them.
pub open spec fn visible_step(vis: Seq<DeclV>, d: DeclV) -> Seq<DeclV> {
    match named_from(vis, d.name, 0) {
        Some(k) => if d.depth >= vis[k].depth {
            vis.update(k, d)
        } else {
            vis
        },
        None => vis.push(d),
    }
}

/// The declarations visible at `cursor`: of those whose scope covers it, the
/// innermost of each name (the later one among equally deep), in the order
/// names were first declared.
pub open spec fn visible_of(ds: Seq<DeclV>, cursor: int) -> Seq<DeclV>
    decreases ds.len(),
{
    if ds.len() == 0 {
        Seq::empty()
    } else {
        let vis = visible_of(ds.drop_last(), cursor);
        if covers(ds.last().scope, cursor) {
            visible_step(vis, ds.last())
        } else {
            vis
        }
    }
}

/// What `name` refers to at `cursor`.
pub open spec fn resolve_of(ds: Seq<DeclV>, name: Seq<char>, cursor: int) -> Option<DeclV> {
    let vis = visible_of(ds, cursor);
    match named_from(vis, name, 0) {
        Some(k) => Some(vis[k]),
        None => None,
    }
}

/// The last position below `i` whose span covers `cursor`.
pub open spec fn last_covering(spans: Seq<Span>, cursor: int, i: int) -> Option<int>
    decreases i,
{
    if i <= 0 || i > spans.len() {
        None
    } else if covers(spans[i - 1], cursor) {
        Some(i - 1)
    } else {
        last_covering(spans, cursor, i - 1)
    }
}

/// The first position at or after `i` whose span covers `cursor`.
pub open spec fn first_covering(spans: Seq<Span>, cursor: int, i: int) -> Option<int>
    decreases spans.len() - i,
{
    if i < 0 || i >= spans.len() {
        None
    } else if covers(spans[i], cursor) {
        Some(i)
    } else {
        first_covering(spans, cursor, i + 1)
    }
}

pub open spec fn decl_name_spans(ds: Seq<Declaration>) -> Seq<Span> {
    ds.map_values(|d: Declaration| d.name_span)
}

pub open spec fn construct_spans(cs: Seq<Construct>) -> Seq<Span> {
    cs.map_values(|c: Construct| c.name_span)
}

pub open spec fn reference_spans(rs: Seq<Reference>) -> Seq<Span> {
    rs.map_values(|r: Reference| r.span)
}

pub open spec fn fragment_spans(fs: Seq<FragmentDeclaration>) -> Seq<Span> {
    fs.map_values(|f: FragmentDeclaration| f.name_span)
}

/// A template reference covers the cursor with its target or fragment name.
pub open spec fn reference_covers(t: TemplateReference, cursor: int) -> bool {
    match t {
        TemplateReference::Include { target_span, fragment, .. } => covers(target_span, cursor) || (
        fragment matches Some((_, span)) && covers(span, cursor)),
        TemplateReference::Tag { span, .. } => covers(span, cursor),
    }
}

pub open spec fn first_template_reference(ts: Seq<TemplateReference>, cursor: int, i: int) -> Option<int>
    decreases ts.len() - i,
{
    if i < 0 || i >= ts.len() {
        None
    } else if reference_covers(ts[i], cursor) {
        Some(i)
    } else {
        first_template_reference(ts, cursor, i + 1)
    }
}

proof fn lemma_named_from_skip(vis: Seq<DeclV>, name: Seq<char>, j: int)
    requires
        0 <= j <= vis.len(),
        forall|k: int| 0 <= k < j ==> #[trigger] vis[k].name != name,
    ensures
        named_from(vis, name, 0) == named_from(vis, name, j),
    decreases j,
{
    if j > 0 {
        lemma_named_from_skip(vis, name, j - 1);
    }
}

proof fn lemma_named_from_found(vis: Seq<DeclV>, name: Seq<char>, i: int)
    requires
        0 <= i,
    ensures
        match named_from(vis, name, i) {
            Some(k) => i <= k < vis.len() && vis[k].name == name,
            None => forall|j: int| i <= j < vis.len() ==> #[trigger] vis[j].name != name,
        },
    decreases vis.len() - i,
{
    if i < vis.len() && vis[i].name != name {
        lemma_named_from_found(vis, name, i + 1);
    }
}

/// Each name is visible at most once, and only in its scope.
pub open spec fn visible_ok(vis: Seq<DeclV>, cursor: int) -> bool {
    &&& forall|i: int| 0 <= i < vis.len() ==> covers(#[trigger] vis[i].scope, cursor)
    &&& forall|i: int, j: int| 0 <= i < j < vis.len() ==> (#[trigger] vis[i]).name != (#[trigger] vis[j]).name
}

proof fn lemma_visible_ok(ds: Seq<DeclV>, cursor: int)
    ensures
        visible_ok(visible_of(ds, cursor), cursor),
    decreases ds.len(),
{
    if ds.len() > 0 {
        let vis = visible_of(ds.drop_last(), cursor);
        lemma_visible_ok(ds.drop_last(), cursor);
        let d = ds.last();
        if covers(d.scope, cursor) {
            lemma_named_from_found(vis, d.name, 0);
            match named_from(vis, d.name, 0) {
                Some(k) => {
                    if d.depth >= vis[k].depth {
                        let after = vis.update(k, d);
                        assert forall|i: int, j: int| 0 <= i < j < after.len() implies (#[trigger] after[i]).name
                            != (#[trigger] after[j]).name by {
                            if i != k && j != k {
                                assert(after[i] == vis[i] && after[j] == vis[j]);
                            } else if i == k {
                                assert(after[j] == vis[j]);
                            } else {
                                assert(after[i] == vis[i]);
                            }
                        }
                        assert forall|i: int| 0 <= i < after.len() implies covers(#[trigger] after[i].scope, cursor) by {
                            if i != k {
                                assert(after[i] == vis[i]);
                            }
                        }
                    }
                },
                None => {
                    let after = vis.push(d);
                    assert forall|i: int, j: int| 0 <= i < j < after.len() implies (#[trigger] after[i]).name
                        != (#[trigger] after[j]).name by {
                        assert(after[i] == vis[i]);
                        if j < vis.len() {
                            assert(after[j] == vis[j]);
                        }
                    }
                    assert forall|i: int| 0 <= i < after.len() implies covers(#[trigger] after[i].scope, cursor) by {
                        if i < vis.len() {
                            assert(after[i] == vis[i]);
                        }
                    }
                },
            }
        }
    }
}

/// No feature reports a declaration outside its lexical scope: what is
/// visible at a cursor is in scope there and holds each name once, and a
/// name resolves to a declaration of that name whose scope holds the cursor.
pub proof fn law_declarations_stay_in_scope(ds: Seq<DeclV>, name: Seq<char>, cursor: int)
    ensures
        visible_ok(visible_of(ds, cursor), cursor),
        resolve_of(ds, name, cursor) matches Some(d) ==> d.name == name && covers(d.scope, cursor),
{
    lemma_visible_ok(ds, cursor);
    lemma_named_from_found(visible_of(ds, cursor), name, 0);
}

fn named_position(vis: &Vec<&Declaration>, name: &str) -> (r: Option<usize>)
    ensures
        match r {
            Some(k) => named_from(decl_refs_view(vis@), name@, 0) == Some(k as int) && k < vis@.len(),
            None => named_from(decl_refs_view(vis@), name@, 0) is None,
        },
{
    let ghost vv = decl_refs_view(vis@);
    let mut k: usize = 0;
    while k < vis.len()
        invariant
            k <= vis@.len(),
            vv == decl_refs_view(vis@),
            forall|j: int| 0 <= j < k ==> #[trigger] vv[j].name != name@,
        decreases vis@.len() - k,
    {
        if str_eq(vis[k].name.as_str(), name) {
            proof {
                lemma_named_from_skip(vv, name@, k as int);
            }
            return Some(k);
        }
        k = k + 1;
    }
    proof {
        lemma_named_from_skip(vv, name@, k as int);
    }
    None
}

impl SemanticIndex {
    /// The declarations visible at `cursor`, one per name.
    pub fn visible_declarations(&self, cursor: usize) -> (r: Vec<&Declaration>)
        ensures
            decl_refs_view(r@) == visible_of(decls_view(self.declarations@), cursor as int),
    {
        let ghost dv = decls_view(self.declarations@);
        let mut visible: Vec<&Declaration> = Vec::new();
        let mut i: usize = 0;
        proof {
            assert(dv.take(0) =~= Seq::<DeclV>::empty());
            assert(decl_refs_view(visible@) =~= Seq::<DeclV>::empty());
        }
        while i < self.declarations.len()
            invariant
                i <= self.declarations@.len(),
                dv == decls_view(self.declarations@),
                decl_refs_view(visible@) == visible_of(dv.take(i as int), cursor as int),
            decreases self.declarations@.len() - i,
        {
            let d = &self.declarations[i];
            proof {
                assert(dv.take(i + 1).drop_last() =~= dv.take(i as int));
                assert(dv.take(i + 1).last() == decl_view(*d));
            }
            if contains(d.scope, cursor) {
                let ghost before = decl_refs_view(visible@);
                match named_position(&visible, d.name.as_str()) {
                    Some(k) => {
                        if d.depth >= visible[k].depth {
                            visible.set(k, d);
                            proof {
                                assert(decl_refs_view(visible@) =~= before.update(k as int, decl_view(*d)));
                            }
                        }
                    },
                    None => {
                        visible.push(d);
                        proof {
                            assert(decl_refs_view(visible@) =~= before.push(decl_view(*d)));
                        }
                    },
                }
            }
            i = i + 1;
        }
        proof {
            assert(dv.take(self.declarations@.len() as int) =~= dv);
        }
        visible
    }

    /// The declaration that `name` refers to at `cursor`.
    pub fn resolve(&self, name: &str, cursor: usize) -> (r: Option<&Declaration>)
        ensures
            match resolve_of(decls_view(self.declarations@), name@, cursor as int) {
                Some(d) => r matches Some(x) && decl_view(*x) == d,
                None => r is None,
            },
    {
        let visible = self.visible_declarations(cursor);
        match named_position(&visible, name) {
            Some(k) => Some(visible[k]),
            None => None,
        }
    }

    /// The last declaration whose name is at `cursor`.
    pub fn declaration_at(&self, cursor: usize) -> (r: Option<&Declaration>)
        ensures
            match last_covering(decl_name_spans(self.declarations@), cursor as int, self.declarations@.len() as int) {
                Some(k) => r matches Some(x) && *x == self.declarations@[k],
                None => r is None,
            },
    {
        let ghost sp = decl_name_spans(self.declarations@);
        let n = self.declarations.len();
        let mut i: usize = n;
        while i > 0
            invariant
                i <= n,
                n == self.declarations@.len(),
                sp == decl_name_spans(self.declarations@),
                last_covering(sp, cursor as int, n as int) == last_covering(sp, cursor as int, i as int),
            decreases i,
        {
            if contains(self.declarations[i - 1].name_span, cursor) {
                return Some(&self.declarations[i - 1]);
            }
            i = i - 1;
        }
        None
    }

    /// The last section or block tag whose name is at `cursor`.
    pub fn construct_at(&self, cursor: usize) -> (r: Option<&Construct>)
        ensures
            match last_covering(construct_spans(self.constructs@), cursor as int, self.constructs@.len() as int) {
                Some(k) => r matches Some(x) && *x == self.constructs@[k],
                None => r is None,
            },
    {
        let ghost sp = construct_spans(self.constructs@);
        let n = self.constructs.len();
        let mut i: usize = n;
        while i > 0
            invariant
                i <= n,
                n == self.constructs@.len(),
                sp == construct_spans(self.constructs@),
                last_covering(sp, cursor as int, n as int) == last_covering(sp, cursor as int, i as int),
            decreases i,
        {
            if contains(self.constructs[i - 1].name_span, cursor) {
                return Some(&self.constructs[i - 1]);
            }
            i = i - 1;
        }
        None
    }

    /// The last use of a name at `cursor`.
    pub fn reference_at(&self, cursor: usize) -> (r: Option<&Reference>)
        ensures
            match last_covering(reference_spans(self.references@), cursor as int, self.references@.len() as int) {
                Some(k) => r matches Some(x) && *x == self.references@[k],
                None => r is None,
            },
    {
        let ghost sp = reference_spans(self.references@);
        let n = self.references.len();
        let mut i: usize = n;
        while i > 0
            invariant
                i <= n,
                n == self.references@.len(),
                sp == reference_spans(self.references@),
                last_covering(sp, cursor as int, n as int) == last_covering(sp, cursor as int, i as int),
            decreases i,
        {
            if contains(self.references[i - 1].span, cursor) {
                return Some(&self.references[i - 1]);
            }
            i = i - 1;
        }
        None
    }

    /// The first fragment whose name is at `cursor`.
    pub fn fragment_at(&self, cursor: usize) -> (r: Option<&FragmentDeclaration>)
        ensures
            match first_covering(fragment_spans(self.fragments@), cursor as int, 0) {
                Some(k) => r matches Some(x) && *x == self.fragments@[k],
                None => r is None,
            },
    {
        let ghost sp = fragment_spans(self.fragments@);
        let mut i: usize = 0;
        while i < self.fragments.len()
            invariant
                i <= self.fragments@.len(),
                sp == fragment_spans(self.fragments@),
                first_covering(sp, cursor as int, 0) == first_covering(sp, cursor as int, i as int),
            decreases self.fragments@.len() - i,
        {
            if contains(self.fragments[i].name_span, cursor) {
                return Some(&self.fragments[i]);
            }
            i = i + 1;
        }
        None
    }

    /// The first template reference whose target or fragment name is at `cursor`.
    pub fn template_reference_at(&self, cursor: usize) -> (r: Option<&TemplateReference>)
        ensures
            match first_template_reference(self.template_references@, cursor as int, 0) {
                Some(k) => r matches Some(x) && *x == self.template_references@[k],
                None => r is None,
            },
    {
        let mut i: usize = 0;
        while i < self.template_references.len()
            invariant
                i <= self.template_references@.len(),
                first_template_reference(self.template_references@, cursor as int, 0)
                    == first_template_reference(self.template_references@, cursor as int, i as int),
            decreases self.template_references@.len() - i,
        {
            let hit = match &self.template_references[i] {
                TemplateReference::Include { target_span, fragment, .. } => contains(*target_span, cursor)
                    || match fragment {
                    Some((_, span)) => contains(*span, cursor),
                    None => false,
                },
                TemplateReference::Tag { span, .. } => contains(*span, cursor),
            };
            if hit {
                return Some(&self.template_references[i]);
            }
            i = i + 1;
        }
        None
    }

    /// The uses of names that refer to `declaration`.
    pub fn references_to(&self, declaration: &Declaration) -> (r: Vec<&Reference>)
        ensures
            r@.len() <= self.references@.len(),
            forall|k: int| 0 <= k < r@.len() ==> (match resolve_of(
                decls_view(self.declarations@),
                (#[trigger] r@[k]).name@,
                r@[k].span.start as int,
            ) {
                Some(d) => d.name_span == declaration.name_span,
                None => false,
            }),
            r@ == referring(self, declaration.name_span, self.references@.len() as int),
    {
        let mut out: Vec<&Reference> = Vec::new();
        let mut i: usize = 0;
        while i < self.references.len()
            invariant
                i <= self.references@.len(),
                out@ == referring(self, declaration.name_span, i as int),
                out@.len() <= i,
                forall|k: int| 0 <= k < out@.len() ==> (match resolve_of(
                    decls_view(self.declarations@),
                    (#[trigger] out@[k]).name@,
                    out@[k].span.start as int,
                ) {
                    Some(d) => d.name_span == declaration.name_span,
                    None => false,
                }),
            decreases self.references@.len() - i,
        {
            let r = &self.references[i];
            let hit = match self.resolve(r.name.as_str(), r.span.start) {
                Some(d) => d.name_span == declaration.name_span,
                None => false,
            };
            if hit {
                out.push(r);
            }
            i = i + 1;
        }
        out
    }
}

/// The first `n` uses of names, kept where they refer to the declaration at `target`.
pub open spec fn referring(index: &SemanticIndex, target: Span, n: int) -> Seq<&Reference>
    decreases n,
{
    if n <= 0 || n > index.references@.len() {
        Seq::empty()
    } else {
        let rest = referring(index, target, n - 1);
        let r = &index.references@[n - 1];
        match resolve_of(decls_view(index.declarations@), r.name@, r.span.start as int) {
            Some(d) => if d.name_span == target {
                rest.push(r)
            } else {
                rest
            },
            None => rest,
        }
    }
}

// ---------------------------------------------------------------------------
// Building the index
// ---------------------------------------------------------------------------

pub struct ConstructV {
    pub name: Seq<char>,
    pub name_span: Span,
    pub parent: Option<Seq<char>>,
}

pub struct RefV {
    pub name: Seq<char>,
    pub span: Span,
}

pub struct FragV {
    pub name: Seq<char>,
    pub name_span: Span,
}

pub enum TRefV {
    Include { target: Seq<char>, target_span: Span, fragment: Option<(Seq<char>, Span)> },
    Tag { target: Seq<char>, span: Span },
}

/// The content of an index.
pub struct IndexV {
    pub decls: Seq<DeclV>,
    pub constructs: Seq<ConstructV>,
    pub refs: Seq<RefV>,
    pub frags: Seq<FragV>,
    pub trefs: Seq<TRefV>,
}

pub open spec fn construct_view(c: Construct) -> ConstructV {
    ConstructV {
        name: c.name@,
        name_span: c.name_span,
        parent: match c.parent {
            Some(p) => Some(p@),
            None => None,
        },
    }
}

pub open spec fn ref_view(r: Reference) -> RefV {
    RefV { name: r.name@, span: r.span }
}

pub open spec fn frag_view(f: FragmentDeclaration) -> FragV {
    FragV { name: f.name@, name_span: f.name_span }
}

pub open spec fn tref_view(t: TemplateReference) -> TRefV {
    match t {
        TemplateReference::Include { target, target_span, fragment } => TRefV::Include {
            target: target@,
            target_span,
            fragment: match fragment {
                Some((f, span)) => Some((f@, span)),
                None => None,
            },
        },
        TemplateReference::Tag { target, span } => TRefV::Tag { target: target@, span },
    }
}

pub open spec fn index_view(x: SemanticIndex) -> IndexV {
    IndexV {
        decls: decls_view(x.declarations@),
        constructs: x.constructs@.map_values(|c: Construct| construct_view(c)),
        refs: x.references@.map_values(|r: Reference| ref_view(r)),
        frags: x.fragments@.map_values(|f: FragmentDeclaration| frag_view(f)),
        trefs: x.template_references@.map_values(|t: TemplateReference| tref_view(t)),
    }
}

pub open spec fn empty_index() -> IndexV {
    IndexV {
        decls: Seq::empty(),
        constructs: Seq::empty(),
        refs: Seq::empty(),
        frags: Seq::empty(),
        trefs: Seq::empty(),
    }
}

pub open spec fn with_refs(a: IndexV, rs: Seq<RefV>) -> IndexV {
    IndexV { decls: a.decls, constructs: a.constructs, refs: a.refs + rs, frags: a.frags, trefs: a.trefs }
}

pub open spec fn with_decls(a: IndexV, ds: Seq<DeclV>) -> IndexV {
    IndexV { decls: a.decls + ds, constructs: a.constructs, refs: a.refs, frags: a.frags, trefs: a.trefs }
}

pub open spec fn with_construct(a: IndexV, c: ConstructV) -> IndexV {
    IndexV { decls: a.decls, constructs: a.constructs.push(c), refs: a.refs, frags: a.frags, trefs: a.trefs }
}

pub open spec fn with_frag(a: IndexV, f: FragV) -> IndexV {
    IndexV { decls: a.decls, constructs: a.constructs, refs: a.refs, frags: a.frags.push(f), trefs: a.trefs }
}

pub open spec fn with_tref(a: IndexV, r: TRefV) -> IndexV {
    IndexV { decls: a.decls, constructs: a.constructs, refs: a.refs, frags: a.frags, trefs: a.trefs.push(r) }
}

/// The names an expression uses, left to right.
pub open spec fn refs_expr(e: ExprV) -> Seq<RefV>
    decreases e,
{
    match e {
        ExprV::Identifier { name, span } => seq![RefV { name, span }],
        ExprV::Unary { expression, .. } => refs_expr(*expression),
        ExprV::Safe { expression, .. } => refs_expr(*expression),
        ExprV::Binary { left, right, .. } => refs_expr(*left) + refs_expr(*right),
        ExprV::Member { object, .. } => refs_expr(*object),
        ExprV::Call { callee, arguments, .. } => refs_expr(*callee) + refs_exprs(arguments),
        ExprV::Index { object, index, .. } => refs_expr(*object) + refs_expr(*index),
        _ => Seq::empty(),
    }
}

pub open spec fn refs_exprs(es: Seq<ExprV>) -> Seq<RefV>
    decreases es,
{
    if es.len() == 0 {
        Seq::empty()
    } else {
        refs_expr(es[0]) + refs_exprs(es.drop_first())
    }
}

pub open spec fn refs_arg(a: ArgumentV) -> Seq<RefV> {
    match a.value {
        ArgumentValueV::Expression(e) => refs_expr(e),
        _ => Seq::empty(),
    }
}

pub open spec fn refs_args(args: Seq<ArgumentV>) -> Seq<RefV>
    decreases args.len(),
{
    if args.len() == 0 {
        Seq::empty()
    } else {
        refs_args(args.drop_last()) + refs_arg(args.last())
    }
}

/// The alias a `for` section declares.
pub open spec fn alias_text(s: SectionV) -> Option<Seq<char>> {
    match first_named(s.arguments, "alias"@) {
        Some(i) => static_text(s.arguments[i]),
        None => None,
    }
}

/// The local bindings of the first `n` arguments of a `let` or `set`.
pub open spec fn let_decls(s: SectionV, t: Seq<char>, scope: Span, depth: int, n: int) -> Seq<DeclV>
    decreases n,
{
    if n <= 0 || n > s.arguments.len() {
        Seq::empty()
    } else {
        let rest = let_decls(s, t, scope, depth, n - 1);
        match s.arguments[n - 1].name {
            Some(name) => rest.push(
                DeclV {
                    name,
                    name_span: named_argument_span(t, s.span, s.arguments[n - 1].span, name),
                    kind: DeclarationKind::LocalBinding,
                    parameter_type: None,
                    scope,
                    depth,
                },
            ),
            None => rest,
        }
    }
}

/// What a section declares for its body: a `for` its alias, an `each` the
/// implicit `it`, a `let` or `set` its named arguments.
pub open spec fn section_decls(s: SectionV, t: Seq<char>, scope: Span, depth: int) -> Seq<DeclV> {
    if s.name == "for"@ {
        match alias_text(s) {
            Some(alias) => seq![
                DeclV {
                    name: alias,
                    name_span: value_span(t, s.arguments[0].span, alias),
                    kind: DeclarationKind::LoopAlias,
                    parameter_type: None,
                    scope,
                    depth,
                },
            ],
            None => Seq::empty(),
        }
    } else if s.name == "each"@ {
        seq![
            DeclV {
                name: "it"@,
                name_span: opening_name_span(t, s.span, s.name),
                kind: DeclarationKind::LoopAlias,
                parameter_type: None,
                scope,
                depth,
            },
        ]
    } else if s.name == "let"@ || s.name == "set"@ {
        let_decls(s, t, scope, depth, s.arguments.len() as int)
    } else {
        Seq::empty()
    }
}

/// The text a static include names: its first, unnamed argument when that is
/// text that does not start with `_id=`, and no argument is named `_id`.
pub open spec fn include_value(s: SectionV) -> Option<Seq<char>> {
    if first_named(s.arguments, "_id"@) is Some || s.arguments.len() == 0 || s.arguments[0].name is Some {
        None
    } else {
        match s.arguments[0].value {
            ArgumentValueV::String(v) => if v.len() >= 4 && v.take(4) == "_id="@ {
                None
            } else {
                Some(v)
            },
            ArgumentValueV::Raw(v) => if v.len() >= 4 && v.take(4) == "_id="@ {
                None
            } else {
                Some(v)
            },
            _ => None,
        }
    }
}

/// A static include's target and fragment, with their ranges inside the value's range.
pub open spec fn include_symbol(s: SectionV, t: Seq<char>, v: Seq<char>) -> TRefV {
    let vs = value_span(t, s.arguments[0].span, v);
    let target = split_first(v).0;
    let target_span = Span { start: vs.start, end: (vs.start + utf8_len(target)) as usize };
    match split_first(v).1 {
        Some(f) => {
            let start = vs.start + utf8_len(target) + 1;
            TRefV::Include {
                target,
                target_span,
                fragment: Some((f, Span { start: start as usize, end: (start + utf8_len(f)) as usize })),
            }
        },
        None => TRefV::Include { target, target_span, fragment: None },
    }
}

/// What a section adds to the template symbols: a fragment or capture its
/// name, a static include its target, a user tag its template.
pub open spec fn template_symbol(s: SectionV, t: Seq<char>, acc: IndexV) -> IndexV {
    if s.name == "fragment"@ || s.name == "capture"@ {
        if s.arguments.len() > 0 && static_text(s.arguments[0]) is Some {
            let name = static_text(s.arguments[0])->0;
            with_frag(acc, FragV { name, name_span: value_span(t, s.arguments[0].span, name) })
        } else {
            acc
        }
    } else if s.name == "include"@ {
        match include_value(s) {
            Some(v) => with_tref(acc, include_symbol(s, t, v)),
            None => acc,
        }
    } else if !is_built_in(s.name) {
        with_tref(acc, TRefV::Tag { target: "tags/"@ + s.name, span: opening_name_span(t, s.span, s.name) })
    } else {
        acc
    }
}

/// The range a block's declarations are visible in: from the end of its
/// opening tag to the next block, or to the section's closing tag (one past
/// the end of the text when the section is never closed at its end).
pub open spec fn block_body_span(s: SectionV, index: int, t: Seq<char>) -> Span {
    let b = s.blocks[index];
    let start = match opening_end(t, b.span) {
        Some(x) => x,
        None => b.span.start as int,
    };
    let cs = closing_start(t, s.span, s.name);
    let end0 = if index + 1 < s.blocks.len() {
        s.blocks[index + 1].span.start as int
    } else {
        match cs {
            Some(x) => x,
            None => s.span.end as int,
        }
    };
    let end = if end0 == utf8_len(t) && cs is None {
        end0 + 1
    } else {
        end0
    };
    Span { start: (if start <= end { start } else { end }) as usize, end: end as usize }
}

/// One more nesting level.
pub open spec fn deeper(depth: int) -> int {
    if depth < usize::MAX {
        depth + 1
    } else {
        depth
    }
}

/// The index after the nodes `ns[i..]` at `depth`.
pub open spec fn index_nodes_from(ns: Seq<NodeV>, i: int, t: Seq<char>, depth: int, acc: IndexV) -> IndexV
    decreases ns, ns.len() - i,
{
    if i < 0 || i >= ns.len() {
        acc
    } else {
        match ns[i] {
            NodeV::Output { expression, .. } => index_nodes_from(ns, i + 1, t, depth, with_refs(acc, refs_expr(expression))),
            NodeV::Section(s) => {
                let a1 = with_construct(
                    acc,
                    ConstructV { name: s.name, name_span: opening_name_span(t, s.span, s.name), parent: None },
                );
                let a2 = template_symbol(s, t, a1);
                let a3 = with_refs(a2, refs_args(s.arguments));
                index_nodes_from(ns, i + 1, t, depth, index_blocks_from(s, 0, t, depth, a3))
            },
            _ => index_nodes_from(ns, i + 1, t, depth, acc),
        }
    }
}

/// The index after the blocks `s.blocks[j..]` of a section at `depth`.
pub open spec fn index_blocks_from(s: SectionV, j: int, t: Seq<char>, depth: int, acc: IndexV) -> IndexV
    decreases s.blocks, s.blocks.len() - j,
{
    if j < 0 || j >= s.blocks.len() {
        acc
    } else {
        let b = s.blocks[j];
        let a1 = if j > 0 {
            with_construct(
                acc,
                ConstructV { name: b.name, name_span: opening_name_span(t, b.span, b.name), parent: Some(s.name) },
            )
        } else {
            acc
        };
        let a2 = with_refs(a1, refs_args(b.arguments));
        let a3 = if j == 0 {
            with_decls(a2, section_decls(s, t, block_body_span(s, 0, t), depth))
        } else {
            a2
        };
        index_blocks_from(s, j + 1, t, depth, index_nodes_from(b.nodes, 0, t, deeper(depth), a3))
    }
}

/// The parameters declared among `ns[i..]`, visible in the whole document.
pub open spec fn params_from(ns: Seq<NodeV>, i: int, t: Seq<char>, acc: IndexV) -> IndexV
    decreases ns.len() - i,
{
    if i < 0 || i >= ns.len() {
        acc
    } else {
        match ns[i] {
            NodeV::Parameter(p) => {
                let d = DeclV {
                    name: p.name,
                    name_span: parameter_name_span(t, p.span, p.declared_type, p.name),
                    kind: DeclarationKind::Parameter,
                    parameter_type: Some(p.declared_type),
                    scope: Span { start: 0, end: (utf8_len(t) + 1) as usize },
                    depth: 0,
                };
                let a = with_decls(acc, seq![d]);
                params_from(
                    ns,
                    i + 1,
                    t,
                    match p.default {
                        Some(e) => with_refs(a, refs_expr(e)),
                        None => a,
                    },
                )
            },
            _ => params_from(ns, i + 1, t, acc),
        }
    }
}

/// The index of a template: its top-level parameters, then every section
/// and output in document order, nested one level below the parameters.
pub open spec fn index_of(ns: Seq<NodeV>, t: Seq<char>) -> IndexV {
    index_nodes_from(ns, 0, t, 1, params_from(ns, 0, t, empty_index()))
}

/// The ranges a section's entries are read from lie on character boundaries.
pub open spec fn section_text_ok(s: SectionV, t: Seq<char>) -> bool {
    &&& span_ok(t, s.span)
    &&& forall|j: int| 1 <= j < s.blocks.len() ==> span_ok(t, #[trigger] s.blocks[j].span)
    &&& ((s.name == "fragment"@ || s.name == "capture"@) && s.arguments.len() > 0 && static_text(
        s.arguments[0],
    ) is Some) ==> span_ok(t, s.arguments[0].span)
    &&& (s.name == "include"@ && include_value(s) is Some) ==> span_ok(t, s.arguments[0].span)
        && s.arguments[0].span.start + utf8_len(include_value(s)->0) < usize::MAX
    &&& (s.name == "for"@ && alias_text(s) is Some) ==> span_ok(t, s.arguments[0].span)
    &&& (s.name == "let"@ || s.name == "set"@) ==> forall|i: int|
        0 <= i < s.arguments.len() && (#[trigger] s.arguments[i]).name is Some ==> slice_ok(
            t,
            s.span.start as int,
            clamp_end(t, s.arguments[i].span.start as int),
        )
}

pub open spec fn nodes_ok_from(ns: Seq<NodeV>, i: int, t: Seq<char>) -> bool
    decreases ns, ns.len() - i,
{
    if i < 0 || i >= ns.len() {
        true
    } else {
        (match ns[i] {
            NodeV::Section(s) => section_text_ok(s, t) && blocks_ok_from(s, 0, t),
            _ => true,
        }) && nodes_ok_from(ns, i + 1, t)
    }
}

pub open spec fn blocks_ok_from(s: SectionV, j: int, t: Seq<char>) -> bool
    decreases s.blocks, s.blocks.len() - j,
{
    if j < 0 || j >= s.blocks.len() {
        true
    } else {
        nodes_ok_from(s.blocks[j].nodes, 0, t) && blocks_ok_from(s, j + 1, t)
    }
}

/// Every range the index reads from the text lies on character boundaries.
pub open spec fn index_inputs_ok(ns: Seq<NodeV>, t: Seq<char>) -> bool {
    &&& fits(t)
    &&& forall|i: int| 0 <= i < ns.len() ==> (#[trigger] ns[i] matches NodeV::Parameter(p) ==> span_ok(t, p.span))
    &&& nodes_ok_from(ns, 0, t)
}

// ---------------------------------------------------------------------------
// Building the index: the walk
// ---------------------------------------------------------------------------

proof fn lemma_exprs_view_index(es: Seq<Expr>)
    ensures
        exprs_view(es).len() == es.len(),
        forall|i: int| 0 <= i < es.len() ==> #[trigger] exprs_view(es)[i] == expr_view(es[i]),
    decreases es.len(),
{
    if es.len() > 0 {
        lemma_exprs_view_index(es.drop_first());
        assert forall|i: int| 0 <= i < es.len() implies #[trigger] exprs_view(es)[i] == expr_view(es[i]) by {
            if i > 0 {
                assert(es.drop_first()[i - 1] == es[i]);
            }
        }
    }
}

proof fn lemma_with_refs_twice(a: IndexV, x: Seq<RefV>, y: Seq<RefV>)
    ensures
        with_refs(with_refs(a, x), y) == with_refs(a, x + y),
{
    assert(a.refs + x + y =~= a.refs + (x + y));
}

proof fn lemma_with_refs_empty(a: IndexV)
    ensures
        with_refs(a, Seq::empty()) == a,
{
    assert(a.refs + Seq::<RefV>::empty() =~= a.refs);
}

impl SemanticIndex {
    fn push_reference(&mut self, name: String, span: Span)
        ensures
            index_view(*final(self)) == with_refs(index_view(*old(self)), seq![RefV { name: name@, span }]),
    {
        let ghost before = index_view(*self);
        let ghost n = name@;
        self.references.push(Reference { name, span });
        proof {
            let v = index_view(*self);
            assert(v.refs =~= before.refs + seq![RefV { name: n, span }]);
            assert(v.decls =~= before.decls);
            assert(v.constructs =~= before.constructs);
            assert(v.frags =~= before.frags);
            assert(v.trefs =~= before.trefs);
        }
    }

    fn visit_expression(&mut self, e: &Expr)
        ensures
            index_view(*final(self)) == with_refs(index_view(*old(self)), refs_expr(expr_view(*e))),
        decreases e,
    {
        let ghost start = index_view(*self);
        match e {
            Expr::Identifier { name, span } => {
                self.push_reference(name.clone(), *span);
            },
            Expr::Unary { expression, .. } => {
                self.visit_expression(expression);
            },
            Expr::Safe { expression, .. } => {
                self.visit_expression(expression);
            },
            Expr::Binary { left, right, .. } => {
                self.visit_expression(left);
                self.visit_expression(right);
                proof {
                    lemma_with_refs_twice(start, refs_expr(expr_view(**left)), refs_expr(expr_view(**right)));
                }
            },
            Expr::Member { object, .. } => {
                self.visit_expression(object);
            },
            Expr::Call { callee, arguments, .. } => {
                self.visit_expression(callee);
                self.visit_expressions(arguments);
                proof {
                    lemma_with_refs_twice(start, refs_expr(expr_view(**callee)), refs_exprs(exprs_view(arguments@)));
                }
            },
            Expr::Index { object, index, .. } => {
                self.visit_expression(object);
                self.visit_expression(index);
                proof {
                    lemma_with_refs_twice(start, refs_expr(expr_view(**object)), refs_expr(expr_view(**index)));
                }
            },
            _ => {
                proof {
                    lemma_with_refs_empty(start);
                }
            },
        }
    }

    fn visit_expressions(&mut self, arguments: &Vec<Expr>)
        ensures
            index_view(*final(self)) == with_refs(index_view(*old(self)), refs_exprs(exprs_view(arguments@))),
        decreases arguments,
    {
        let ghost mid = index_view(*self);
        let ghost av = exprs_view(arguments@);
        proof {
            lemma_exprs_view_index(arguments@);
            assert(av.skip(0) =~= av);
        }
        let mut i: usize = 0;
        while i < arguments.len()
            invariant
                i <= arguments@.len(),
                av == exprs_view(arguments@),
                av.len() == arguments@.len(),
                forall|j: int| 0 <= j < arguments@.len() ==> #[trigger] av[j] == expr_view(arguments@[j]),
                with_refs(index_view(*self), refs_exprs(av.skip(i as int))) == with_refs(mid, refs_exprs(av)),
            decreases arguments@.len() - i,
        {
            let ghost before = index_view(*self);
            proof {
                assert(decreases_to!(arguments => arguments@[i as int]));
                assert(av.skip(i as int)[0] == av[i as int]);
                assert(av.skip(i as int).drop_first() =~= av.skip(i + 1));
            }
            self.visit_expression(&arguments[i]);
            proof {
                lemma_with_refs_twice(before, refs_expr(av[i as int]), refs_exprs(av.skip(i + 1)));
            }
            i = i + 1;
        }
        proof {
            assert(av.skip(i as int).len() == 0);
            lemma_with_refs_empty(index_view(*self));
        }
    }

    fn visit_arguments(&mut self, args: &Vec<Argument>)
        ensures
            index_view(*final(self)) == with_refs(index_view(*old(self)), refs_args(arguments_view(args@))),
    {
        let ghost start = index_view(*self);
        let ghost av = arguments_view(args@);
        let mut i: usize = 0;
        proof {
            assert(av.take(0) =~= Seq::<ArgumentV>::empty());
            lemma_with_refs_empty(start);
        }
        while i < args.len()
            invariant
                i <= args@.len(),
                av == arguments_view(args@),
                index_view(*self) == with_refs(start, refs_args(av.take(i as int))),
            decreases args@.len() - i,
        {
            let ghost before = index_view(*self);
            proof {
                assert(av.take(i + 1).drop_last() =~= av.take(i as int));
                assert(av.take(i + 1).last() == av[i as int]);
            }
            match &args[i].value {
                ArgumentValue::Expression(e) => {
                    self.visit_expression(e);
                },
                _ => {
                    proof {
                        lemma_with_refs_empty(before);
                    }
                },
            }
            proof {
                lemma_with_refs_twice(start, refs_args(av.take(i as int)), refs_arg(av[i as int]));
            }
            i = i + 1;
        }
        proof {
            assert(av.take(args@.len() as int) =~= av);
        }
    }
}

proof fn lemma_with_decls_twice(a: IndexV, x: Seq<DeclV>, y: Seq<DeclV>)
    ensures
        with_decls(with_decls(a, x), y) == with_decls(a, x + y),
{
    assert(a.decls + x + y =~= a.decls + (x + y));
}

proof fn lemma_with_decls_empty(a: IndexV)
    ensures
        with_decls(a, Seq::empty()) == a,
{
    assert(a.decls + Seq::<DeclV>::empty() =~= a.decls);
}

/// A text split at its first `$` has the bytes of both parts and the `$`.
proof fn lemma_split_bytes(v: Seq<char>)
    ensures
        match split_first(v).1 {
            Some(f) => utf8_len(v) == utf8_len(split_first(v).0) + 1 + utf8_len(f),
            None => split_first(v).0 == v,
        },
{
    if exists|i: int| first_at(v, '$', i) {
        let i = choose|i: int| first_at(v, '$', i);
        assert(v =~= v.take(i) + seq!['$'] + v.skip(i + 1));
        lemma_utf8_len_concat(v.take(i) + seq!['$'], v.skip(i + 1));
        lemma_utf8_len_concat(v.take(i), seq!['$']);
        assert(seq!['$'].drop_last() =~= Seq::<char>::empty());
        assert(utf8_len(Seq::<char>::empty()) == 0);
        assert(seq!['$'].last() == '$');
        assert(('$' as u32) < 0x80);
        assert(utf8_len(seq!['$']) == 1);
    }
}

fn starts_with_id_marker(v: &str) -> (r: bool)
    ensures
        r == (v@.len() >= 4 && v@.take(4) == "_id="@),
{
    proof {
        reveal_strlit("_id=");
    }
    let cs = chars_of(v);
    let p = chars_of("_id=");
    let r = crate::text::starts_with_at(cs.as_slice(), 0, p.as_slice());
    proof {
        assert(cs@.subrange(0, 4) =~= cs@.take(4));
    }
    r
}

/// The text a static include names.
fn include_value_exec(s: &Section) -> (r: Option<&str>)
    ensures
        match include_value(section_view(*s)) {
            Some(v) => r matches Some(x) && x@ == v,
            None => r is None,
        },
{
    if find_named(&s.arguments, "_id").is_some() || s.arguments.len() == 0 || s.arguments[0].name.is_some() {
        return None;
    }
    match &s.arguments[0].value {
        ArgumentValue::String(v) => if starts_with_id_marker(v.as_str()) {
            None
        } else {
            Some(v.as_str())
        },
        ArgumentValue::Raw(v) => if starts_with_id_marker(v.as_str()) {
            None
        } else {
            Some(v.as_str())
        },
        _ => None,
    }
}

impl SemanticIndex {
    fn push_declaration(
        &mut self,
        name: String,
        name_span: Span,
        kind: DeclarationKind,
        parameter_type: Option<String>,
        scope: Span,
        depth: usize,
    )
        ensures
            index_view(*final(self)) == with_decls(
                index_view(*old(self)),
                seq![
                    DeclV {
                        name: name@,
                        name_span,
                        kind,
                        parameter_type: match parameter_type {
                            Some(t) => Some(t@),
                            None => None,
                        },
                        scope,
                        depth: depth as int,
                    },
                ],
            ),
    {
        let ghost before = index_view(*self);
        let d = Declaration { name, name_span, kind, parameter_type, scope, depth };
        let ghost dv = decl_view(d);
        self.declarations.push(d);
        proof {
            let v = index_view(*self);
            assert(v.decls =~= before.decls + seq![dv]);
            assert(v.refs =~= before.refs);
            assert(v.constructs =~= before.constructs);
            assert(v.frags =~= before.frags);
            assert(v.trefs =~= before.trefs);
        }
    }

    fn push_construct(&mut self, name: String, name_span: Span, parent: Option<String>)
        ensures
            index_view(*final(self)) == with_construct(
                index_view(*old(self)),
                ConstructV {
                    name: name@,
                    name_span,
                    parent: match parent {
                        Some(p) => Some(p@),
                        None => None,
                    },
                },
            ),
    {
        let ghost before = index_view(*self);
        let c = Construct { name, name_span, parent };
        let ghost cv = construct_view(c);
        self.constructs.push(c);
        proof {
            let v = index_view(*self);
            assert(v.constructs =~= before.constructs.push(cv));
            assert(v.refs =~= before.refs);
            assert(v.decls =~= before.decls);
            assert(v.frags =~= before.frags);
            assert(v.trefs =~= before.trefs);
        }
    }

    fn push_fragment(&mut self, name: String, name_span: Span)
        ensures
            index_view(*final(self)) == with_frag(index_view(*old(self)), FragV { name: name@, name_span }),
    {
        let ghost before = index_view(*self);
        let f = FragmentDeclaration { name, name_span };
        let ghost fv = frag_view(f);
        self.fragments.push(f);
        proof {
            let v = index_view(*self);
            assert(v.frags =~= before.frags.push(fv));
            assert(v.refs =~= before.refs);
            assert(v.decls =~= before.decls);
            assert(v.constructs =~= before.constructs);
            assert(v.trefs =~= before.trefs);
        }
    }

    fn push_template_reference(&mut self, r: TemplateReference)
        ensures
            index_view(*final(self)) == with_tref(index_view(*old(self)), tref_view(r)),
    {
        let ghost before = index_view(*self);
        let ghost rv = tref_view(r);
        self.template_references.push(r);
        proof {
            let v = index_view(*self);
            assert(v.trefs =~= before.trefs.push(rv));
            assert(v.refs =~= before.refs);
            assert(v.decls =~= before.decls);
            assert(v.constructs =~= before.constructs);
            assert(v.frags =~= before.frags);
        }
    }

    fn add_section_declarations(&mut self, s: &Section, text: &Vec<char>, offs: &Vec<usize>, scope: Span, depth: usize)
        requires
            offsets_of(text@, offs@),
            section_text_ok(section_view(*s), text@),
        ensures
            index_view(*final(self)) == with_decls(
                index_view(*old(self)),
                section_decls(section_view(*s), text@, scope, depth as int),
            ),
    {
        let ghost start = index_view(*self);
        let ghost sv = section_view(*s);
        if str_eq(s.name.as_str(), "for") {
            match find_named(&s.arguments, "alias") {
                Some(i) => match s.arguments[i].static_text() {
                    Some(alias) => {
                        let v = chars_of(alias);
                        let sp = value_span_exec(text, offs, s.arguments[0].span, &v);
                        self.push_declaration(alias.to_string(), sp, DeclarationKind::LoopAlias, None, scope, depth);
                    },
                    None => {
                        proof {
                            lemma_with_decls_empty(start);
                        }
                    },
                },
                None => {
                    proof {
                        lemma_with_decls_empty(start);
                    }
                },
            }
        } else if str_eq(s.name.as_str(), "each") {
            let nm = chars_of(s.name.as_str());
            let sp = opening_name_span_exec(text, offs, s.span, &nm);
            self.push_declaration("it".to_string(), sp, DeclarationKind::LoopAlias, None, scope, depth);
        } else if str_eq(s.name.as_str(), "let") || str_eq(s.name.as_str(), "set") {
            let mut i: usize = 0;
            proof {
                lemma_with_decls_empty(start);
            }
            while i < s.arguments.len()
                invariant
                    i <= s.arguments@.len(),
                    sv == section_view(*s),
                    offsets_of(text@, offs@),
                    section_text_ok(sv, text@),
                    sv.name == "let"@ || sv.name == "set"@,
                    index_view(*self) == with_decls(start, let_decls(sv, text@, scope, depth as int, i as int)),
                decreases s.arguments@.len() - i,
            {
                let ghost before = index_view(*self);
                match &s.arguments[i].name {
                    Some(name) => {
                        let nc = chars_of(name.as_str());
                        proof {
                            assert(sv.arguments[i as int].name is Some);
                        }
                        let sp = named_argument_span_exec(text, offs, s.span, s.arguments[i].span, &nc);
                        self.push_declaration(name.clone(), sp, DeclarationKind::LocalBinding, None, scope, depth);
                        proof {
                            lemma_with_decls_twice(
                                start,
                                let_decls(sv, text@, scope, depth as int, i as int),
                                seq![let_decls(sv, text@, scope, depth as int, i + 1).last()],
                            );
                            assert(let_decls(sv, text@, scope, depth as int, i + 1) =~= let_decls(
                                sv,
                                text@,
                                scope,
                                depth as int,
                                i as int,
                            ) + seq![let_decls(sv, text@, scope, depth as int, i + 1).last()]);
                        }
                    },
                    None => {},
                }
                i = i + 1;
            }
        } else {
            proof {
                lemma_with_decls_empty(start);
            }
        }
    }

    fn add_template_symbol(&mut self, s: &Section, text: &Vec<char>, offs: &Vec<usize>)
        requires
            offsets_of(text@, offs@),
            section_text_ok(section_view(*s), text@),
        ensures
            index_view(*final(self)) == template_symbol(section_view(*s), text@, index_view(*old(self))),
    {
        let ghost sv = section_view(*s);
        if str_eq(s.name.as_str(), "fragment") || str_eq(s.name.as_str(), "capture") {
            if s.arguments.len() > 0 {
                match s.arguments[0].static_text() {
                    Some(name) => {
                        let v = chars_of(name);
                        let sp = value_span_exec(text, offs, s.arguments[0].span, &v);
                        self.push_fragment(name.to_string(), sp);
                    },
                    None => {},
                }
            }
            return;
        }
        if str_eq(s.name.as_str(), "include") {
            match include_value_exec(s) {
                Some(v) => {
                    let vc = chars_of(v);
                    let vs = value_span_exec(text, offs, s.arguments[0].span, &vc);
                    let (target, fragment) = split_first_dollar(v);
                    proof {
                        lemma_split_bytes(v@);
                    }
                    let tc = chars_of(target.as_str());
                    let tl = crate::compiler::scan::byte_len(tc.as_slice());
                    let target_span = Span::new(vs.start, vs.start + tl);
                    let fragment = match fragment {
                        Some(f) => {
                            let fc = chars_of(f.as_str());
                            let fl = crate::compiler::scan::byte_len(fc.as_slice());
                            let start = vs.start + tl + 1;
                            Some((f, Span::new(start, start + fl)))
                        },
                        None => None,
                    };
                    self.push_template_reference(TemplateReference::Include { target, target_span, fragment });
                },
                None => {},
            }
            return;
        }
        if !is_built_in_name(s.name.as_str()) {
            let mut target = "tags/".to_string();
            push_str(&mut target, s.name.as_str());
            let nm = chars_of(s.name.as_str());
            let sp = opening_name_span_exec(text, offs, s.span, &nm);
            self.push_template_reference(TemplateReference::Tag { target, span: sp });
        }
    }
}

/// The range a block's declarations are visible in.
fn block_body_span_exec(s: &Section, index: usize, text: &Vec<char>, offs: &Vec<usize>) -> (r: Span)
    requires
        offsets_of(text@, offs@),
        index < s.blocks@.len(),
    ensures
        r == block_body_span(section_view(*s), index as int, text@),
{
    proof {
        lemma_blocks_view(s.blocks@);
        crate::text::lemma_utf8_len_take_full(text@);
    }
    let b = &s.blocks[index];
    let start = match opening_end_exec(text, offs, b.span) {
        Some(x) => x,
        None => b.span.start,
    };
    let cs = closing_start_exec(text, offs, s.span, s.name.as_str());
    let nb = s.blocks.len();
    assert(index < nb);
    let end0 = if index + 1 < nb {
        s.blocks[index + 1].span.start
    } else {
        match cs {
            Some(x) => x,
            None => s.span.end,
        }
    };
    let n = offs[text.len()];
    let end = if end0 == n && cs.is_none() {
        end0 + 1
    } else {
        end0
    };
    Span::new(if start <= end { start } else { end }, end)
}

impl SemanticIndex {
    fn visit_nodes(&mut self, nodes: &Vec<Node>, text: &Vec<char>, offs: &Vec<usize>, depth: usize)
        requires
            offsets_of(text@, offs@),
            nodes_ok_from(nodes_view(nodes@), 0, text@),
        ensures
            index_view(*final(self)) == index_nodes_from(nodes_view(nodes@), 0, text@, depth as int, index_view(*old(self))),
        decreases nodes,
    {
        let ghost nv = nodes_view(nodes@);
        let ghost start = index_view(*self);
        proof {
            lemma_nodes_view(nodes@);
        }
        let mut i: usize = 0;
        while i < nodes.len()
            invariant
                i <= nodes@.len(),
                nv == nodes_view(nodes@),
                nv.len() == nodes@.len(),
                forall|j: int| 0 <= j < nodes@.len() ==> #[trigger] nv[j] == node_view(nodes@[j]),
                offsets_of(text@, offs@),
                nodes_ok_from(nv, i as int, text@),
                index_nodes_from(nv, 0, text@, depth as int, start) == index_nodes_from(
                    nv,
                    i as int,
                    text@,
                    depth as int,
                    index_view(*self),
                ),
            decreases nodes@.len() - i,
        {
            proof {
                assert(decreases_to!(nodes => nodes@[i as int]));
            }
            match &nodes[i] {
                Node::Output { expression, .. } => {
                    self.visit_expression(expression);
                },
                Node::Section(section) => {
                    self.visit_section(section, text, offs, depth);
                },
                _ => {},
            }
            i = i + 1;
        }
    }

    fn visit_section(&mut self, s: &Section, text: &Vec<char>, offs: &Vec<usize>, depth: usize)
        requires
            offsets_of(text@, offs@),
            section_text_ok(section_view(*s), text@),
            blocks_ok_from(section_view(*s), 0, text@),
        ensures
            index_view(*final(self)) == index_blocks_from(
                section_view(*s),
                0,
                text@,
                depth as int,
                with_refs(
                    template_symbol(
                        section_view(*s),
                        text@,
                        with_construct(
                            index_view(*old(self)),
                            ConstructV {
                                name: s.name@,
                                name_span: opening_name_span(text@, s.span, s.name@),
                                parent: None,
                            },
                        ),
                    ),
                    refs_args(section_view(*s).arguments),
                ),
            ),
        decreases s,
    {
        let ghost sv = section_view(*s);
        let nm = chars_of(s.name.as_str());
        let sp = opening_name_span_exec(text, offs, s.span, &nm);
        self.push_construct(s.name.clone(), sp, None);
        self.add_template_symbol(s, text, offs);
        self.visit_arguments(&s.arguments);
        let ghost a3 = index_view(*self);
        proof {
            lemma_blocks_view(s.blocks@);
        }
        let mut j: usize = 0;
        while j < s.blocks.len()
            invariant
                j <= s.blocks@.len(),
                sv == section_view(*s),
                sv.blocks.len() == s.blocks@.len(),
                forall|k: int| 0 <= k < s.blocks@.len() ==> #[trigger] sv.blocks[k] == block_view(s.blocks@[k]),
                offsets_of(text@, offs@),
                section_text_ok(sv, text@),
                blocks_ok_from(sv, j as int, text@),
                index_blocks_from(sv, 0, text@, depth as int, a3) == index_blocks_from(
                    sv,
                    j as int,
                    text@,
                    depth as int,
                    index_view(*self),
                ),
            decreases s.blocks@.len() - j,
        {
            let b = &s.blocks[j];
            proof {
                assert(decreases_to!(s => s.blocks));
                assert(decreases_to!(s.blocks => s.blocks@[j as int]));
                assert(decreases_to!(s.blocks@[j as int] => s.blocks@[j as int].nodes));
            }
            if j > 0 {
                let bn = chars_of(b.name.as_str());
                let bsp = opening_name_span_exec(text, offs, b.span, &bn);
                self.push_construct(b.name.clone(), bsp, Some(s.name.clone()));
            }
            self.visit_arguments(&b.arguments);
            if j == 0 {
                let scope = block_body_span_exec(s, 0, text, offs);
                self.add_section_declarations(s, text, offs, scope, depth);
            }
            let inner = if depth < usize::MAX {
                depth + 1
            } else {
                depth
            };
            self.visit_nodes(&b.nodes, text, offs, inner);
            j = j + 1;
        }
    }

    /// Builds the index of a template's nodes and source text.
    pub fn new(nodes: &Vec<Node>, text: &str) -> (r: SemanticIndex)
        requires
            index_inputs_ok(nodes_view(nodes@), text@),
        ensures
            index_view(r) == index_of(nodes_view(nodes@), text@),
    {
        let t = chars_of(text);
        let offs = byte_offsets(&t);
        proof {
            crate::text::lemma_utf8_len_take_full(t@);
            lemma_nodes_view(nodes@);
        }
        let n = offs[t.len()];
        let mut index = SemanticIndex {
            declarations: Vec::new(),
            constructs: Vec::new(),
            references: Vec::new(),
            fragments: Vec::new(),
            template_references: Vec::new(),
        };
        proof {
            let v = index_view(index);
            assert(v.decls =~= empty_index().decls);
            assert(v.constructs =~= empty_index().constructs);
            assert(v.refs =~= empty_index().refs);
            assert(v.frags =~= empty_index().frags);
            assert(v.trefs =~= empty_index().trefs);
        }
        let ghost nv = nodes_view(nodes@);
        let mut i: usize = 0;
        while i < nodes.len()
            invariant
                i <= nodes@.len(),
                nv == nodes_view(nodes@),
                nv.len() == nodes@.len(),
                forall|j: int| 0 <= j < nodes@.len() ==> #[trigger] nv[j] == node_view(nodes@[j]),
                t@ == text@,
                offsets_of(t@, offs@),
                n == utf8_len(t@),
                index_inputs_ok(nv, t@),
                params_from(nv, 0, t@, empty_index()) == params_from(nv, i as int, t@, index_view(index)),
            decreases nodes@.len() - i,
        {
            match &nodes[i] {
                Node::Parameter(p) => {
                    proof {
                        assert(nv[i as int] matches NodeV::Parameter(q) && q == parameter_view(*p));
                    }
                    let dt = chars_of(p.declared_type.as_str());
                    let nm = chars_of(p.name.as_str());
                    let sp = parameter_name_span_exec(&t, &offs, p.span, &dt, &nm);
                    index.push_declaration(
                        p.name.clone(),
                        sp,
                        DeclarationKind::Parameter,
                        Some(p.declared_type.clone()),
                        Span::new(0, n + 1),
                        0,
                    );
                    match &p.default {
                        Some(e) => {
                            index.visit_expression(e);
                        },
                        None => {},
                    }
                },
                _ => {},
            }
            i = i + 1;
        }
        index.visit_nodes(nodes, &t, &offs, 1);
        index
    }
}

// ---------------------------------------------------------------------------
// Checking the inputs
// ---------------------------------------------------------------------------

fn span_fits(text: &Vec<char>, offs: &Vec<usize>, span: Span) -> (r: bool)
    requires
        offsets_of(text@, offs@),
    ensures
        r == span_ok(text@, span),
{
    let e = crate::tooling::spans::clamp_to(text, offs, span.end);
    crate::tooling::spans::slice_fits(text, offs, span.start, e)
}

fn section_text_holds(s: &Section, text: &Vec<char>, offs: &Vec<usize>) -> (r: bool)
    requires
        offsets_of(text@, offs@),
    ensures
        r == section_text_ok(section_view(*s), text@),
{
    let ghost sv = section_view(*s);
    let ghost t = text@;
    proof {
        lemma_blocks_view(s.blocks@);
    }
    if !span_fits(text, offs, s.span) {
        return false;
    }
    let mut j: usize = 1;
    while j < s.blocks.len()
        invariant
            1 <= j,
            sv == section_view(*s),
            sv.blocks.len() == s.blocks@.len(),
            forall|k: int| 0 <= k < s.blocks@.len() ==> #[trigger] sv.blocks[k] == block_view(s.blocks@[k]),
            offsets_of(text@, offs@),
            t == text@,
            forall|k: int| 1 <= k < j && k < sv.blocks.len() ==> span_ok(t, #[trigger] sv.blocks[k].span),
        decreases s.blocks@.len() - j,
    {
        if !span_fits(text, offs, s.blocks[j].span) {
            proof {
                assert(!span_ok(t, sv.blocks[j as int].span));
            }
            return false;
        }
        j = j + 1;
    }
    let is_fragment = str_eq(s.name.as_str(), "fragment") || str_eq(s.name.as_str(), "capture");
    if is_fragment && s.arguments.len() > 0 && s.arguments[0].static_text().is_some() {
        if !span_fits(text, offs, s.arguments[0].span) {
            return false;
        }
    }
    if str_eq(s.name.as_str(), "include") {
        match include_value_exec(s) {
            Some(v) => {
                if !span_fits(text, offs, s.arguments[0].span) {
                    return false;
                }
                let vc = chars_of(v);
                if crate::text::str_byte_len(v) >= usize::MAX - s.arguments[0].span.start {
                    return false;
                }
            },
            None => {},
        }
    }
    if str_eq(s.name.as_str(), "for") {
        match find_named(&s.arguments, "alias") {
            Some(i) => {
                if s.arguments[i].static_text().is_some() && !span_fits(text, offs, s.arguments[0].span) {
                    return false;
                }
            },
            None => {},
        }
    }
    if str_eq(s.name.as_str(), "let") || str_eq(s.name.as_str(), "set") {
        let mut i: usize = 0;
        while i < s.arguments.len()
            invariant
                i <= s.arguments@.len(),
                sv == section_view(*s),
                offsets_of(text@, offs@),
                t == text@,
                sv.name == "let"@ || sv.name == "set"@,
                forall|k: int|
                    0 <= k < i && (#[trigger] sv.arguments[k]).name is Some ==> slice_ok(
                        t,
                        sv.span.start as int,
                        clamp_end(t, sv.arguments[k].span.start as int),
                    ),
            decreases s.arguments@.len() - i,
        {
            if s.arguments[i].name.is_some() {
                let e = crate::tooling::spans::clamp_to(text, offs, s.arguments[i].span.start);
                if !crate::tooling::spans::slice_fits(text, offs, s.span.start, e) {
                    proof {
                        assert(sv.arguments[i as int].name is Some);
                    }
                    return false;
                }
            }
            i = i + 1;
        }
    }
    true
}

fn nodes_hold(nodes: &Vec<Node>, text: &Vec<char>, offs: &Vec<usize>) -> (r: bool)
    requires
        offsets_of(text@, offs@),
    ensures
        r == nodes_ok_from(nodes_view(nodes@), 0, text@),
    decreases nodes,
{
    let ghost nv = nodes_view(nodes@);
    proof {
        lemma_nodes_view(nodes@);
    }
    let mut i: usize = 0;
    while i < nodes.len()
        invariant
            i <= nodes@.len(),
            nv == nodes_view(nodes@),
            nv.len() == nodes@.len(),
            forall|j: int| 0 <= j < nodes@.len() ==> #[trigger] nv[j] == node_view(nodes@[j]),
            offsets_of(text@, offs@),
            nodes_ok_from(nv, 0, text@) == nodes_ok_from(nv, i as int, text@),
        decreases nodes@.len() - i,
    {
        proof {
            assert(decreases_to!(nodes => nodes@[i as int]));
        }
        match &nodes[i] {
            Node::Section(section) => {
                if !section_holds(section, text, offs) {
                    return false;
                }
            },
            _ => {},
        }
        i = i + 1;
    }
    true
}

fn section_holds(s: &Section, text: &Vec<char>, offs: &Vec<usize>) -> (r: bool)
    requires
        offsets_of(text@, offs@),
    ensures
        r == (section_text_ok(section_view(*s), text@) && blocks_ok_from(section_view(*s), 0, text@)),
    decreases s,
{
    let ghost sv = section_view(*s);
    if !section_text_holds(s, text, offs) {
        return false;
    }
    proof {
        lemma_blocks_view(s.blocks@);
    }
    let mut j: usize = 0;
    while j < s.blocks.len()
        invariant
            j <= s.blocks@.len(),
            sv == section_view(*s),
            sv.blocks.len() == s.blocks@.len(),
            forall|k: int| 0 <= k < s.blocks@.len() ==> #[trigger] sv.blocks[k] == block_view(s.blocks@[k]),
            offsets_of(text@, offs@),
            blocks_ok_from(sv, 0, text@) == blocks_ok_from(sv, j as int, text@),
        decreases s.blocks@.len() - j,
    {
        proof {
            assert(decreases_to!(s => s.blocks));
            assert(decreases_to!(s.blocks => s.blocks@[j as int]));
            assert(decreases_to!(s.blocks@[j as int] => s.blocks@[j as int].nodes));
        }
        if !nodes_hold(&s.blocks[j].nodes, text, offs) {
            return false;
        }
        j = j + 1;
    }
    true
}

/// Whether every range the index would read from `text` lies on character
/// boundaries, so that `SemanticIndex::new` can take it.
pub fn index_inputs_hold(nodes: &Vec<Node>, text: &str) -> (r: bool)
    ensures
        r == index_inputs_ok(nodes_view(nodes@), text@),
{
    let n = crate::text::str_byte_len(text);
    if n == usize::MAX {
        return false;
    }
    let t = chars_of(text);
    let offs = byte_offsets(&t);
    let ghost nv = nodes_view(nodes@);
    proof {
        lemma_nodes_view(nodes@);
    }
    let mut i: usize = 0;
    while i < nodes.len()
        invariant
            i <= nodes@.len(),
            nv == nodes_view(nodes@),
            nv.len() == nodes@.len(),
            forall|j: int| 0 <= j < nodes@.len() ==> #[trigger] nv[j] == node_view(nodes@[j]),
            t@ == text@,
            offsets_of(t@, offs@),
            forall|j: int| 0 <= j < i ==> (#[trigger] nv[j] matches NodeV::Parameter(p) ==> span_ok(t@, p.span)),
        decreases nodes@.len() - i,
    {
        match &nodes[i] {
            Node::Parameter(p) => {
                if !span_fits(&t, &offs, p.span) {
                    proof {
                        assert(nv[i as int] matches NodeV::Parameter(q) && q.span == p.span);
                    }
                    return false;
                }
            },
            _ => {},
        }
        i = i + 1;
    }
    nodes_hold(nodes, &t, &offs)
}

} // verus!
