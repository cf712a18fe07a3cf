//! The decisions the renderer takes for each section: which block renders,
//! what an include names, which arguments bind which names, and when an
//! include would recurse.

use vstd::prelude::*;

use crate::compiler::ast::{
    argument_view, arguments_view, block_view, blocks_view, nodes_view, section_view, Argument,
    ArgumentV, ArgumentValueV, Block, BlockV, Section, SectionV, Template,
};
use crate::compiler::expr::{ExprV, LiteralV};
use crate::compiler::outline::{fragment_sections, section_refs_view, sections_of};
use crate::compiler::validate::static_text;
use crate::engine::eval::bare;
use crate::engine::value::{clone_entries, entries_view, map_insert, map_put, Entry, Value, ValueV};
use crate::error::{ErrorCode, RenderError};
use crate::escape::{decimal, format_integer};
use crate::text::{chars_of, push_char, push_str, str_eq, string_of};

verus! {

// ---------------------------------------------------------------------------
// Arguments
// ---------------------------------------------------------------------------

/// The position of the first argument named `name` at or after `i`.
pub open spec fn first_named_from(args: Seq<ArgumentV>, name: Seq<char>, i: int) -> Option<int>
    decreases args.len() - i,
{
    if i < 0 || i >= args.len() {
        None
    } else if args[i].name == Some(name) {
        Some(i)
    } else {
        first_named_from(args, name, i + 1)
    }
}

/// The position of the first argument named `name`.
pub open spec fn first_named(args: Seq<ArgumentV>, name: Seq<char>) -> Option<int> {
    first_named_from(args, name, 0)
}

fn is_named(a: &Argument, name: &str) -> (r: bool)
    ensures
        r == (argument_view(*a).name == Some(name@)),
{
    match &a.name {
        Some(n) => str_eq(n.as_str(), name),
        None => false,
    }
}

/// Finds the first argument named `name`.
pub fn find_named(arguments: &Vec<Argument>, name: &str) -> (r: Option<usize>)
    ensures
        match r {
            Some(i) => first_named(arguments_view(arguments@), name@) == Some(i as int) && i
                < arguments@.len(),
            None => first_named(arguments_view(arguments@), name@) is None,
        },
{
    let ghost av = arguments_view(arguments@);
    let mut i: usize = 0;
    while i < arguments.len()
        invariant
            i <= arguments@.len(),
            av == arguments_view(arguments@),
            first_named(av, name@) == first_named_from(av, name@, i as int),
        decreases arguments@.len() - i,
    {
        if is_named(&arguments[i], name) {
            return Some(i);
        }
        i = i + 1;
    }
    None
}

/// The names that an argument list binds, in order: those of its named
/// arguments, leaving out the ones that start with `_` when `visible_only`.
pub open spec fn binds(a: ArgumentV, visible_only: bool) -> bool {
    match a.name {
        Some(n) => !(visible_only && n.len() > 0 && n[0] == '_'),
        None => false,
    }
}

/// The positions of the arguments that bind names.
pub open spec fn binding_positions(args: Seq<ArgumentV>, visible_only: bool) -> Seq<int>
    decreases args.len(),
{
    if args.len() == 0 {
        Seq::empty()
    } else {
        let rest = binding_positions(args.drop_last(), visible_only);
        if binds(args.last(), visible_only) {
            rest.push(args.len() - 1)
        } else {
            rest
        }
    }
}

/// The name that an argument of a user tag binds: a named argument its name,
/// a positional argument that is a plain name that name; none for a name
/// that starts with `_`.
pub open spec fn tag_binding(a: ArgumentV) -> Option<Seq<char>> {
    let n = match a.name {
        Some(n) => Some(n),
        None => match a.value {
            ArgumentValueV::Expression(ExprV::Identifier { name, .. }) => Some(name),
            _ => None,
        },
    };
    match n {
        Some(n) => if n.len() > 0 && n[0] == '_' {
            None
        } else {
            Some(n)
        },
        None => None,
    }
}

/// The names a user tag's arguments bind, with the positions of the
/// arguments that give their values, in order.
pub open spec fn tag_bindings_of(args: Seq<ArgumentV>) -> Seq<(Seq<char>, int)>
    decreases args.len(),
{
    if args.len() == 0 {
        Seq::empty()
    } else {
        let rest = tag_bindings_of(args.drop_last());
        match tag_binding(args.last()) {
            Some(n) => rest.push((n, args.len() - 1)),
            None => rest,
        }
    }
}

/// The first positional argument of a user tag: the value of `it`.
pub open spec fn first_positional_from(args: Seq<ArgumentV>, i: int) -> Option<int>
    decreases args.len() - i,
{
    if i < 0 || i >= args.len() {
        None
    } else if args[i].name is None {
        Some(i)
    } else {
        first_positional_from(args, i + 1)
    }
}

/// A name a user tag binds, and the argument that gives its value.
#[derive(Debug)]
pub struct TagBinding {
    pub name: String,
    pub position: usize,
}

pub open spec fn tag_binding_views(bs: Seq<TagBinding>) -> Seq<(Seq<char>, int)> {
    bs.map_values(|b: TagBinding| (b.name@, b.position as int))
}

fn tag_binding_exec(a: &Argument) -> (r: Option<String>)
    ensures
        match tag_binding(argument_view(*a)) {
            Some(n) => r matches Some(x) && x@ == n,
            None => r is None,
        },
{
    let n: Option<&String> = match &a.name {
        Some(n) => Some(n),
        None => match &a.value {
            crate::compiler::ast::ArgumentValue::Expression(crate::compiler::expr::Expr::Identifier { name, .. }) => Some(name),
            _ => None,
        },
    };
    match n {
        Some(n) => {
            let cs = chars_of(n.as_str());
            if cs.len() > 0 && cs[0] == '_' {
                None
            } else {
                Some(n.clone())
            }
        },
        None => None,
    }
}

/// What the arguments of a user tag bind in the tag's template: each name
/// with the position of the argument that gives its value, and the position
/// of the first positional argument, whose value is `it`.
pub fn tag_bindings(arguments: &Vec<Argument>) -> (r: (Vec<TagBinding>, Option<usize>))
    ensures
        tag_binding_views(r.0@) == tag_bindings_of(arguments_view(arguments@)),
        forall|k: int| 0 <= k < r.0@.len() ==> #[trigger] r.0@[k].position < arguments@.len(),
        match first_positional_from(arguments_view(arguments@), 0) {
            Some(i) => r.1 == Some(i as usize) && i < arguments@.len(),
            None => r.1 is None,
        },
{
    let ghost av = arguments_view(arguments@);
    let mut out: Vec<TagBinding> = Vec::new();
    let mut first: Option<usize> = None;
    let mut i: usize = 0;
    proof {
        assert(av.take(0) =~= Seq::<ArgumentV>::empty());
        assert(tag_binding_views(out@) =~= Seq::<(Seq<char>, int)>::empty());
    }
    while i < arguments.len()
        invariant
            i <= arguments@.len(),
            av == arguments_view(arguments@),
            tag_binding_views(out@) == tag_bindings_of(av.take(i as int)),
            forall|k: int| 0 <= k < out@.len() ==> #[trigger] out@[k].position < i,
            match first {
                Some(f) => first_positional_from(av, 0) == Some(f as int) && f < i,
                None => first_positional_from(av, 0) == first_positional_from(av, i as int),
            },
        decreases arguments@.len() - i,
    {
        proof {
            assert(av.take(i + 1).drop_last() =~= av.take(i as int));
            assert(av.take(i + 1).last() == av[i as int]);
        }
        if first.is_none() && arguments[i].name.is_none() {
            first = Some(i);
        }
        match tag_binding_exec(&arguments[i]) {
            Some(name) => {
                let ghost before = out@;
                let ghost nv = name@;
                out.push(TagBinding { name, position: i });
                proof {
                    assert(tag_binding_views(out@) =~= tag_binding_views(before).push((nv, i as int)));
                }
            },
            None => {},
        }
        i = i + 1;
    }
    proof {
        assert(av.take(arguments@.len() as int) =~= av);
    }
    (out, first)
}

/// The scope a user tag renders in, given the map of what its arguments
/// bind: those names, `_args` holding that same map, and `it` holding the
/// first positional argument's value when there is one.
pub open spec fn tag_scope_of(bound: Seq<(Seq<char>, ValueV)>, it: Option<ValueV>) -> ValueV {
    let with_args = map_put(bound, "_args"@, ValueV::Dict(bound));
    ValueV::Dict(
        match it {
            Some(v) => map_put(with_args, "it"@, v),
            None => with_args,
        },
    )
}

/// Builds the scope a user tag renders in.
pub fn tag_scope(bound: Vec<Entry>, it: Option<Value>) -> (r: Value)
    ensures
        r@ == tag_scope_of(
            entries_view(bound@),
            match it {
                Some(v) => Some(v@),
                None => None,
            },
        ),
{
    let args = Value::Dict(clone_entries(&bound));
    let mut entries = bound;
    map_insert(&mut entries, "_args".to_string(), args);
    match it {
        Some(v) => {
            map_insert(&mut entries, "it".to_string(), v);
        },
        None => {},
    }
    Value::Dict(entries)
}

/// The positions of the arguments that bind names: every named argument of a
/// `let` or `set`, and for an include every named argument whose name does not
/// start with `_`.
pub fn binding_arguments(arguments: &Vec<Argument>, visible_only: bool) -> (r: Vec<usize>)
    ensures
        r@.map_values(|i: usize| i as int) == binding_positions(arguments_view(arguments@), visible_only),
{
    let ghost av = arguments_view(arguments@);
    let mut out: Vec<usize> = Vec::new();
    let mut i: usize = 0;
    proof {
        assert(av.take(0) =~= Seq::<ArgumentV>::empty());
        assert(out@.map_values(|i: usize| i as int) =~= Seq::<int>::empty());
    }
    while i < arguments.len()
        invariant
            i <= arguments@.len(),
            av == arguments_view(arguments@),
            out@.map_values(|i: usize| i as int) == binding_positions(av.take(i as int), visible_only),
        decreases arguments@.len() - i,
    {
        let keep = match &arguments[i].name {
            Some(n) => {
                let cs = chars_of(n.as_str());
                !(visible_only && cs.len() > 0 && cs[0] == '_')
            },
            None => false,
        };
        proof {
            assert(av.take(i + 1).drop_last() =~= av.take(i as int));
            assert(av.take(i + 1).last() == av[i as int]);
        }
        if keep {
            let ghost before = out@;
            out.push(i);
            proof {
                assert(out@.map_values(|i: usize| i as int) =~= before.map_values(|i: usize| i as int).push(i as int));
            }
        }
        i = i + 1;
    }
    proof {
        assert(av.take(arguments@.len() as int) =~= av);
    }
    out
}

// ---------------------------------------------------------------------------
// Sections
// ---------------------------------------------------------------------------

/// What the renderer does with a section.
#[derive(Debug, Clone, Copy, PartialEq, Eq, Structural)]
pub enum SectionKind {
    /// `if`: the first block when the condition holds, else the `else` block.
    Condition,
    /// `for` and `each`: the body once per item.
    Loop,
    /// `let` and `set`: the body with the named arguments in scope.
    Bind,
    /// `when` and `switch`: the first case equal to the tested value.
    Switch,
    /// `include`: another template or one of its fragments.
    Include,
    /// `insert`: what the including section gave for the name, or the default.
    Insert,
    /// `fragment`: the body, unless hidden.
    Fragment,
    /// `capture`: nothing.
    Capture,
    /// Any other name: the user tag `tags/<name>`.
    Tag,
}

pub open spec fn kind_of(name: Seq<char>) -> SectionKind {
    if name == "if"@ {
        SectionKind::Condition
    } else if name == "for"@ || name == "each"@ {
        SectionKind::Loop
    } else if name == "let"@ || name == "set"@ {
        SectionKind::Bind
    } else if name == "when"@ || name == "switch"@ {
        SectionKind::Switch
    } else if name == "include"@ {
        SectionKind::Include
    } else if name == "insert"@ {
        SectionKind::Insert
    } else if name == "fragment"@ {
        SectionKind::Fragment
    } else if name == "capture"@ {
        SectionKind::Capture
    } else {
        SectionKind::Tag
    }
}

/// What a section named `name` does.
pub fn section_kind(name: &str) -> (r: SectionKind)
    ensures
        r == kind_of(name@),
{
    if str_eq(name, "if") {
        SectionKind::Condition
    } else if str_eq(name, "for") || str_eq(name, "each") {
        SectionKind::Loop
    } else if str_eq(name, "let") || str_eq(name, "set") {
        SectionKind::Bind
    } else if str_eq(name, "when") || str_eq(name, "switch") {
        SectionKind::Switch
    } else if str_eq(name, "include") {
        SectionKind::Include
    } else if str_eq(name, "insert") {
        SectionKind::Insert
    } else if str_eq(name, "fragment") {
        SectionKind::Fragment
    } else if str_eq(name, "capture") {
        SectionKind::Capture
    } else {
        SectionKind::Tag
    }
}

/// The position of the first block named `name` at or after `i`.
pub open spec fn first_block_from(bs: Seq<BlockV>, name: Seq<char>, i: int) -> Option<int>
    decreases bs.len() - i,
{
    if i < 0 || i >= bs.len() {
        None
    } else if bs[i].name == name {
        Some(i)
    } else {
        first_block_from(bs, name, i + 1)
    }
}

pub proof fn lemma_blocks_view(bs: Seq<Block>)
    ensures
        blocks_view(bs).len() == bs.len(),
        forall|i: int| 0 <= i < bs.len() ==> #[trigger] blocks_view(bs)[i] == block_view(bs[i]),
    decreases bs.len(),
{
    if bs.len() > 0 {
        lemma_blocks_view(bs.drop_first());
        assert forall|i: int| 0 <= i < bs.len() implies #[trigger] blocks_view(bs)[i] == block_view(bs[i]) by {
            if i > 0 {
                assert(bs.drop_first()[i - 1] == bs[i]);
            }
        }
    }
}

fn find_block(blocks: &Vec<Block>, name: &str, from: usize) -> (r: Option<usize>)
    ensures
        match r {
            Some(i) => first_block_from(blocks_view(blocks@), name@, from as int) == Some(i as int),
            None => first_block_from(blocks_view(blocks@), name@, from as int) is None,
        },
{
    let ghost bv = blocks_view(blocks@);
    proof {
        lemma_blocks_view(blocks@);
    }
    let mut i: usize = from;
    while i < blocks.len()
        invariant
            from <= i,
            bv == blocks_view(blocks@),
            bv.len() == blocks@.len(),
            forall|j: int| 0 <= j < blocks@.len() ==> #[trigger] bv[j] == block_view(blocks@[j]),
            first_block_from(bv, name@, from as int) == first_block_from(bv, name@, i as int),
        decreases blocks@.len() - i,
    {
        if str_eq(blocks[i].name.as_str(), name) {
            return Some(i);
        }
        i = i + 1;
    }
    None
}

/// The block that a loop renders when it has nothing to iterate: its first
/// `else` block.
pub open spec fn else_of(s: SectionV) -> Option<int> {
    first_block_from(s.blocks, "else"@, 0)
}

/// Chooses the block a loop renders when it has nothing to iterate.
pub fn else_block(section: &Section) -> (r: Option<usize>)
    ensures
        match r {
            Some(i) => else_of(section_view(*section)) == Some(i as int),
            None => else_of(section_view(*section)) is None,
        },
{
    find_block(&section.blocks, "else", 0)
}

/// What an `if` section asks for next, given the truth of the conditions
/// tested so far: its own condition first, then the `if` argument of each
/// `else if` block in order.
#[derive(Debug, Clone, Copy, PartialEq, Eq, Structural)]
pub enum IfStep {
    /// Test the section's own condition, its first argument.
    TestSection,
    /// Test argument `.1` of block `.0`: an `else if` condition.
    TestBlock(usize, usize),
    /// Render this block.
    Render(usize),
    /// Render nothing.
    Nothing,
}

/// The `else` blocks from `j` on, with `k` conditions tested before them:
/// an `else if` whose condition is untested asks for it, one that held
/// renders, a plain `else` renders; other blocks are skipped.
pub open spec fn if_walk(s: SectionV, j: int, k: int, outcomes: Seq<bool>) -> IfStep
    decreases s.blocks.len() - j,
{
    if j < 0 || j >= s.blocks.len() {
        IfStep::Nothing
    } else if s.blocks[j].name == "else"@ {
        match first_named(s.blocks[j].arguments, "if"@) {
            Some(a) => if k < 0 || k >= outcomes.len() {
                IfStep::TestBlock(j as usize, a as usize)
            } else if outcomes[k] {
                IfStep::Render(j as usize)
            } else {
                if_walk(s, j + 1, k + 1, outcomes)
            },
            None => IfStep::Render(j as usize),
        }
    } else {
        if_walk(s, j + 1, k, outcomes)
    }
}

/// What an `if` section asks for next: the body when its condition holds,
/// else the first `else if` whose condition holds, else a plain `else`.
pub open spec fn if_step_of(s: SectionV, outcomes: Seq<bool>) -> IfStep {
    if outcomes.len() == 0 {
        IfStep::TestSection
    } else if outcomes[0] {
        if s.blocks.len() > 0 {
            IfStep::Render(0)
        } else {
            IfStep::Nothing
        }
    } else {
        if_walk(s, 1, 1, outcomes)
    }
}

/// The next step of an `if` section, given the truth of the conditions
/// tested so far, in the order this function asked for them.
pub fn if_step(section: &Section, outcomes: &Vec<bool>) -> (r: IfStep)
    ensures
        r == if_step_of(section_view(*section), outcomes@),
        r matches IfStep::TestBlock(j, a) ==> j < section.blocks@.len() && a
            < section.blocks@[j as int].arguments@.len(),
        r matches IfStep::Render(j) ==> j < section.blocks@.len(),
{
    let ghost sv = section_view(*section);
    proof {
        lemma_blocks_view(section.blocks@);
    }
    if outcomes.len() == 0 {
        return IfStep::TestSection;
    }
    if outcomes[0] {
        return if section.blocks.len() > 0 {
            IfStep::Render(0)
        } else {
            IfStep::Nothing
        };
    }
    let mut j: usize = 1;
    let mut k: usize = 1;
    while j < section.blocks.len()
        invariant
            1 <= j,
            1 <= k <= outcomes@.len(),
            sv == section_view(*section),
            sv.blocks.len() == section.blocks@.len(),
            forall|m: int| 0 <= m < section.blocks@.len() ==> #[trigger] sv.blocks[m] == block_view(section.blocks@[m]),
            if_step_of(sv, outcomes@) == if_walk(sv, j as int, k as int, outcomes@),
        decreases section.blocks@.len() - j,
    {
        let b = &section.blocks[j];
        if str_eq(b.name.as_str(), "else") {
            match find_named(&b.arguments, "if") {
                Some(a) => {
                    if k >= outcomes.len() {
                        return IfStep::TestBlock(j, a);
                    } else if outcomes[k] {
                        return IfStep::Render(j);
                    }
                    k = k + 1;
                },
                None => {
                    return IfStep::Render(j);
                },
            }
        }
        j = j + 1;
    }
    IfStep::Nothing
}

/// Whether a fragment renders where it is declared.
#[derive(Debug, Clone, Copy, PartialEq, Eq, Structural)]
pub enum Visibility {
    /// It renders.
    Shown,
    /// It does not.
    Hidden,
    /// It renders when argument `.0` (its `rendered` condition) is truthy.
    When(usize),
}

/// An argument that hides a fragment: named `_hidden`, or a bare `_hidden`.
pub open spec fn hides(a: ArgumentV) -> bool {
    a.name == Some("_hidden"@) || (a.name is None && (a.value matches ArgumentValueV::Expression(
        ExprV::Identifier { name, .. },
    ) && name == "_hidden"@))
}

/// A fragment with a `_hidden` argument is hidden; else one with a
/// `rendered` argument renders when that condition holds; else it renders.
pub open spec fn visibility_of(s: SectionV) -> Visibility {
    if exists|i: int| 0 <= i < s.arguments.len() && hides(#[trigger] s.arguments[i]) {
        Visibility::Hidden
    } else {
        match first_named(s.arguments, "rendered"@) {
            Some(i) => Visibility::When(i as usize),
            None => Visibility::Shown,
        }
    }
}

fn hides_exec(a: &Argument) -> (r: bool)
    ensures
        r == hides(argument_view(*a)),
{
    match &a.name {
        Some(n) => str_eq(n.as_str(), "_hidden"),
        None => match &a.value {
            crate::compiler::ast::ArgumentValue::Expression(crate::compiler::expr::Expr::Identifier { name, .. }) => str_eq(
                name.as_str(),
                "_hidden",
            ),
            _ => false,
        },
    }
}

/// Whether a fragment section renders where it is declared.
pub fn fragment_visibility(section: &Section) -> (r: Visibility)
    ensures
        r == visibility_of(section_view(*section)),
        r matches Visibility::When(i) ==> i < section.arguments@.len(),
{
    let ghost av = arguments_view(section.arguments@);
    let mut i: usize = 0;
    while i < section.arguments.len()
        invariant
            i <= section.arguments@.len(),
            av == arguments_view(section.arguments@),
            forall|j: int| 0 <= j < i ==> !hides(#[trigger] av[j]),
        decreases section.arguments@.len() - i,
    {
        if hides_exec(&section.arguments[i]) {
            proof {
                assert(hides(av[i as int]));
            }
            return Visibility::Hidden;
        }
        i = i + 1;
    }
    match find_named(&section.arguments, "rendered") {
        Some(k) => Visibility::When(k),
        None => Visibility::Shown,
    }
}

/// The name an `insert` section fills: its first argument's text, or the
/// empty name of the including section's body.
pub open spec fn insert_name_of(s: SectionV) -> Seq<char> {
    if s.arguments.len() > 0 && static_text(s.arguments[0]) is Some {
        static_text(s.arguments[0])->0
    } else {
        Seq::empty()
    }
}

pub fn insert_name(section: &Section) -> (r: &str)
    ensures
        r@ == insert_name_of(section_view(*section)),
{
    proof {
        reveal_strlit("");
    }
    if section.arguments.len() > 0 {
        match section.arguments[0].static_text() {
            Some(t) => t,
            None => "",
        }
    } else {
        ""
    }
}

/// The position of the last block after the first that is named `name`, at
/// or before `i`.
pub open spec fn last_block_to(bs: Seq<BlockV>, name: Seq<char>, i: int) -> Option<int>
    decreases i,
{
    if i < 1 || i >= bs.len() {
        None
    } else if bs[i].name == name {
        Some(i)
    } else {
        last_block_to(bs, name, i - 1)
    }
}

/// The block an including section supplies for `insert name`: its last block
/// of that name, or for the empty name its body when that is not empty.
pub open spec fn override_of(s: SectionV, name: Seq<char>) -> Option<int> {
    match last_block_to(s.blocks, name, s.blocks.len() - 1) {
        Some(i) => Some(i),
        None => if name.len() == 0 && s.blocks.len() > 0 && s.blocks[0].nodes.len() > 0 {
            Some(0)
        } else {
            None
        },
    }
}

/// Finds the block an including section supplies for `insert name`.
pub fn override_block(section: &Section, name: &str) -> (r: Option<usize>)
    ensures
        match r {
            Some(i) => override_of(section_view(*section), name@) == Some(i as int),
            None => override_of(section_view(*section), name@) is None,
        },
{
    let ghost bv = blocks_view(section.blocks@);
    proof {
        lemma_blocks_view(section.blocks@);
    }
    proof {
        reveal_strlit("");
    }
    let n = section.blocks.len();
    let mut i: usize = n;
    while i > 1
        invariant
            i <= n,
            n == section.blocks@.len(),
            bv == blocks_view(section.blocks@),
            bv.len() == n,
            forall|j: int| 0 <= j < n ==> #[trigger] bv[j] == block_view(section.blocks@[j]),
            last_block_to(bv, name@, n - 1) == last_block_to(bv, name@, i - 1),
        decreases i,
    {
        if str_eq(section.blocks[i - 1].name.as_str(), name) {
            return Some(i - 1);
        }
        i = i - 1;
    }
    proof {
        reveal_strlit("");
        assert(bv.len() == n);
        assert(last_block_to(bv, name@, i - 1) is None);
    }
    if str_eq(name, "") && n > 0 && section.blocks[0].nodes.len() > 0 {
        proof {
            assert(name@.len() == 0);
            crate::compiler::parser::lemma_nodes_view(section.blocks@[0].nodes@);

        }
        Some(0)
    } else {
        proof {
            if n > 0 {
                crate::compiler::parser::lemma_nodes_view(section.blocks@[0].nodes@);
            }
            if name@.len() == 0 {
                assert(name@ =~= ""@);
            }
        }
        None
    }
}

/// Where the nodes of an `{#insert}` come from.
#[derive(Debug, Clone, Copy, PartialEq, Eq, Structural)]
pub enum InsertSource {
    /// Block `.0` of the including section, which overrides it.
    Supplied(usize),
    /// The insert's own first block, its default content.
    Default,
    /// Nothing renders.
    Nothing,
}

/// An insert renders the block of the including section that overrides its
/// name, where there is one, else its own default block.
pub open spec fn insert_source_of(including: Option<SectionV>, section: SectionV) -> InsertSource {
    let fallback = if section.blocks.len() > 0 {
        InsertSource::Default
    } else {
        InsertSource::Nothing
    };
    match including {
        Some(inc) => match override_of(inc, insert_name_of(section)) {
            Some(i) => InsertSource::Supplied(i as usize),
            None => fallback,
        },
        None => fallback,
    }
}

/// Where the nodes of the insert `section` come from, inside the section
/// `including` that included its template, if any.
pub fn insert_source(including: Option<&Section>, section: &Section) -> (r: InsertSource)
    ensures
        r == insert_source_of(
            match including {
                Some(inc) => Some(section_view(*inc)),
                None => None,
            },
            section_view(*section),
        ),
{
    let fallback = if section.blocks.len() > 0 {
        InsertSource::Default
    } else {
        InsertSource::Nothing
    };
    match including {
        Some(inc) => match override_block(inc, insert_name(section)) {
            Some(i) => InsertSource::Supplied(i),
            None => fallback,
        },
        None => fallback,
    }
}

/// One arm of a `when` or `switch`: a case block to compare, or the `else`
/// block that renders when no case matched.
#[derive(Debug, Clone, Copy, PartialEq, Eq, Structural)]
pub enum WhenArm {
    Case(usize),
    Otherwise(usize),
}

pub enum WhenArmV {
    Case(int),
    Otherwise(int),
}

pub open spec fn arm_view(a: WhenArm) -> WhenArmV {
    match a {
        WhenArm::Case(i) => WhenArmV::Case(i as int),
        WhenArm::Otherwise(i) => WhenArmV::Otherwise(i as int),
    }
}

/// The arms among the blocks `bs[i..]`: each block with an argument is a case,
/// and the first `else` block ends the list.
pub open spec fn arms_from(bs: Seq<BlockV>, i: int) -> Seq<WhenArmV>
    decreases bs.len() - i,
{
    if i < 0 || i >= bs.len() {
        Seq::empty()
    } else if bs[i].name == "else"@ {
        seq![WhenArmV::Otherwise(i)]
    } else if bs[i].arguments.len() > 0 {
        seq![WhenArmV::Case(i)] + arms_from(bs, i + 1)
    } else {
        arms_from(bs, i + 1)
    }
}

/// The arms of a `when` or `switch`, in the order they are tried.
pub fn when_arms(section: &Section) -> (r: Vec<WhenArm>)
    ensures
        r@.map_values(|a: WhenArm| arm_view(a)) == arms_from(section_view(*section).blocks, 1),
{
    let ghost bv = blocks_view(section.blocks@);
    proof {
        lemma_blocks_view(section.blocks@);
    }
    let mut out: Vec<WhenArm> = Vec::new();
    let mut i: usize = 1;
    proof {
        assert(out@.map_values(|a: WhenArm| arm_view(a)) =~= Seq::<WhenArmV>::empty());
    }
    while i < section.blocks.len()
        invariant
            1 <= i,
            bv == blocks_view(section.blocks@),
            bv.len() == section.blocks@.len(),
            forall|j: int| 0 <= j < bv.len() ==> #[trigger] bv[j] == block_view(section.blocks@[j]),
            out@.map_values(|a: WhenArm| arm_view(a)) + arms_from(bv, i as int) == arms_from(bv, 1),
        decreases section.blocks@.len() - i,
    {
        let ghost before = out@;
        if str_eq(section.blocks[i].name.as_str(), "else") {
            out.push(WhenArm::Otherwise(i));
            proof {
                assert(out@.map_values(|a: WhenArm| arm_view(a)) =~= before.map_values(|a: WhenArm| arm_view(a))
                    + seq![WhenArmV::Otherwise(i as int)]);
                assert(out@.map_values(|a: WhenArm| arm_view(a)) =~= arms_from(bv, 1));
            }
            return out;
        }
        if section.blocks[i].arguments.len() > 0 {
            out.push(WhenArm::Case(i));
            proof {
                assert(out@.map_values(|a: WhenArm| arm_view(a)) =~= before.map_values(|a: WhenArm| arm_view(a))
                    + seq![WhenArmV::Case(i as int)]);
                assert(before.map_values(|a: WhenArm| arm_view(a)) + (seq![WhenArmV::Case(i as int)]
                    + arms_from(bv, i + 1)) =~= out@.map_values(|a: WhenArm| arm_view(a)) + arms_from(
                    bv,
                    i + 1,
                ));
            }
        }
        i = i + 1;
    }
    proof {
        assert(out@.map_values(|a: WhenArm| arm_view(a)) + arms_from(bv, i as int) =~= out@.map_values(
            |a: WhenArm| arm_view(a),
        ));
    }
    out
}

// ---------------------------------------------------------------------------
// Loops
// ---------------------------------------------------------------------------

/// The name a loop gives each item: the text of its `alias` argument, else `it`.
pub open spec fn loop_alias_of(s: SectionV) -> Seq<char> {
    match first_named(s.arguments, "alias"@) {
        Some(i) => match static_text(s.arguments[i]) {
            Some(t) => t,
            None => "it"@,
        },
        None => "it"@,
    }
}

pub fn loop_alias(section: &Section) -> (r: String)
    ensures
        r@ == loop_alias_of(section_view(*section)),
{
    match find_named(&section.arguments, "alias") {
        Some(i) => match section.arguments[i].static_text() {
            Some(t) => t.to_string(),
            None => "it".to_string(),
        },
        None => "it".to_string(),
    }
}

/// The argument a loop iterates over: the one named `in`, else the first.
pub open spec fn loop_source_of(s: SectionV) -> Option<int> {
    match first_named(s.arguments, "in"@) {
        Some(i) => Some(i),
        None => if s.arguments.len() > 0 {
            Some(0)
        } else {
            None
        },
    }
}

pub fn loop_source(section: &Section) -> (r: Option<usize>)
    ensures
        match r {
            Some(i) => loop_source_of(section_view(*section)) == Some(i as int),
            None => loop_source_of(section_view(*section)) is None,
        },
{
    match find_named(&section.arguments, "in") {
        Some(i) => Some(i),
        None => if section.arguments.len() > 0 {
            Some(0)
        } else {
            None
        },
    }
}

} // verus!
