//! Structural rules that a syntax tree must follow, whether the parser built
//! it or a caller did.

use vstd::prelude::*;

use crate::compiler::ast::{
    argument_view, arguments_view, block_view, blocks_view, node_view, nodes_view, section_view,
    Argument, ArgumentV, ArgumentValue, ArgumentValueV, Block, BlockV, Node, NodeV, Section,
    SectionV, Template,
};
use crate::compiler::diagnostic::{make_diag, Diagnostic};
use crate::compiler::expr::{Expr, ExprV};
use crate::compiler::grammar::perr;
use crate::compiler::parser::{diag_view, diags_view, lemma_blocks_view, lemma_nodes_view, located};
use crate::compiler::pratt::{diagnostic_for, ParseError};
use crate::compiler::scan::is_word;
use crate::compiler::span::Span;
use crate::text::{ascii_alnum, chars_eq, chars_of, fits, is_ascii_alnum, push_chars};

verus! {

/// The text an argument names without evaluation: a string, raw text, or a
/// bare identifier.
pub open spec fn static_text(a: ArgumentV) -> Option<Seq<char>> {
    match a.value {
        ArgumentValueV::String(v) => Some(v),
        ArgumentValueV::Raw(v) => Some(v),
        ArgumentValueV::Expression(ExprV::Identifier { name, .. }) => Some(name),
        _ => None,
    }
}

/// Sections that take at least one argument.
pub open spec fn needs_argument(name: Seq<char>) -> bool {
    name == "if"@ || name == "for"@ || name == "when"@ || name == "include"@ || name == "fragment"@
        || name == "capture"@
}

/// Sections that declare a fragment.
pub open spec fn declares_fragment(name: Seq<char>) -> bool {
    name == "fragment"@ || name == "capture"@
}

/// Fragment IDs hold only ASCII letters, digits and underscores.
pub open spec fn fragment_id_ok(id: Seq<char>) -> bool {
    forall|i: int| 0 <= i < id.len() ==> is_ascii_alnum(#[trigger] id[i]) || id[i] == '_'
}

pub open spec fn fragment_id_message() -> Seq<char> {
    "fragment IDs may contain only ASCII letters, digits, and underscores"@
}

/// Named arguments (other than a loop's alias and iterable) given twice.
pub open spec fn duplicate_arguments(
    args: Seq<ArgumentV>,
    i: int,
    seen: Seq<Seq<char>>,
    diags: Seq<ParseError>,
) -> Seq<ParseError>
    decreases args.len() - i,
{
    if i < 0 || i >= args.len() {
        diags
    } else {
        match args[i].name {
            Some(n) => if n == "alias"@ || n == "in"@ {
                duplicate_arguments(args, i + 1, seen, diags)
            } else if seen.contains(n) {
                duplicate_arguments(
                    args,
                    i + 1,
                    seen,
                    diags.push(
                        perr(
                            "E_DUPLICATE_ARGUMENT",
                            "duplicate named argument `"@ + n + "`"@,
                            args[i].span,
                        ),
                    ),
                )
            } else {
                duplicate_arguments(args, i + 1, seen.push(n), diags)
            },
            None => duplicate_arguments(args, i + 1, seen, diags),
        }
    }
}

/// Blocks of an include given twice, from the block at `i` on.
pub open spec fn duplicate_blocks(bs: Seq<BlockV>, i: int, seen: Seq<Seq<char>>, diags: Seq<ParseError>) -> Seq<
    ParseError,
>
    decreases bs.len() - i,
{
    if i < 0 || i >= bs.len() {
        diags
    } else if seen.contains(bs[i].name) {
        duplicate_blocks(
            bs,
            i + 1,
            seen,
            diags.push(
                perr("E_DUPLICATE_BLOCK", "duplicate include block `"@ + bs[i].name + "`"@, bs[i].span),
            ),
        )
    } else {
        duplicate_blocks(bs, i + 1, seen.push(bs[i].name), diags)
    }
}

/// The fragment a section declares: its ID must be well formed and new.
pub open spec fn fragment_check(s: SectionV, frags: Seq<Seq<char>>, diags: Seq<ParseError>) -> (
    Seq<ParseError>,
    Seq<Seq<char>>,
) {
    if declares_fragment(s.name) && s.arguments.len() > 0 && static_text(s.arguments[0]) is Some {
        let id = static_text(s.arguments[0])->0;
        let d = if fragment_id_ok(id) {
            diags
        } else {
            diags.push(perr("E_FRAGMENT_ID", fragment_id_message(), s.arguments[0].span))
        };
        if frags.contains(id) {
            (d.push(perr("E_DUPLICATE_FRAGMENT", "duplicate fragment `"@ + id + "`"@, s.span)), frags)
        } else {
            (d, frags.push(id))
        }
    } else {
        (diags, frags)
    }
}

/// The rules on one section, not counting the sections inside it.
pub open spec fn check_section(s: SectionV, frags: Seq<Seq<char>>, diags: Seq<ParseError>) -> (
    Seq<ParseError>,
    Seq<Seq<char>>,
) {
    let d1 = if needs_argument(s.name) && s.arguments.len() == 0 {
        diags.push(perr("E_SECTION_SHAPE", "section `"@ + s.name + "` requires an argument"@, s.span))
    } else {
        diags
    };
    let d2 = duplicate_arguments(s.arguments, 0, Seq::empty(), d1);
    let (d3, f3) = fragment_check(s, frags, d2);
    let d4 = if s.name == "include"@ {
        duplicate_blocks(s.blocks, 1, Seq::empty(), d3)
    } else {
        d3
    };
    (d4, f3)
}

/// The rules on the nodes `ns[i..]` and everything inside them; `frags`
/// holds the fragment IDs declared so far.
pub open spec fn validate_nodes(ns: Seq<NodeV>, i: int, frags: Seq<Seq<char>>, diags: Seq<ParseError>) -> (
    Seq<ParseError>,
    Seq<Seq<char>>,
)
    decreases ns, ns.len() - i,
{
    if i < 0 || i >= ns.len() {
        (diags, frags)
    } else {
        match ns[i] {
            NodeV::Section(s) => {
                let (d1, f1) = check_section(s, frags, diags);
                let (d2, f2) = validate_blocks(s.blocks, 0, f1, d1);
                validate_nodes(ns, i + 1, f2, d2)
            },
            _ => validate_nodes(ns, i + 1, frags, diags),
        }
    }
}

/// The rules on the nodes of blocks `bs[j..]`.
pub open spec fn validate_blocks(bs: Seq<BlockV>, j: int, frags: Seq<Seq<char>>, diags: Seq<ParseError>) -> (
    Seq<ParseError>,
    Seq<Seq<char>>,
)
    decreases bs, bs.len() - j,
{
    if j < 0 || j >= bs.len() {
        (diags, frags)
    } else {
        let (d1, f1) = validate_nodes(bs[j].nodes, 0, frags, diags);
        validate_blocks(bs, j + 1, f1, d1)
    }
}

/// The errors that the structural rules find in a tree of nodes.
pub open spec fn validation(ns: Seq<NodeV>) -> Seq<ParseError> {
    validate_nodes(ns, 0, Seq::empty(), Seq::empty()).0
}


pub open spec fn seqs_view(v: Seq<Vec<char>>) -> Seq<Seq<char>> {
    v.map_values(|x: Vec<char>| x@)
}

proof fn lemma_seqs_view_push(v: Seq<Vec<char>>, x: Vec<char>)
    ensures
        seqs_view(v.push(x)) == seqs_view(v).push(x@),
{
    assert(seqs_view(v.push(x)) =~= seqs_view(v).push(x@));
}

/// `x` is one of `seen`.
pub(crate) fn contains_chars(seen: &Vec<Vec<char>>, x: &[char]) -> (r: bool)
    ensures
        r == seqs_view(seen@).contains(x@),
{
    let mut i: usize = 0;
    while i < seen.len()
        invariant
            i <= seen@.len(),
            forall|j: int| 0 <= j < i ==> seen@[j]@ != x@,
        decreases seen@.len() - i,
    {
        if chars_eq(seen[i].as_slice(), x) {
            proof {
                assert(seqs_view(seen@)[i as int] == x@);
            }
            return true;
        }
        i = i + 1;
    }
    proof {
        if seqs_view(seen@).contains(x@) {
            let j = choose|j: int| 0 <= j < seqs_view(seen@).len() && seqs_view(seen@)[j] == x@;
            assert(seen@[j]@ == x@);
        }
    }
    false
}

/// Records a diagnostic located in `src`.
fn warn(
    name: &str,
    src: &Vec<char>,
    diags: &mut Vec<Diagnostic>,
    code: &'static str,
    message: String,
    span: Span,
)
    requires
        fits(src@),
        located(old(diags)@, name@, src@),
    ensures
        diags_view(final(diags)@) == diags_view(old(diags)@).push(perr(code, message@, span)),
        located(final(diags)@, name@, src@),
{
    let d = make_diag(name, src, code, message, span);
    proof {
        assert(diags_view(diags@.push(d)) =~= diags_view(diags@).push(perr(code, message@, span)));
    }
    diags.push(d);
    proof {
        assert forall|i: int| 0 <= i < diags@.len() implies diagnostic_for(
            #[trigger] diags@[i],
            name@,
            src@,
            diag_view(diags@[i]),
        ) by {
            if i < diags@.len() - 1 {
                assert(diags@[i] == old(diags)@[i]);
            }
        }
    }
}

/// A message made of a prefix, a name and a suffix.
fn framed_message(prefix: &str, name: &[char], suffix: &str) -> (m: String)
    ensures
        m@ == prefix@ + name@ + suffix@,
{
    let mut m = String::new();
    crate::text::push_str(&mut m, prefix);
    push_chars(&mut m, name);
    crate::text::push_str(&mut m, suffix);
    proof {
        assert(m@ =~= prefix@ + name@ + suffix@);
    }
    m
}

impl Argument {
    /// The text this argument names without evaluation: a string, raw text,
    /// or a bare identifier.
    pub fn static_text(&self) -> (r: Option<&str>)
        ensures
            match r {
                Some(t) => static_text(argument_view(*self)) == Some(t@),
                None => static_text(argument_view(*self)) is None,
            },
    {
        match &self.value {
            ArgumentValue::String(v) => Some(v.as_str()),
            ArgumentValue::Raw(v) => Some(v.as_str()),
            ArgumentValue::Expression(Expr::Identifier { name, .. }) => Some(name.as_str()),
            _ => None,
        }
    }
}

fn duplicate_arguments_exec(name: &str, src: &Vec<char>, args: &Vec<Argument>, diags: &mut Vec<Diagnostic>)
    requires
        fits(src@),
        located(old(diags)@, name@, src@),
    ensures
        diags_view(final(diags)@) == duplicate_arguments(
            arguments_view(args@),
            0,
            Seq::empty(),
            diags_view(old(diags)@),
        ),
        located(final(diags)@, name@, src@),
{
    let ghost av = arguments_view(args@);
    let mut seen: Vec<Vec<char>> = Vec::new();
    let mut i: usize = 0;
    proof {
        assert(seqs_view(seen@) =~= Seq::<Seq<char>>::empty());
    }
    while i < args.len()
        invariant
            fits(src@),
            i <= args@.len(),
            av == arguments_view(args@),
            located(diags@, name@, src@),
            duplicate_arguments(av, 0, Seq::empty(), diags_view(old(diags)@)) == duplicate_arguments(
                av,
                i as int,
                seqs_view(seen@),
                diags_view(diags@),
            ),
        decreases args@.len() - i,
    {
        assert(av[i as int] == argument_view(args@[i as int]));
        match &args[i].name {
            Some(n) => {
                let nc = chars_of(n.as_str());
                if is_word(nc.as_slice(), "alias") || is_word(nc.as_slice(), "in") {
                } else if contains_chars(&seen, nc.as_slice()) {
                    let message = framed_message("duplicate named argument `", nc.as_slice(), "`");
                    warn(name, src, diags, "E_DUPLICATE_ARGUMENT", message, args[i].span);
                } else {
                    proof {
                        lemma_seqs_view_push(seen@, nc);
                    }
                    seen.push(nc);
                }
            },
            None => {},
        }
        i = i + 1;
    }
}

fn duplicate_blocks_exec(name: &str, src: &Vec<char>, bs: &Vec<Block>, diags: &mut Vec<Diagnostic>)
    requires
        fits(src@),
        located(old(diags)@, name@, src@),
    ensures
        diags_view(final(diags)@) == duplicate_blocks(blocks_view(bs@), 1, Seq::empty(), diags_view(old(diags)@)),
        located(final(diags)@, name@, src@),
{
    let ghost bv = blocks_view(bs@);
    proof {
        lemma_blocks_view(bs@);
    }
    let mut seen: Vec<Vec<char>> = Vec::new();
    let mut i: usize = 1;
    proof {
        assert(seqs_view(seen@) =~= Seq::<Seq<char>>::empty());
    }
    if bs.len() == 0 {
        return;
    }
    while i < bs.len()
        invariant
            fits(src@),
            1 <= i <= bs@.len(),
            bv == blocks_view(bs@),
            bv.len() == bs@.len(),
            forall|k: int| 0 <= k < bs@.len() ==> #[trigger] bv[k] == block_view(bs@[k]),
            located(diags@, name@, src@),
            duplicate_blocks(bv, 1, Seq::empty(), diags_view(old(diags)@)) == duplicate_blocks(
                bv,
                i as int,
                seqs_view(seen@),
                diags_view(diags@),
            ),
        decreases bs@.len() - i,
    {
        assert(bv[i as int] == block_view(bs@[i as int]));
        let nc = chars_of(bs[i].name.as_str());
        if contains_chars(&seen, nc.as_slice()) {
            let message = framed_message("duplicate include block `", nc.as_slice(), "`");
            warn(name, src, diags, "E_DUPLICATE_BLOCK", message, bs[i].span);
        } else {
            proof {
                lemma_seqs_view_push(seen@, nc);
            }
            seen.push(nc);
        }
        i = i + 1;
    }
}

fn fragment_id_ok_exec(id: &[char]) -> (r: bool)
    ensures
        r == fragment_id_ok(id@),
{
    let mut i: usize = 0;
    while i < id.len()
        invariant
            i <= id@.len(),
            forall|j: int| 0 <= j < i ==> is_ascii_alnum(#[trigger] id@[j]) || id@[j] == '_',
        decreases id@.len() - i,
    {
        if !(ascii_alnum(id[i]) || id[i] == '_') {
            return false;
        }
        i = i + 1;
    }
    true
}

fn check_section_exec(
    name: &str,
    src: &Vec<char>,
    s: &Section,
    frags: &mut Vec<Vec<char>>,
    diags: &mut Vec<Diagnostic>,
)
    requires
        fits(src@),
        located(old(diags)@, name@, src@),
    ensures
        (diags_view(final(diags)@), seqs_view(final(frags)@)) == check_section(
            section_view(*s),
            seqs_view(old(frags)@),
            diags_view(old(diags)@),
        ),
        located(final(diags)@, name@, src@),
{
    let sname = chars_of(s.name.as_str());
    let n = sname.as_slice();
    let needs = is_word(n, "if") || is_word(n, "for") || is_word(n, "when") || is_word(n, "include")
        || is_word(n, "fragment") || is_word(n, "capture");
    if needs && s.arguments.len() == 0 {
        let message = framed_message("section `", n, "` requires an argument");
        warn(name, src, diags, "E_SECTION_SHAPE", message, s.span);
    }
    duplicate_arguments_exec(name, src, &s.arguments, diags);
    let fragment = is_word(n, "fragment") || is_word(n, "capture");
    if fragment && s.arguments.len() > 0 {
        assert(arguments_view(s.arguments@)[0] == argument_view(s.arguments@[0]));
        match s.arguments[0].static_text() {
            Some(t) => {
                let id = chars_of(t);
                if !fragment_id_ok_exec(id.as_slice()) {
                    warn(
                        name,
                        src,
                        diags,
                        "E_FRAGMENT_ID",
                        "fragment IDs may contain only ASCII letters, digits, and underscores".to_owned(),
                        s.arguments[0].span,
                    );
                }
                if contains_chars(frags, id.as_slice()) {
                    let message = framed_message("duplicate fragment `", id.as_slice(), "`");
                    warn(name, src, diags, "E_DUPLICATE_FRAGMENT", message, s.span);
                } else {
                    proof {
                        lemma_seqs_view_push(frags@, id);
                    }
                    frags.push(id);
                }
            },
            None => {},
        }
    }
    if is_word(n, "include") {
        duplicate_blocks_exec(name, src, &s.blocks, diags);
    }
}

/// Applies the structural rules to `ns` and everything inside it.
pub(crate) fn validate_nodes_exec(
    name: &str,
    src: &Vec<char>,
    ns: &Vec<Node>,
    frags: &mut Vec<Vec<char>>,
    diags: &mut Vec<Diagnostic>,
)
    requires
        fits(src@),
        located(old(diags)@, name@, src@),
    ensures
        (diags_view(final(diags)@), seqs_view(final(frags)@)) == validate_nodes(
            nodes_view(ns@),
            0,
            seqs_view(old(frags)@),
            diags_view(old(diags)@),
        ),
        located(final(diags)@, name@, src@),
    decreases ns@,
{
    let ghost nv = nodes_view(ns@);
    proof {
        lemma_nodes_view(ns@);
    }
    let mut i: usize = 0;
    while i < ns.len()
        invariant
            fits(src@),
            i <= ns@.len(),
            nv == nodes_view(ns@),
            nv.len() == ns@.len(),
            forall|k: int| 0 <= k < ns@.len() ==> #[trigger] nv[k] == node_view(ns@[k]),
            located(diags@, name@, src@),
            validate_nodes(nv, 0, seqs_view(old(frags)@), diags_view(old(diags)@)) == validate_nodes(
                nv,
                i as int,
                seqs_view(frags@),
                diags_view(diags@),
            ),
        decreases ns@.len() - i,
    {
        assert(nv[i as int] == node_view(ns@[i as int]));
        match &ns[i] {
            Node::Section(s) => {
                check_section_exec(name, src, s, frags, diags);
                proof {
                    assert(decreases_to!(ns@ => ns@[i as int]));
                }
                validate_blocks_exec(name, src, &s.blocks, frags, diags);
            },
            _ => {},
        }
        i = i + 1;
    }
}

/// Applies the structural rules to the nodes of each block.
fn validate_blocks_exec(
    name: &str,
    src: &Vec<char>,
    bs: &Vec<Block>,
    frags: &mut Vec<Vec<char>>,
    diags: &mut Vec<Diagnostic>,
)
    requires
        fits(src@),
        located(old(diags)@, name@, src@),
    ensures
        (diags_view(final(diags)@), seqs_view(final(frags)@)) == validate_blocks(
            blocks_view(bs@),
            0,
            seqs_view(old(frags)@),
            diags_view(old(diags)@),
        ),
        located(final(diags)@, name@, src@),
    decreases bs@,
{
    let ghost bv = blocks_view(bs@);
    proof {
        lemma_blocks_view(bs@);
    }
    let mut j: usize = 0;
    while j < bs.len()
        invariant
            fits(src@),
            j <= bs@.len(),
            bv == blocks_view(bs@),
            bv.len() == bs@.len(),
            forall|k: int| 0 <= k < bs@.len() ==> #[trigger] bv[k] == block_view(bs@[k]),
            located(diags@, name@, src@),
            validate_blocks(bv, 0, seqs_view(old(frags)@), diags_view(old(diags)@)) == validate_blocks(
                bv,
                j as int,
                seqs_view(frags@),
                diags_view(diags@),
            ),
        decreases bs@.len() - j,
    {
        assert(bv[j as int] == block_view(bs@[j as int]));
        validate_nodes_exec(name, src, &bs[j].nodes, frags, diags);
        j = j + 1;
    }
}


/// Checks a caller-built or modified syntax tree against the structural rules.
pub fn validate(template: &Template) -> (r: Vec<Diagnostic>)
    requires
        fits(template.source@),
    ensures
        diags_view(r@) == validation(nodes_view(template.nodes@)),
        located(r@, template.name@, template.source@),
{
    let src = chars_of(template.source.as_str());
    let mut frags: Vec<Vec<char>> = Vec::new();
    let mut diags: Vec<Diagnostic> = Vec::new();
    proof {
        assert(seqs_view(frags@) =~= Seq::<Seq<char>>::empty());
        assert(diags_view(diags@) =~= Seq::<ParseError>::empty());
    }
    validate_nodes_exec(template.name.as_str(), &src, &template.nodes, &mut frags, &mut diags);
    diags
}

} // verus!
