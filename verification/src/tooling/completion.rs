//! What the editor offers to complete at a cursor: the lexical context of the
//! cursor, and the names that fit there.

use vstd::prelude::*;

use crate::compiler::args::{tag_end, tag_end_from};
use crate::compiler::grammar::{pipe_delimiter, pipe_run};
use crate::compiler::parser::{pipe_delimiter_exec, pipe_run_exec};
use crate::compiler::scan::{
    char_range, find, find_from, find_index, first_space_from, first_space_index, lemma_find_from_found,
    trim_end, trim_end_at, trim_end_index, trim_start, trim_start_at, trim_start_index,
};
use crate::text::{
    ascii_alnum, byte_at, is_alphanumeric, is_ascii_alnum, is_space, is_whitespace, starts_at,
    starts_with_at, alphanumeric,
};
use crate::compiler::ast::{block_view, node_view, nodes_view, section_view, Node, NodeV, Section, SectionV};
use crate::compiler::diagnostic::{char_index_at, char_index_at_byte};
use crate::compiler::outline::{block_names_of, built_in_block_names};
use crate::compiler::parser::lemma_nodes_view;
use crate::engine::plan::lemma_blocks_view;
use crate::error::is_char_boundary;
use crate::text::{byte_offsets, chars_of, fits};
use crate::tooling::semantic::{
    covers, declaration_detail_of, decl_refs_view, decl_view, index_inputs_ok, index_of, visible_of,
    DeclV, SemanticIndex, index_view,
};
use crate::tooling::spans::{find_last, lemma_boundary_index, rfind_index};

verus! {

// ---------------------------------------------------------------------------
// Expression positions
// ---------------------------------------------------------------------------

/// The quote still open after scanning `s[i..]` from the given state; a
/// backslash inside quotes escapes the next character.
pub open spec fn open_quote(s: Seq<char>, i: int, quote: Option<char>, escaped: bool) -> Option<char>
    decreases s.len() - i,
{
    if i < 0 || i >= s.len() {
        quote
    } else {
        let c = s[i];
        if escaped {
            open_quote(s, i + 1, quote, false)
        } else if c == '\\' && quote is Some {
            open_quote(s, i + 1, quote, true)
        } else if quote == Some(c) {
            open_quote(s, i + 1, None, false)
        } else if quote is None && (c == '\'' || c == '"') {
            open_quote(s, i + 1, Some(c), false)
        } else {
            open_quote(s, i + 1, quote, false)
        }
    }
}

/// A character of an identifier.
pub open spec fn ident_char(c: char) -> bool {
    alphanumeric(c) || c == '_'
}

/// Where the identifier that ends at `k` starts.
pub open spec fn ident_start(t: Seq<char>, k: int) -> int
    decreases k,
{
    if 0 < k <= t.len() && ident_char(t[k - 1]) {
        ident_start(t, k - 1)
    } else {
        k
    }
}

/// The text before the cursor ends where an expression may name a
/// variable: no quote is open, and the identifier being typed does not
/// follow a `.` or `:`.
pub open spec fn expression_position(content: Seq<char>) -> bool {
    if open_quote(content, 0, None, false) is Some {
        false
    } else {
        let trimmed = trim_end(content);
        let k = ident_start(trimmed, trimmed.len() as int);
        !(k > 0 && (trimmed[k - 1] == '.' || trimmed[k - 1] == ':'))
    }
}

fn quote_open(s: &Vec<char>) -> (r: bool)
    ensures
        r == open_quote(s@, 0, None, false) is Some,
{
    let mut quote: Option<char> = None;
    let mut escaped = false;
    let mut i: usize = 0;
    while i < s.len()
        invariant
            i <= s@.len(),
            open_quote(s@, 0, None, false) == open_quote(s@, i as int, quote, escaped),
        decreases s@.len() - i,
    {
        let c = s[i];
        if escaped {
            escaped = false;
        } else if c == '\\' && quote.is_some() {
            escaped = true;
        } else if quote == Some(c) {
            quote = None;
        } else if quote.is_none() && (c == '\'' || c == '"') {
            quote = Some(c);
        }
        i = i + 1;
    }
    quote.is_some()
}

/// Whether the text before the cursor ends where a variable may be named.
pub fn at_expression_position(content: &Vec<char>) -> (r: bool)
    ensures
        r == expression_position(content@),
{
    if quote_open(content) {
        return false;
    }
    let e = trim_end_index(content.as_slice(), content.len());
    let trimmed = char_range(content.as_slice(), 0, e);
    proof {
        assert(trimmed@ =~= trim_end(content@));
    }
    let mut k: usize = trimmed.len();
    while k > 0 && (is_alphanumeric(trimmed[k - 1]) || trimmed[k - 1] == '_')
        invariant
            k <= trimmed@.len(),
            ident_start(trimmed@, trimmed@.len() as int) == ident_start(trimmed@, k as int),
        decreases k,
    {
        k = k - 1;
    }
    !(k > 0 && (trimmed[k - 1] == '.' || trimmed[k - 1] == ':'))
}

/// The first place where `word` stands alone in `t`, and the text after it.
pub open spec fn word_at(t: Seq<char>, word: Seq<char>, k: int) -> bool {
    &&& starts_at(t, k, word)
    &&& (k == 0 || is_space(t[k - 1]))
    &&& (k + word.len() == t.len() || is_space(t[k + word.len()]))
}

pub open spec fn after_word_from(t: Seq<char>, word: Seq<char>, k: int) -> Option<Seq<char>>
    decreases t.len() - k,
{
    if k < 0 || k >= t.len() {
        None
    } else if word_at(t, word, k) {
        Some(t.skip(k + word.len()))
    } else {
        after_word_from(t, word, k + 1)
    }
}

fn after_word(t: &Vec<char>, word: &Vec<char>) -> (r: Option<Vec<char>>)
    ensures
        match after_word_from(t@, word@, 0) {
            Some(x) => r matches Some(y) && y@ == x,
            None => r is None,
        },
{
    let mut k: usize = 0;
    while k < t.len()
        invariant
            k <= t@.len(),
            after_word_from(t@, word@, 0) == after_word_from(t@, word@, k as int),
        decreases t@.len() - k,
    {
        if starts_with_at(t.as_slice(), k, word.as_slice()) {
            let end = k + word.len();
            let before = k == 0 || is_whitespace(t[k - 1]);
            let after = end == t.len() || is_whitespace(t[end]);
            if before && after {
                return Some(char_range(t.as_slice(), end, t.len()));
            }
        }
        k = k + 1;
    }
    None
}

/// The name of a section tag being typed, split from its arguments.
pub open spec fn section_parts(content: Seq<char>) -> (Seq<char>, Seq<char>) {
    let c = trim_start(content);
    let split = first_space_from(c, 0);
    (c.take(split), trim_start(c.skip(split)))
}

/// The text after `{#` ends where a variable may be named: in the condition
/// of `if`, `when` or `with`, after the `in` of a `for`, after `else if`, and
/// after the last `=` of any other section's arguments.
pub open spec fn section_expression_position(content: Seq<char>) -> bool {
    let (name, arguments) = section_parts(content);
    if name == "if"@ || name == "when"@ || name == "with"@ {
        expression_position(arguments)
    } else if name == "for"@ {
        match after_word_from(arguments, "in"@, 0) {
            Some(rest) => expression_position(rest),
            None => false,
        }
    } else if name == "else"@ {
        if arguments.len() >= 2 && arguments.take(2) == "if"@ {
            expression_position(arguments.skip(2))
        } else {
            false
        }
    } else {
        match find_last(arguments, "="@) {
            Some(k) => expression_position(arguments.skip(k + 1)),
            None => false,
        }
    }
}

fn chars_of_literal(s: &str) -> (r: Vec<char>)
    ensures
        r@ == s@,
{
    crate::text::chars_of(s)
}

/// Whether the text after `{#` ends where a variable may be named.
pub fn at_section_expression_position(content: &Vec<char>) -> (r: bool)
    ensures
        r == section_expression_position(content@),
{
    let a = trim_start_index(content.as_slice(), 0);
    let c = char_range(content.as_slice(), a, content.len());
    proof {
        assert(c@ =~= trim_start(content@));
    }
    let split = first_space_index(c.as_slice(), 0);
    let name = char_range(c.as_slice(), 0, split);
    let rest = char_range(c.as_slice(), split, c.len());
    let b = trim_start_index(rest.as_slice(), 0);
    let arguments = char_range(rest.as_slice(), b, rest.len());
    proof {
        assert(name@ =~= c@.take(split as int));
        assert(rest@ =~= c@.skip(split as int));
        assert(arguments@ =~= trim_start(c@.skip(split as int)));
    }
    let n = name.as_slice();
    if crate::compiler::scan::is_word(n, "if") || crate::compiler::scan::is_word(n, "when")
        || crate::compiler::scan::is_word(n, "with") {
        at_expression_position(&arguments)
    } else if crate::compiler::scan::is_word(n, "for") {
        let word = chars_of_literal("in");
        match after_word(&arguments, &word) {
            Some(rest) => at_expression_position(&rest),
            None => false,
        }
    } else if crate::compiler::scan::is_word(n, "else") {
        let prefix = chars_of_literal("if");
        if starts_with_at(arguments.as_slice(), 0, prefix.as_slice()) {
            proof {
                reveal_strlit("if");
                assert(arguments@.subrange(0, 2) =~= arguments@.take(2));
            }
            let tail = char_range(arguments.as_slice(), 2, arguments.len());
            at_expression_position(&tail)
        } else {
            proof {
                reveal_strlit("if");
                if arguments@.len() >= 2 && arguments@.take(2) == "if"@ {
                    assert(arguments@.subrange(0, 2) =~= arguments@.take(2));
                }
            }
            false
        }
    } else {
        let eq = chars_of_literal("=");
        proof {
            reveal_strlit("=");
        }
        match rfind_index(arguments.as_slice(), eq.as_slice()) {
            Some(k) => {
                let tail = char_range(arguments.as_slice(), k + 1, arguments.len());
                at_expression_position(&tail)
            },
            None => false,
        }
    }
}

// ---------------------------------------------------------------------------
// The lexical context of the cursor
// ---------------------------------------------------------------------------

/// Where the cursor stands in the text before it: in plain text, inside a
/// comment or unparsed block, or in a tag that starts at `start` (a character
/// index) with `content` after its `{`.
pub enum ContextV {
    Plain,
    Suppressed,
    Tag { start: int, content: Seq<char> },
}

/// A `{` followed by this starts a tag.
pub open spec fn opens_a_tag(rest: Seq<char>) -> bool {
    rest.len() == 0 || is_ascii_alnum(rest[0]) || rest[0] == '_' || rest[0] == '#' || rest[0] == '/' || rest[0] == '@'
}

/// The context of the end of `p`, scanning from character `at`.
pub open spec fn context_from(p: Seq<char>, at: int) -> ContextV
    decreases p.len() + 1 - at,
{
    if at < 0 || at > p.len() {
        ContextV::Plain
    } else {
        match find_from(p, seq!['{'], at) {
            None => ContextV::Plain,
            Some(start) => {
                let rest = p.skip(start + 1);
                if start < at || start >= p.len() {
                    ContextV::Plain
                } else if start > 0 && p[start - 1] == '\\' {
                    context_from(p, start + 1)
                } else if rest.len() > 0 && rest[0] == '!' {
                    match find(rest.skip(1), "!}"@) {
                        None => ContextV::Suppressed,
                        Some(e) => if start + 2 + e + 2 <= p.len() && e >= 0 {
                            context_from(p, start + 2 + e + 2)
                        } else {
                            ContextV::Plain
                        },
                    }
                } else if rest.len() > 0 && rest[0] == '|' {
                    let k = pipe_run(rest, 0);
                    match find(rest.skip(k), pipe_delimiter(k as nat)) {
                        None => ContextV::Suppressed,
                        Some(e) => if start + 1 + k + e + k + 1 <= p.len() && k >= 0 && e >= 0 {
                            context_from(p, start + 1 + k + e + k + 1)
                        } else {
                            ContextV::Plain
                        },
                    }
                } else if !opens_a_tag(rest) {
                    context_from(p, start + 1)
                } else {
                    match tag_end_from(rest, 0, None) {
                        Some(e) => if start + 1 + e + 1 <= p.len() && e >= 0 {
                            context_from(p, start + 1 + e + 1)
                        } else {
                            ContextV::Plain
                        },
                        None => ContextV::Tag { start, content: rest },
                    }
                }
            },
        }
    }
}

/// The context of the end of `p`.
pub open spec fn context_of(p: Seq<char>) -> ContextV {
    context_from(p, 0)
}

/// The context of the end of the text before the cursor.
pub enum Context {
    Plain,
    Suppressed,
    Tag { start: usize, content: Vec<char> },
}

pub open spec fn context_view(c: Context) -> ContextV {
    match c {
        Context::Plain => ContextV::Plain,
        Context::Suppressed => ContextV::Suppressed,
        Context::Tag { start, content } => ContextV::Tag { start: start as int, content: content@ },
    }
}

/// The context of the end of `p`, the text before the cursor.
pub fn lexical_context(p: &Vec<char>) -> (r: Context)
    ensures
        context_view(r) == context_of(p@),
        r matches Context::Tag { start, .. } ==> start < p@.len(),
{
    let open = chars_of_literal("{");
    let comment_end = chars_of_literal("!}");
    proof {
        reveal_strlit("{");
        reveal_strlit("!}");
        assert(open@ =~= seq!['{']);
    }
    let n = p.len();
    let mut at: usize = 0;
    while at <= n
        invariant
            n == p@.len(),
            at <= p@.len() + 1,
            open@ == seq!['{'],
            comment_end@ == "!}"@,
            comment_end@.len() == 2,
            context_of(p@) == context_from(p@, at as int),
        decreases p@.len() + 1 - at,
    {
        let found = find_index(p.as_slice(), open.as_slice(), at);
        proof {
            lemma_find_from_found(p@, seq!['{'], at as int);
        }
        match found {
            None => {
                return Context::Plain;
            },
            Some(start) => {
                proof {
                    assert(p@[start as int] == '{') by {
                        assert(p@.subrange(start as int, start + 1)[0] == p@[start as int]);
                    }
                }
                let rest = char_range(p.as_slice(), start + 1, p.len());
                proof {
                    assert(rest@ =~= p@.skip(start + 1));
                }
                if start > 0 && p[start - 1] == '\\' {
                    at = start + 1;
                } else if rest.len() > 0 && rest[0] == '!' {
                    let body = char_range(rest.as_slice(), 1, rest.len());
                    proof {
                        assert(body@ =~= rest@.skip(1));
                    }
                    match find_index(body.as_slice(), comment_end.as_slice(), 0) {
                        None => {
                            return Context::Suppressed;
                        },
                        Some(e) => {
                            at = start + 2 + e + 2;
                        },
                    }
                } else if rest.len() > 0 && rest[0] == '|' {
                    let k = pipe_run_exec(&rest, 0);
                    let delimiter = pipe_delimiter_exec(k);
                    let body = char_range(rest.as_slice(), k, rest.len());
                    proof {
                        assert(body@ =~= rest@.skip(k as int));
                    }
                    match find_index(body.as_slice(), delimiter.as_slice(), 0) {
                        None => {
                            return Context::Suppressed;
                        },
                        Some(e) => {
                            at = start + 1 + k + e + k + 1;
                        },
                    }
                } else if !(rest.len() == 0 || ascii_alnum(rest[0]) || rest[0] == '_' || rest[0] == '#'
                    || rest[0] == '/' || rest[0] == '@') {
                    at = start + 1;
                } else {
                    match tag_end(rest.as_slice(), 0) {
                        Some(e) => {
                            at = start + 1 + e + 1;
                        },
                        None => {
                            return Context::Tag { start, content: rest };
                        },
                    }
                }
            },
        }
    }
    Context::Plain
}

// ---------------------------------------------------------------------------
// Where the syntax tree decides
// ---------------------------------------------------------------------------

/// The cursor is inside a comment or unparsed block among `ns[i..]`.
pub open spec fn suppressed_from(ns: Seq<NodeV>, i: int, cursor: int) -> bool
    decreases ns, ns.len() - i,
{
    if i < 0 || i >= ns.len() {
        false
    } else {
        (match ns[i] {
            NodeV::Comment { span, .. } => covers(span, cursor),
            NodeV::Unparsed { span, .. } => covers(span, cursor),
            NodeV::Section(s) => suppressed_blocks(s, 0, cursor),
            _ => false,
        }) || suppressed_from(ns, i + 1, cursor)
    }
}

pub open spec fn suppressed_blocks(s: SectionV, j: int, cursor: int) -> bool
    decreases s.blocks, s.blocks.len() - j,
{
    if j < 0 || j >= s.blocks.len() {
        false
    } else {
        suppressed_from(s.blocks[j].nodes, 0, cursor) || suppressed_blocks(s, j + 1, cursor)
    }
}

fn suppressed_exec(nodes: &Vec<Node>, cursor: usize) -> (r: bool)
    ensures
        r == suppressed_from(nodes_view(nodes@), 0, cursor as int),
    decreases nodes,
{
    let ghost nv = nodes_view(nodes@);
    proof {
        lemma_nodes_view(nodes@);
    }
    let mut i: usize = 0;
    while i < nodes.len()
        invariant
            i <= nodes@.len(),
            nv == nodes_view(nodes@),
            nv.len() == nodes@.len(),
            forall|j: int| 0 <= j < nodes@.len() ==> #[trigger] nv[j] == node_view(nodes@[j]),
            suppressed_from(nv, 0, cursor as int) == suppressed_from(nv, i as int, cursor as int),
        decreases nodes@.len() - i,
    {
        proof {
            assert(decreases_to!(nodes => nodes@[i as int]));
        }
        let hit = match &nodes[i] {
            Node::Comment { span, .. } => span.start <= cursor && cursor < span.end,
            Node::Unparsed { span, .. } => span.start <= cursor && cursor < span.end,
            Node::Section(section) => suppressed_section(section, cursor),
            _ => false,
        };
        if hit {
            return true;
        }
        i = i + 1;
    }
    false
}

fn suppressed_section(s: &Section, cursor: usize) -> (r: bool)
    ensures
        r == suppressed_blocks(section_view(*s), 0, cursor as int),
    decreases s,
{
    let ghost sv = section_view(*s);
    proof {
        lemma_blocks_view(s.blocks@);
    }
    let mut j: usize = 0;
    while j < s.blocks.len()
        invariant
            j <= s.blocks@.len(),
            sv == section_view(*s),
            sv.blocks.len() == s.blocks@.len(),
            forall|k: int| 0 <= k < s.blocks@.len() ==> #[trigger] sv.blocks[k] == block_view(s.blocks@[k]),
            suppressed_blocks(sv, 0, cursor as int) == suppressed_blocks(sv, j as int, cursor as int),
        decreases s.blocks@.len() - j,
    {
        proof {
            assert(decreases_to!(s => s.blocks));
            assert(decreases_to!(s.blocks => s.blocks@[j as int]));
            assert(decreases_to!(s.blocks@[j as int] => s.blocks@[j as int].nodes));
        }
        if suppressed_exec(&s.blocks[j].nodes, cursor) {
            return true;
        }
        j = j + 1;
    }
    false
}

/// The innermost section among `ns[i..]` whose range holds the cursor
/// (after its start, up to its end).
pub open spec fn containing_from(ns: Seq<NodeV>, i: int, cursor: int) -> Option<SectionV>
    decreases ns, ns.len() - i,
{
    if i < 0 || i >= ns.len() {
        None
    } else {
        match ns[i] {
            NodeV::Section(s) => if s.span.start < cursor <= s.span.end {
                match containing_blocks(s, 0, cursor) {
                    Some(x) => Some(x),
                    None => Some(s),
                }
            } else {
                containing_from(ns, i + 1, cursor)
            },
            _ => containing_from(ns, i + 1, cursor),
        }
    }
}

pub open spec fn containing_blocks(s: SectionV, j: int, cursor: int) -> Option<SectionV>
    decreases s.blocks, s.blocks.len() - j,
{
    if j < 0 || j >= s.blocks.len() {
        None
    } else {
        match containing_from(s.blocks[j].nodes, 0, cursor) {
            Some(x) => Some(x),
            None => containing_blocks(s, j + 1, cursor),
        }
    }
}

fn containing_exec(nodes: &Vec<Node>, cursor: usize) -> (r: Option<&Section>)
    ensures
        match containing_from(nodes_view(nodes@), 0, cursor as int) {
            Some(x) => r matches Some(s) && section_view(*s) == x,
            None => r is None,
        },
    decreases nodes,
{
    let ghost nv = nodes_view(nodes@);
    proof {
        lemma_nodes_view(nodes@);
    }
    let mut i: usize = 0;
    while i < nodes.len()
        invariant
            i <= nodes@.len(),
            nv == nodes_view(nodes@),
            nv.len() == nodes@.len(),
            forall|j: int| 0 <= j < nodes@.len() ==> #[trigger] nv[j] == node_view(nodes@[j]),
            containing_from(nv, 0, cursor as int) == containing_from(nv, i as int, cursor as int),
        decreases nodes@.len() - i,
    {
        proof {
            assert(decreases_to!(nodes => nodes@[i as int]));
        }
        match &nodes[i] {
            Node::Section(section) => {
                if section.span.start < cursor && cursor <= section.span.end {
                    return match containing_in_blocks(section, cursor) {
                        Some(x) => Some(x),
                        None => Some(section),
                    };
                }
            },
            _ => {},
        }
        i = i + 1;
    }
    None
}

fn containing_in_blocks(s: &Section, cursor: usize) -> (r: Option<&Section>)
    ensures
        match containing_blocks(section_view(*s), 0, cursor as int) {
            Some(x) => r matches Some(y) && section_view(*y) == x,
            None => r is None,
        },
    decreases s,
{
    let ghost sv = section_view(*s);
    proof {
        lemma_blocks_view(s.blocks@);
    }
    let mut j: usize = 0;
    while j < s.blocks.len()
        invariant
            j <= s.blocks@.len(),
            sv == section_view(*s),
            sv.blocks.len() == s.blocks@.len(),
            forall|k: int| 0 <= k < s.blocks@.len() ==> #[trigger] sv.blocks[k] == block_view(s.blocks@[k]),
            containing_blocks(sv, 0, cursor as int) == containing_blocks(sv, j as int, cursor as int),
        decreases s.blocks@.len() - j,
    {
        proof {
            assert(decreases_to!(s => s.blocks));
            assert(decreases_to!(s.blocks => s.blocks@[j as int]));
            assert(decreases_to!(s.blocks@[j as int] => s.blocks@[j as int].nodes));
        }
        match containing_exec(&s.blocks[j].nodes, cursor) {
            Some(x) => {
                return Some(x);
            },
            None => {},
        }
        j = j + 1;
    }
    None
}

// ---------------------------------------------------------------------------
// Completions
// ---------------------------------------------------------------------------

/// What a completion inserts.
#[derive(Debug, Clone, Copy, PartialEq, Eq, Structural)]
pub enum CompletionKind {
    Keyword,
    Variable,
}

/// One completion: its label, its kind and a short description.
#[derive(Debug)]
pub struct Candidate {
    pub label: String,
    pub kind: CompletionKind,
    pub detail: String,
}

pub struct CandidateV {
    pub label: Seq<char>,
    pub kind: CompletionKind,
    pub detail: Seq<char>,
}

pub open spec fn candidate_view(c: Candidate) -> CandidateV {
    CandidateV { label: c.label@, kind: c.kind, detail: c.detail@ }
}

pub open spec fn candidates_view(cs: Seq<Candidate>) -> Seq<CandidateV> {
    cs.map_values(|c: Candidate| candidate_view(c))
}

/// The names of the built-in sections, in the order they are offered.
pub open spec fn built_in_names() -> Seq<Seq<char>> {
    seq![
        "if"@,
        "for"@,
        "each"@,
        "let"@,
        "set"@,
        "with"@,
        "when"@,
        "switch"@,
        "include"@,
        "insert"@,
        "nested-content"@,
        "fragment"@,
        "capture"@,
    ]
}

fn built_in_names_exec() -> (r: Vec<&'static str>)
    ensures
        r@.map_values(|s: &str| s@) == built_in_names(),
{
    let r = vec![
        "if",
        "for",
        "each",
        "let",
        "set",
        "with",
        "when",
        "switch",
        "include",
        "insert",
        "nested-content",
        "fragment",
        "capture",
    ];
    proof {
        assert(r@.map_values(|s: &str| s@) =~= built_in_names());
    }
    r
}

pub open spec fn keywords(names: Seq<Seq<char>>, detail: Seq<char>) -> Seq<CandidateV> {
    names.map_values(|n: Seq<char>| CandidateV { label: n, kind: CompletionKind::Keyword, detail })
}

/// The section keywords offered after `{#`: every built-in section, then the
/// blocks of the innermost section around the tag.
pub open spec fn section_keywords(ns: Seq<NodeV>, start: int) -> Seq<CandidateV> {
    keywords(built_in_names(), "built-in section"@) + match containing_from(ns, 0, start) {
        Some(parent) => keywords(block_names_of(parent.name), "section block"@),
        None => Seq::empty(),
    }
}

/// The variables offered: the declarations visible at the cursor.
pub open spec fn variables(ns: Seq<NodeV>, t: Seq<char>, cursor: int) -> Seq<CandidateV> {
    visible_of(index_of(ns, t).decls, cursor).map_values(
        |d: DeclV| CandidateV { label: d.name, kind: CompletionKind::Variable, detail: declaration_detail_of(d) },
    )
}

/// What is offered at byte `cursor` of a template with nodes `ns` and text `t`.
pub open spec fn completions_of(ns: Seq<NodeV>, t: Seq<char>, cursor: int) -> Seq<CandidateV> {
    if suppressed_from(ns, 0, cursor) {
        Seq::empty()
    } else {
        let p = t.take(char_index_at(t, cursor));
        match context_of(p) {
            ContextV::Tag { start, content } => {
                if content.len() > 0 && content[0] == '#' {
                    let prefix = content.skip(1);
                    if forall|i: int| 0 <= i < prefix.len() ==> !is_space(#[trigger] prefix[i]) {
                        section_keywords(ns, byte_at(p, start) as int)
                    } else if !section_expression_position(prefix) {
                        Seq::empty()
                    } else {
                        variables(ns, t, cursor)
                    }
                } else if content.len() > 0 && (content[0] == '/' || content[0] == '@' || content[0] == '!'
                    || content[0] == '|') {
                    Seq::empty()
                } else if !expression_position(content) {
                    Seq::empty()
                } else {
                    variables(ns, t, cursor)
                }
            },
            _ => Seq::empty(),
        }
    }
}

fn push_keywords(out: &mut Vec<Candidate>, names: &Vec<&'static str>, detail: &str)
    ensures
        candidates_view(final(out)@) == candidates_view(old(out)@) + keywords(
            names@.map_values(|s: &str| s@),
            detail@,
        ),
{
    let ghost start = candidates_view(out@);
    let ghost nv = names@.map_values(|s: &str| s@);
    let mut i: usize = 0;
    proof {
        assert(keywords(nv.take(0), detail@) =~= Seq::<CandidateV>::empty());
        assert(start + Seq::<CandidateV>::empty() =~= start);
    }
    while i < names.len()
        invariant
            i <= names@.len(),
            nv == names@.map_values(|s: &str| s@),
            candidates_view(out@) == start + keywords(nv.take(i as int), detail@),
        decreases names@.len() - i,
    {
        let ghost before = out@;
        let c = Candidate { label: names[i].to_string(), kind: CompletionKind::Keyword, detail: detail.to_string() };
        out.push(c);
        proof {
            assert(candidates_view(out@) =~= candidates_view(before).push(candidate_view(c)));
            assert(keywords(nv.take(i + 1), detail@) =~= keywords(nv.take(i as int), detail@).push(
                CandidateV { label: nv[i as int], kind: CompletionKind::Keyword, detail: detail@ },
            ));
            assert(start + keywords(nv.take(i + 1), detail@) =~= (start + keywords(nv.take(i as int), detail@)).push(
                CandidateV { label: nv[i as int], kind: CompletionKind::Keyword, detail: detail@ },
            ));
        }
        i = i + 1;
    }
    proof {
        assert(nv.take(names@.len() as int) =~= nv);
    }
}

fn variable_candidates(nodes: &Vec<Node>, text: &str, cursor: usize) -> (r: Vec<Candidate>)
    requires
        index_inputs_ok(nodes_view(nodes@), text@),
    ensures
        candidates_view(r@) == variables(nodes_view(nodes@), text@, cursor as int),
{
    let index = SemanticIndex::new(nodes, text);
    let visible = index.visible_declarations(cursor);
    let ghost vv = decl_refs_view(visible@);
    let mut out: Vec<Candidate> = Vec::new();
    let mut i: usize = 0;
    while i < visible.len()
        invariant
            i <= visible@.len(),
            vv == decl_refs_view(visible@),
            out@.len() == i,
            forall|k: int|
                0 <= k < i ==> #[trigger] candidate_view(out@[k]) == (CandidateV {
                    label: vv[k].name,
                    kind: CompletionKind::Variable,
                    detail: declaration_detail_of(vv[k]),
                }),
        decreases visible@.len() - i,
    {
        let d = visible[i];
        out.push(Candidate { label: d.name.clone(), kind: CompletionKind::Variable, detail: d.detail() });
        i = i + 1;
    }
    proof {
        assert(candidates_view(out@) =~= vv.map_values(
            |d: DeclV| CandidateV { label: d.name, kind: CompletionKind::Variable, detail: declaration_detail_of(d) },
        ));
    }
    out
}

/// What the editor offers at byte `cursor` of a template.
pub fn completions(nodes: &Vec<Node>, text: &str, cursor: usize) -> (r: Vec<Candidate>)
    requires
        index_inputs_ok(nodes_view(nodes@), text@),
        is_char_boundary(text@, cursor as int),
    ensures
        candidates_view(r@) == completions_of(nodes_view(nodes@), text@, cursor as int),
{
    if suppressed_exec(nodes, cursor) {
        let out: Vec<Candidate> = Vec::new();
        proof {
            assert(candidates_view(out@) =~= Seq::<CandidateV>::empty());
        }
        return out;
    }
    let t = chars_of(text);
    let k = char_index_at_byte(&t, cursor);
    proof {
        lemma_boundary_index(t@, cursor as int);
    }
    let p = char_range(t.as_slice(), 0, k);
    proof {
        assert(p@ =~= text@.take(char_index_at(text@, cursor as int)));
    }
    let empty: Vec<Candidate> = Vec::new();
    proof {
        assert(candidates_view(empty@) =~= Seq::<CandidateV>::empty());
    }
    match lexical_context(&p) {
        Context::Tag { start, content } => {
            if content.len() > 0 && content[0] == '#' {
                let prefix = char_range(content.as_slice(), 1, content.len());
                proof {
                    assert(prefix@ =~= content@.skip(1));
                }
                let mut spaced = false;
                let mut i: usize = 0;
                while i < prefix.len()
                    invariant
                        i <= prefix@.len(),
                        !spaced ==> forall|j: int| 0 <= j < i ==> !is_space(#[trigger] prefix@[j]),
                        spaced ==> exists|j: int| 0 <= j < prefix@.len() && is_space(#[trigger] prefix@[j]),
                    decreases prefix@.len() - i,
                {
                    if is_whitespace(prefix[i]) {
                        spaced = true;
                    }
                    i = i + 1;
                }
                if !spaced {
                    let mut out: Vec<Candidate> = Vec::new();
                    proof {
                        assert(candidates_view(out@) =~= Seq::<CandidateV>::empty());
                    }
                    let names = built_in_names_exec();
                    push_keywords(&mut out, &names, "built-in section");
                    proof {
                        crate::text::lemma_utf8_take_mono(t@, k as int, t@.len() as int);
                        crate::text::lemma_utf8_len_take_full(t@);
                        assert(t@.take(k as int) =~= p@);
                    }
                    let offs = byte_offsets_of_prefix(&p);
                    let start_byte = offs[start];
                    match containing_exec(nodes, start_byte) {
                        Some(parent) => {
                            let blocks = built_in_block_names(parent.name.as_str());
                            push_keywords(&mut out, &blocks, "section block");
                        },
                        None => {
                            proof {
                                assert(candidates_view(out@) + Seq::<CandidateV>::empty() =~= candidates_view(out@));
                            }
                        },
                    }
                    return out;
                }
                if !at_section_expression_position(&prefix) {
                    return empty;
                }
                return variable_candidates(nodes, text, cursor);
            }
            if content.len() > 0 && (content[0] == '/' || content[0] == '@' || content[0] == '!' || content[0] == '|') {
                return empty;
            }
            if !at_expression_position(&content) {
                return empty;
            }
            variable_candidates(nodes, text, cursor)
        },
        _ => empty,
    }
}

fn byte_offsets_of_prefix(p: &Vec<char>) -> (offs: Vec<usize>)
    requires
        fits(p@),
    ensures
        offs@.len() == p@.len() + 1,
        forall|k: int| 0 <= k <= p@.len() ==> #[trigger] offs@[k] == byte_at(p@, k),
{
    byte_offsets(p)
}

} // verus!
