//! Diagnostics that need the other templates of a workspace: includes of
//! missing templates or fragments, unknown user tags, and include cycles.

use vstd::prelude::*;

use crate::compiler::ast::{
    argument_view, arguments_view, nodes_view, section_view, ArgumentV, ArgumentValue,
    ArgumentValueV, NodeV, Section, SectionV,
};
use crate::compiler::diagnostic::{ceil_from, char_index_at, char_index_at_byte};
use crate::compiler::parser::Analysis;
use crate::compiler::ast::Template;
use crate::compiler::outline::section_refs_view;
use crate::text::{byte_offsets, string_of, lemma_utf8_take_step};
use crate::compiler::scan::{find_index, lemma_occurrence_bytes, lemma_subrange_bytes};
use crate::compiler::scan::char_range;
use crate::paths::{split_chars, views};
use crate::text::{chars_of, fits, lemma_utf8_take_mono, starts_with_at};
use crate::compiler::outline::{is_built_in, sections_of};
use crate::compiler::scan::find;
use crate::compiler::span::Span;
use crate::compiler::validate::{declares_fragment, static_text};
use crate::error::is_char_boundary;
use crate::paths::{join_with, split_on};
use crate::text::{byte_at, starts_at, utf8_len};

verus! {

/// An include of a statically named template, possibly of one of its fragments.
pub struct IncludeRefV {
    pub target: Seq<char>,
    pub fragment: Option<Seq<char>>,
    pub target_span: Span,
    pub fragment_span: Option<Span>,
}

/// A template of the workspace: its ID, its nodes and its source.
pub type EntryV = (Seq<char>, Seq<NodeV>, Seq<char>);

/// A finding about a template: its range, code and message.
pub struct FindingV {
    pub span: Span,
    pub code: &'static str,
    pub message: Seq<char>,
}

/// `source[a..b]` is a string slice.
pub open spec fn slice_ok(source: Seq<char>, a: int, b: int) -> bool {
    &&& 0 <= a <= b <= utf8_len(source)
    &&& is_char_boundary(source, a)
    &&& is_char_boundary(source, b)
}

/// An argument named `_id` chooses the template at render time.
pub open spec fn has_dynamic_id(args: Seq<ArgumentV>) -> bool {
    exists|i: int| 0 <= i < args.len() && #[trigger] args[i].name == Some("_id"@)
}

/// The text of an include's first argument when it names a template statically.
pub open spec fn static_target_text(s: SectionV) -> Option<Seq<char>> {
    if has_dynamic_id(s.arguments) || s.arguments.len() == 0 || s.arguments[0].name is Some {
        None
    } else {
        match s.arguments[0].value {
            ArgumentValueV::String(v) => if starts_at(v, 0, "_id="@) {
                None
            } else {
                Some(v)
            },
            ArgumentValueV::Raw(v) => if starts_at(v, 0, "_id="@) {
                None
            } else {
                Some(v)
            },
            ArgumentValueV::Expression(_) => None,
        }
    }
}

/// The template part of an include target, before the first `$`.
pub open spec fn target_part(v: Seq<char>) -> Seq<char> {
    split_on(v, '$')[0]
}

/// The fragment part of an include target, after the first `$`.
pub open spec fn fragment_part(v: Seq<char>) -> Option<Seq<char>> {
    if split_on(v, '$').len() > 1 {
        Some(v.skip(target_part(v).len() + 1int))
    } else {
        None
    }
}

/// The template that an include section names statically, with its
/// fragment and their byte ranges in `source`.
pub open spec fn include_reference(s: SectionV, source: Seq<char>) -> Option<IncludeRefV> {
    match static_target_text(s) {
        None => None,
        Some(v) => {
            let a = s.arguments[0];
            if !slice_ok(source, a.span.start as int, a.span.end as int) {
                None
            } else {
                let quoted = a.span.start < a.span.end && {
                    let c = source[char_index_at(source, a.span.start as int)];
                    c == '\'' || c == '"'
                };
                let start = a.span.start + if quoted {
                    1int
                } else {
                    0int
                };
                let target = target_part(v);
                let target_span = Span { start: start as usize, end: (start + utf8_len(target)) as usize };
                let fragment = fragment_part(v);
                let fragment_span = match fragment {
                    Some(f) => Some(
                        Span {
                            start: (target_span.end + 1) as usize,
                            end: (target_span.end + 1 + utf8_len(f)) as usize,
                        },
                    ),
                    None => None,
                };
                Some(IncludeRefV { target, fragment, target_span, fragment_span })
            }
        },
    }
}

/// The template that an include section names statically.
pub open spec fn include_target(s: SectionV, source: Seq<char>) -> Option<Seq<char>> {
    match include_reference(s, source) {
        Some(r) => Some(r.target),
        None => None,
    }
}

/// The index of the workspace template with the given ID.
pub open spec fn lookup(es: Seq<EntryV>, id: Seq<char>) -> Option<int>
    decreases es.len(),
{
    if es.len() == 0 {
        None
    } else {
        match lookup(es.drop_last(), id) {
            Some(i) => Some(i),
            None => if es.last().0 == id {
                Some(es.len() - 1)
            } else {
                None
            },
        }
    }
}

/// The workspace templates that the include sections `ss` name, in order.
pub open spec fn include_targets(es: Seq<EntryV>, ss: Seq<SectionV>, source: Seq<char>) -> Seq<Seq<char>>
    decreases ss.len(),
{
    if ss.len() == 0 {
        Seq::empty()
    } else {
        let rest = include_targets(es, ss.drop_last(), source);
        let s = ss.last();
        if s.name == "include"@ && include_target(s, source) is Some && lookup(
            es,
            include_target(s, source)->0,
        ) is Some {
            rest.push(include_target(s, source)->0)
        } else {
            rest
        }
    }
}

/// The workspace templates that template `id` includes.
pub open spec fn edges(es: Seq<EntryV>, id: Seq<char>) -> Seq<Seq<char>> {
    match lookup(es, id) {
        Some(i) => include_targets(es, sections_of(es[i].1), es[i].2),
        None => Seq::empty(),
    }
}

/// The number of workspace templates not yet visited.
pub open spec fn unvisited(es: Seq<EntryV>, visited: Seq<Seq<char>>) -> nat
    decreases es.len(),
{
    if es.len() == 0 {
        0
    } else {
        unvisited(es.drop_last(), visited) + if visited.contains(es.last().0) {
            0nat
        } else {
            1nat
        }
    }
}

/// Depth-first search for a path of includes from `current` to `dest`;
/// returns the path (both ends included) and the templates visited.
pub open spec fn search(es: Seq<EntryV>, current: Seq<char>, dest: Seq<char>, visited: Seq<Seq<char>>) -> (
    Option<Seq<Seq<char>>>,
    Seq<Seq<char>>,
)
    decreases unvisited(es, visited), 0int, 0int,
{
    if current == dest {
        (Some(seq![current]), visited)
    } else if visited.contains(current) {
        (None, visited)
    } else {
        let v2 = visited.push(current);
        if unvisited(es, v2) < unvisited(es, visited) {
            let (r, v3) = search_each(es, edges(es, current), 0, dest, v2);
            match r {
                Some(p) => (Some(seq![current] + p), v3),
                None => (None, v3),
            }
        } else {
            (None, v2)
        }
    }
}

/// The search from the neighbours `ns[i..]`, in order, until one reaches `dest`.
pub open spec fn search_each(
    es: Seq<EntryV>,
    ns: Seq<Seq<char>>,
    i: int,
    dest: Seq<char>,
    visited: Seq<Seq<char>>,
) -> (Option<Seq<Seq<char>>>, Seq<Seq<char>>)
    decreases unvisited(es, visited), 1int, ns.len() - i,
{
    if i < 0 || i >= ns.len() {
        (None, visited)
    } else {
        let (r, v2) = search(es, ns[i], dest, visited);
        match r {
            Some(p) => (Some(p), v2),
            None => if unvisited(es, v2) <= unvisited(es, visited) {
                search_each(es, ns, i + 1, dest, v2)
            } else {
                (None, v2)
            },
        }
    }
}

/// A path of includes from `start` to `dest`, if there is one.
pub open spec fn path_to(es: Seq<EntryV>, start: Seq<char>, dest: Seq<char>) -> Option<Seq<Seq<char>>> {
    search(es, start, dest, Seq::empty()).0
}

/// `p` is a path of includes from `start` to `dest` that visits no template
/// twice: each template on it includes the next.
pub open spec fn is_include_path(es: Seq<EntryV>, p: Seq<Seq<char>>, start: Seq<char>, dest: Seq<char>) -> bool {
    &&& p.len() >= 1
    &&& p[0] == start
    &&& p.last() == dest
    &&& forall|k: int| 0 <= k < p.len() - 1 ==> edges(es, #[trigger] p[k]).contains(p[k + 1])
    &&& forall|a: int, b: int| 0 <= a < b < p.len() ==> #[trigger] p[a] != #[trigger] p[b]
}

/// What the search finds from `current`: a path from it, whose templates
/// before `dest` were not visited yet; and it only adds to the visited ones.
proof fn lemma_search_sound(es: Seq<EntryV>, current: Seq<char>, dest: Seq<char>, visited: Seq<Seq<char>>)
    ensures
        search(es, current, dest, visited).0 matches Some(p) ==> is_include_path(es, p, current, dest) && forall|k: int|
            0 <= k < p.len() - 1 ==> !visited.contains(#[trigger] p[k]) && p[k] != dest,
        forall|x: Seq<char>| visited.contains(x) ==> #[trigger] search(es, current, dest, visited).1.contains(x),
    decreases unvisited(es, visited), 0int, 0int,
{
    if current == dest {
    } else if visited.contains(current) {
    } else {
        let v2 = visited.push(current);
        assert forall|x: Seq<char>| visited.contains(x) implies #[trigger] v2.contains(x) by {
            let k = choose|k: int| 0 <= k < visited.len() && visited[k] == x;
            assert(v2[k] == x);
        }
        assert(v2.contains(current)) by {
            assert(v2[visited.len() as int] == current);
        }
        if unvisited(es, v2) < unvisited(es, visited) {
            let ns = edges(es, current);
            lemma_search_each_sound(es, ns, 0, dest, v2);
            match search_each(es, ns, 0, dest, v2).0 {
                Some(q) => {
                    let p = seq![current] + q;
                    assert(p[0] == current);
                    assert(p.last() == q.last());
                    assert forall|k: int| 0 <= k < p.len() - 1 implies edges(es, #[trigger] p[k]).contains(p[k + 1]) by {
                        if k == 0 {
                            assert(p[1] == q[0]);
                        } else {
                            assert(p[k] == q[k - 1] && p[k + 1] == q[k]);
                        }
                    }
                    assert forall|k: int| 0 <= k < p.len() - 1 implies !visited.contains(#[trigger] p[k]) && p[k] != dest by {
                        if k > 0 {
                            assert(p[k] == q[k - 1]);
                            if visited.contains(q[k - 1]) {
                                assert(v2.contains(q[k - 1]));
                            }
                        }
                    }
                    assert forall|a: int, b: int| 0 <= a < b < p.len() implies #[trigger] p[a] != #[trigger] p[b] by {
                        if a == 0 {
                            assert(p[b] == q[b - 1]);
                            if b - 1 < q.len() - 1 {
                                assert(!v2.contains(q[b - 1]));
                            } else {
                                assert(q[b - 1] == dest);
                            }
                        } else {
                            assert(p[a] == q[a - 1] && p[b] == q[b - 1]);
                        }
                    }
                },
                None => {},
            }
        }
    }
}

proof fn lemma_search_each_sound(
    es: Seq<EntryV>,
    ns: Seq<Seq<char>>,
    i: int,
    dest: Seq<char>,
    visited: Seq<Seq<char>>,
)
    ensures
        search_each(es, ns, i, dest, visited).0 matches Some(p) ==> ns.contains(p[0]) && p.len() >= 1 && p.last()
            == dest && (forall|k: int|
            0 <= k < p.len() - 1 ==> edges(es, #[trigger] p[k]).contains(p[k + 1])) && (forall|a: int, b: int|
            0 <= a < b < p.len() ==> #[trigger] p[a] != #[trigger] p[b]) && forall|k: int|
            0 <= k < p.len() - 1 ==> !visited.contains(#[trigger] p[k]) && p[k] != dest,
        forall|x: Seq<char>| visited.contains(x) ==> #[trigger] search_each(es, ns, i, dest, visited).1.contains(x),
    decreases unvisited(es, visited), 1int, ns.len() - i,
{
    if i < 0 || i >= ns.len() {
    } else {
        lemma_search_sound(es, ns[i], dest, visited);
        let (r, v2) = search(es, ns[i], dest, visited);
        match r {
            Some(p) => {
                assert(ns.contains(p[0]));
            },
            None => {
                if unvisited(es, v2) <= unvisited(es, visited) {
                    lemma_search_each_sound(es, ns, i + 1, dest, v2);
                }
            },
        }
    }
}

/// The include paths that cycle detection reports are real: from the start
/// to the destination, each template including the next, none twice.
pub proof fn law_include_paths_are_real(es: Seq<EntryV>, start: Seq<char>, dest: Seq<char>)
    ensures
        path_to(es, start, dest) matches Some(p) ==> is_include_path(es, p, start, dest),
{
    lemma_search_sound(es, start, dest, Seq::empty());
}

/// `p` is a walk of includes from `start` to `dest`: each template on it
/// includes the next.
pub open spec fn is_include_walk(es: Seq<EntryV>, p: Seq<Seq<char>>, start: Seq<char>, dest: Seq<char>) -> bool {
    &&& p.len() >= 1
    &&& p[0] == start
    &&& p.last() == dest
    &&& forall|k: int| 0 <= k < p.len() - 1 ==> edges(es, #[trigger] p[k]).contains(p[k + 1])
}

proof fn lemma_unvisited_mono(es: Seq<EntryV>, v: Seq<Seq<char>>, w: Seq<Seq<char>>)
    requires
        forall|x: Seq<char>| v.contains(x) ==> #[trigger] w.contains(x),
    ensures
        unvisited(es, w) <= unvisited(es, v),
    decreases es.len(),
{
    if es.len() > 0 {
        lemma_unvisited_mono(es.drop_last(), v, w);
    }
}

/// A search that finds nothing has visited a set of templates that holds
/// `current` and not `dest`, only adds to `visited`, and whose new templates
/// include only visited ones.
proof fn lemma_search_closed(es: Seq<EntryV>, current: Seq<char>, dest: Seq<char>, visited: Seq<Seq<char>>)
    requires
        !visited.contains(dest),
    ensures
        search(es, current, dest, visited).0 is None ==> {
            let v = search(es, current, dest, visited).1;
            &&& v.contains(current)
            &&& !v.contains(dest)
            &&& forall|x: Seq<char>| visited.contains(x) ==> #[trigger] v.contains(x)
            &&& forall|y: Seq<char>, z: Seq<char>|
                v.contains(y) && !visited.contains(y) && #[trigger] edges(es, y).contains(z) ==> #[trigger] v.contains(z)
        },
    decreases unvisited(es, visited), 0int, 0int,
{
    if current == dest {
    } else if visited.contains(current) {
    } else {
        let v2 = visited.push(current);
        assert(v2.contains(current)) by {
            assert(v2[visited.len() as int] == current);
        }
        assert forall|x: Seq<char>| visited.contains(x) implies #[trigger] v2.contains(x) by {
            let k = choose|k: int| 0 <= k < visited.len() && visited[k] == x;
            assert(v2[k] == x);
        }
        assert(!v2.contains(dest)) by {
            if v2.contains(dest) {
                let k = choose|k: int| 0 <= k < v2.len() && v2[k] == dest;
                if k < visited.len() {
                    assert(visited[k] == dest);
                }
            }
        }
        assert forall|y: Seq<char>| v2.contains(y) && !visited.contains(y) implies y == current by {
            let k = choose|k: int| 0 <= k < v2.len() && v2[k] == y;
            if k < visited.len() {
                assert(visited[k] == y);
            }
        }
        if unvisited(es, v2) < unvisited(es, visited) {
            let ns = edges(es, current);
            lemma_search_each_closed(es, ns, 0, dest, v2);
        } else {
            lemma_unvisited_push(es, visited, current);
            assert(edges(es, current) =~= Seq::<Seq<char>>::empty());
        }
    }
}

proof fn lemma_search_each_closed(
    es: Seq<EntryV>,
    ns: Seq<Seq<char>>,
    i: int,
    dest: Seq<char>,
    visited: Seq<Seq<char>>,
)
    requires
        !visited.contains(dest),
        0 <= i,
    ensures
        search_each(es, ns, i, dest, visited).0 is None ==> {
            let v = search_each(es, ns, i, dest, visited).1;
            &&& forall|j: int| i <= j < ns.len() ==> #[trigger] v.contains(ns[j])
            &&& !v.contains(dest)
            &&& forall|x: Seq<char>| visited.contains(x) ==> #[trigger] v.contains(x)
            &&& forall|y: Seq<char>, z: Seq<char>|
                v.contains(y) && !visited.contains(y) && #[trigger] edges(es, y).contains(z) ==> #[trigger] v.contains(z)
        },
    decreases unvisited(es, visited), 1int, ns.len() - i,
{
    if i >= ns.len() {
    } else {
        lemma_search_closed(es, ns[i], dest, visited);
        let (r, v2) = search(es, ns[i], dest, visited);
        if r is None {
            lemma_unvisited_mono(es, visited, v2);
            lemma_search_each_closed(es, ns, i + 1, dest, v2);
        }
    }
}

/// Cycle detection misses no include path: where it finds none, no walk of
/// includes leads from the start to the destination.
pub proof fn law_no_path_means_unreachable(es: Seq<EntryV>, start: Seq<char>, dest: Seq<char>, p: Seq<Seq<char>>)
    requires
        is_include_walk(es, p, start, dest),
    ensures
        path_to(es, start, dest) is Some,
{
    if path_to(es, start, dest) is None {
        lemma_search_closed(es, start, dest, Seq::empty());
        let v = search(es, start, dest, Seq::empty()).1;
        assert forall|k: int| 0 <= k < p.len() implies #[trigger] v.contains(p[k]) by {
            lemma_walk_stays(es, p, v, k);
        }
        assert(v.contains(p[p.len() - 1]));
    }
}

proof fn lemma_walk_stays(es: Seq<EntryV>, p: Seq<Seq<char>>, v: Seq<Seq<char>>, k: int)
    requires
        0 <= k < p.len(),
        v.contains(p[0]),
        forall|i: int| 0 <= i < p.len() - 1 ==> edges(es, #[trigger] p[i]).contains(p[i + 1]),
        forall|y: Seq<char>, z: Seq<char>|
            v.contains(y) && !Seq::<Seq<char>>::empty().contains(y) && #[trigger] edges(es, y).contains(z) ==> #[trigger] v.contains(z),
    ensures
        v.contains(p[k]),
    decreases k,
{
    if k > 0 {
        lemma_walk_stays(es, p, v, k - 1);
        assert(edges(es, p[k - 1]).contains(p[k]));
    }
}

/// The fragment IDs that a tree of nodes declares.
pub open spec fn fragment_ids(ss: Seq<SectionV>) -> Seq<Seq<char>>
    decreases ss.len(),
{
    if ss.len() == 0 {
        Seq::empty()
    } else {
        let rest = fragment_ids(ss.drop_last());
        let s = ss.last();
        if declares_fragment(s.name) && s.arguments.len() > 0 && static_text(s.arguments[0]) is Some {
            rest.push(static_text(s.arguments[0])->0)
        } else {
            rest
        }
    }
}

/// The range of a section tag's name: after the first `#` of the section's
/// text, where the name first occurs; the whole span when not found.
pub open spec fn opening_name_span(text: Seq<char>, span: Span, name: Seq<char>) -> Span {
    let e = if span.end <= utf8_len(text) {
        span.end as int
    } else {
        utf8_len(text) as int
    };
    let a = char_index_at(text, span.start as int);
    let b = char_index_at(text, e);
    let src = text.subrange(a, b);
    match find(src, seq!['#']) {
        Some(h) => match find(src.skip(h + 1), name) {
            Some(f) => {
                let at = byte_at(src, h) + 1 + byte_at(src.skip(h + 1), f);
                Span { start: (span.start + at) as usize, end: (span.start + at + utf8_len(name)) as usize }
            },
            None => span,
        },
        None => span,
    }
}

/// What a section of the template `id` (with source `source`) reports about
/// the workspace `es`.
pub open spec fn section_findings(es: Seq<EntryV>, id: Seq<char>, source: Seq<char>, s: SectionV) -> Seq<
    FindingV,
> {
    if s.name == "include"@ {
        match include_reference(s, source) {
            None => Seq::empty(),
            Some(r) => match lookup(es, r.target) {
                None => seq![
                    FindingV {
                        span: r.target_span,
                        code: "E_TEMPLATE_NOT_FOUND",
                        message: "template `"@ + r.target + "` was not found"@,
                    },
                ],
                Some(t) => {
                    let missing = match r.fragment {
                        Some(f) => if fragment_ids(sections_of(es[t].1)).contains(f) {
                            Seq::empty()
                        } else {
                            seq![
                                FindingV {
                                    span: match r.fragment_span {
                                        Some(fs) => fs,
                                        None => r.target_span,
                                    },
                                    code: "E_FRAGMENT_NOT_FOUND",
                                    message: "fragment `"@ + f + "` was not found in template `"@ + r.target
                                        + "`"@,
                                },
                            ]
                        },
                        None => Seq::empty(),
                    };
                    let cycle = match path_to(es, r.target, id) {
                        Some(p) => seq![
                            FindingV {
                                span: r.target_span,
                                code: "E_INCLUDE_CYCLE",
                                message: "static include cycle: "@ + join_with(seq![id] + p, " -> "@),
                            },
                        ],
                        None => Seq::empty(),
                    };
                    missing + cycle
                },
            },
        }
    } else if !is_built_in(s.name) && lookup(es, "tags/"@ + s.name) is None {
        seq![
            FindingV {
                span: opening_name_span(source, s.span, s.name),
                code: "E_TAG_NOT_FOUND",
                message: "user tag `"@ + s.name + "` was not found"@,
            },
        ]
    } else {
        Seq::empty()
    }
}

/// What the sections `ss` of template `id` report, in order.
pub open spec fn findings(es: Seq<EntryV>, id: Seq<char>, source: Seq<char>, ss: Seq<SectionV>) -> Seq<FindingV>
    decreases ss.len(),
{
    if ss.len() == 0 {
        Seq::empty()
    } else {
        findings(es, id, source, ss.drop_last()) + section_findings(es, id, source, ss.last())
    }
}


/// A finding about a template.
#[derive(Debug, Clone, PartialEq, Eq)]
pub struct CrossDiagnostic {
    pub span: Span,
    pub code: &'static str,
    pub message: String,
}

pub open spec fn finding_view(d: CrossDiagnostic) -> FindingV {
    FindingV { span: d.span, code: d.code, message: d.message@ }
}

pub open spec fn findings_view(ds: Seq<CrossDiagnostic>) -> Seq<FindingV> {
    ds.map_values(|d: CrossDiagnostic| finding_view(d))
}

pub open spec fn entries_view(es: Seq<(String, &Analysis)>) -> Seq<EntryV> {
    es.map_values(|e: (String, &Analysis)| (e.0@, nodes_view(e.1.template.nodes@), e.1.template.source@))
}

proof fn lemma_ceil_at_boundary(s: Seq<char>, j: int, k: int)
    requires
        0 <= j <= k <= s.len(),
    ensures
        ceil_from(s, j, byte_at(s, k) as int) == k,
    decreases k - j,
{
    if j < k {
        lemma_utf8_take_mono(s, j, k);
        lemma_ceil_at_boundary(s, j + 1, k);
    }
}

/// Whether byte `b` starts a character of `src` (or is its end).
fn is_boundary(src: &Vec<char>, offs: &Vec<usize>, b: usize) -> (r: bool)
    requires
        fits(src@),
        offs@.len() == src@.len() + 1,
        forall|k: int| 0 <= k <= src@.len() ==> #[trigger] offs@[k] == byte_at(src@, k),
    ensures
        r == is_char_boundary(src@, b as int),
        r ==> char_index_at(src@, b as int) <= src@.len() && byte_at(src@, char_index_at(src@, b as int)) == b,
{
    let k = char_index_at_byte(src, b);
    let r = offs[k] == b;
    proof {
        if is_char_boundary(src@, b as int) {
            let w = choose|w: int| 0 <= w <= src@.len() && #[trigger] byte_at(src@, w) == b;
            lemma_ceil_at_boundary(src@, 0, w);
        }
    }
    r
}

/// The text of an include's first argument when it names a template statically.
fn static_target_text_exec(s: &Section) -> (r: Option<Vec<char>>)
    ensures
        match static_target_text(section_view(*s)) {
            Some(v) => r matches Some(x) && x@ == v,
            None => r is None,
        },
{
    let ghost av = arguments_view(s.arguments@);
    let mut i: usize = 0;
    while i < s.arguments.len()
        invariant
            i <= s.arguments@.len(),
            av == arguments_view(s.arguments@),
            forall|j: int| 0 <= j < i ==> av[j].name != Some("_id"@),
        decreases s.arguments@.len() - i,
    {
        assert(av[i as int] == argument_view(s.arguments@[i as int]));
        match &s.arguments[i].name {
            Some(n) => {
                if crate::text::str_eq(n.as_str(), "_id") {
                    proof {
                        assert(av[i as int].name == Some("_id"@));
                    }
                    return None;
                }
            },
            None => {},
        }
        i = i + 1;
    }
    if s.arguments.len() == 0 {
        return None;
    }
    assert(av[0] == argument_view(s.arguments@[0]));
    if s.arguments[0].name.is_some() {
        return None;
    }
    let v = match &s.arguments[0].value {
        ArgumentValue::String(v) => chars_of(v.as_str()),
        ArgumentValue::Raw(v) => chars_of(v.as_str()),
        ArgumentValue::Expression(_) => {
            return None;
        },
    };
    let dyn_prefix = chars_of("_id=");
    if starts_with_at(v.as_slice(), 0, dyn_prefix.as_slice()) {
        return None;
    }
    Some(v)
}

/// The template and fragment parts of an include target.
fn split_target(v: &Vec<char>) -> (r: (Vec<char>, Option<Vec<char>>))
    ensures
        r.0@ == target_part(v@),
        match fragment_part(v@) {
            Some(f) => r.1 matches Some(x) && x@ == f,
            None => r.1 is None,
        },
{
    let parts = split_chars(v.as_slice(), '$');
    proof {
        crate::paths::lemma_split_nonempty(v@, '$');
        assert(views(parts@)[0] == parts@[0]@);
    }
    let target = char_range(parts[0].as_slice(), 0, parts[0].len());
    proof {
        assert(target@ =~= target_part(v@));
        lemma_first_piece_len(v@, '$');
    }
    if parts.len() > 1 {
        assert(views(parts@).len() == parts@.len());
        assert(target@.len() + 1 <= v@.len());
        let n = v.len();
        let t = target.len();
        assert(t < n);
        let f = char_range(v.as_slice(), t + 1, n);
        (target, Some(f))
    } else {
        (target, None)
    }
}

/// The first piece is a prefix; when there is a second piece, the first one
/// is followed by the separator.
proof fn lemma_first_piece_len(v: Seq<char>, sep: char)
    ensures
        split_on(v, sep).len() >= 1,
        split_on(v, sep)[0].len() <= v.len(),
        v.take(split_on(v, sep)[0].len() as int) == split_on(v, sep)[0],
        split_on(v, sep).len() > 1 ==> split_on(v, sep)[0].len() + 1 <= v.len() && v[split_on(
            v,
            sep,
        )[0].len() as int] == sep,
        split_on(v, sep).len() == 1 ==> split_on(v, sep)[0] == v,
    decreases v.len(),
{
    crate::paths::lemma_split_nonempty(v, sep);
    if v.len() > 0 {
        let w = v.drop_last();
        lemma_first_piece_len(w, sep);
        let rest = split_on(w, sep);
        let p0 = rest[0];
        assert(w.take(p0.len() as int) == p0);
        if v.last() == sep {
            assert(split_on(v, sep)[0] == p0);
            assert(v.take(p0.len() as int) =~= w.take(p0.len() as int));
            if rest.len() > 1 {
                assert(v[p0.len() as int] == w[p0.len() as int]);
            } else {
                assert(p0 == w);
            }
        } else if rest.len() == 1 {
            assert(w.push(v.last()) =~= v);
            assert(split_on(v, sep)[0] == p0.push(v.last()));
            assert(v.take(v.len() as int) =~= v);
        } else {
            assert(split_on(v, sep)[0] == p0);
            assert(v.take(p0.len() as int) =~= w.take(p0.len() as int));
            assert(v[p0.len() as int] == w[p0.len() as int]);
        }
    } else {
        assert(v =~= Seq::<char>::empty());
        assert(split_on(v, sep) =~= seq![v]);
        assert(v.take(0) =~= v);
    }
}

/// A target text is its template part, a `$` and its fragment part.
proof fn lemma_target_bytes(v: Seq<char>)
    ensures
        utf8_len(target_part(v)) <= utf8_len(v),
        fragment_part(v) matches Some(f) ==> utf8_len(target_part(v)) + 1 + utf8_len(f) == utf8_len(v),
{
    lemma_first_piece_len(v, '$');
    let t = target_part(v);
    assert(v =~= v.take(t.len() as int) + v.skip(t.len() as int));
    crate::text::lemma_utf8_len_concat(v.take(t.len() as int), v.skip(t.len() as int));
    if split_on(v, '$').len() > 1 {
        let f = v.skip(t.len() + 1int);
        assert(v.skip(t.len() as int) =~= seq!['$'] + f);
        crate::text::lemma_utf8_len_concat(seq!['$'], f);
        assert(seq!['$'].drop_last() =~= Seq::<char>::empty());
        assert(utf8_len(Seq::<char>::empty()) == 0);
        assert(utf8_len(seq!['$']) == 1);
        assert(fragment_part(v) == Some(f));
    }
}

/// The template that an include section names statically.
fn include_target_exec(s: &Section, src: &Vec<char>, offs: &Vec<usize>) -> (r: Option<Vec<char>>)
    requires
        fits(src@),
        offs@.len() == src@.len() + 1,
        forall|k: int| 0 <= k <= src@.len() ==> #[trigger] offs@[k] == byte_at(src@, k),
    ensures
        match include_target(section_view(*s), src@) {
            Some(t) => r matches Some(x) && x@ == t,
            None => r is None,
        },
{
    let v = match static_target_text_exec(s) {
        Some(v) => v,
        None => {
            return None;
        },
    };
    assert(arguments_view(s.arguments@)[0] == argument_view(s.arguments@[0]));
    let span = s.arguments[0].span;
    let n = src.len();
    if !(span.start <= span.end && span.end <= offs[n] && is_boundary(src, offs, span.start) && is_boundary(
        src,
        offs,
        span.end,
    )) {
        proof {
            crate::text::lemma_utf8_len_take_full(src@);
        }
        return None;
    }
    proof {
        crate::text::lemma_utf8_len_take_full(src@);
    }
    let (target, _) = split_target(&v);
    Some(target)
}


/// An include of a statically named template, located in its source.
pub struct IncludeRef {
    pub target: Vec<char>,
    pub fragment: Option<Vec<char>>,
    pub target_span: Span,
    pub fragment_span: Option<Span>,
}

pub open spec fn include_ref_view(r: IncludeRef) -> IncludeRefV {
    IncludeRefV {
        target: r.target@,
        fragment: match r.fragment {
            Some(f) => Some(f@),
            None => None,
        },
        target_span: r.target_span,
        fragment_span: r.fragment_span,
    }
}

/// Include targets are short enough that their ranges are machine offsets.
pub open spec fn reference_fits(s: SectionV) -> bool {
    static_target_text(s) matches Some(v) ==> s.arguments[0].span.start + utf8_len(v) < usize::MAX
}

fn include_reference_exec(s: &Section, src: &Vec<char>, offs: &Vec<usize>) -> (r: Option<IncludeRef>)
    requires
        fits(src@),
        offs@.len() == src@.len() + 1,
        forall|k: int| 0 <= k <= src@.len() ==> #[trigger] offs@[k] == byte_at(src@, k),
        reference_fits(section_view(*s)),
    ensures
        match include_reference(section_view(*s), src@) {
            Some(x) => r matches Some(y) && include_ref_view(y) == x,
            None => r is None,
        },
{
    let v = match static_target_text_exec(s) {
        Some(v) => v,
        None => {
            return None;
        },
    };
    assert(arguments_view(s.arguments@)[0] == argument_view(s.arguments@[0]));
    let span = s.arguments[0].span;
    let n = src.len();
    proof {
        crate::text::lemma_utf8_len_take_full(src@);
    }
    if !(span.start <= span.end && span.end <= offs[n] && is_boundary(src, offs, span.start) && is_boundary(
        src,
        offs,
        span.end,
    )) {
        return None;
    }
    let quoted = if span.start < span.end {
        let k = char_index_at_byte(src, span.start);
        if k < n {
            src[k] == '\'' || src[k] == '"'
        } else {
            false
        }
    } else {
        false
    };
    proof {
        if span.start < span.end {
            let k = char_index_at(src@, span.start as int);
            if k >= src@.len() {
                lemma_utf8_take_mono(src@, k, src@.len() as int);
                assert(false);
            }
        }
    }
    let start = if quoted {
        span.start + 1
    } else {
        span.start
    };
    let (target, fragment) = split_target(&v);
    proof {
        lemma_target_bytes(v@);
    }
    let tlen = crate::compiler::scan::byte_len(target.as_slice());
    let target_span = Span::new(start, start + tlen);
    let fragment_span = match &fragment {
        Some(f) => {
            let flen = crate::compiler::scan::byte_len(f.as_slice());
            Some(Span::new(target_span.end + 1, target_span.end + 1 + flen))
        },
        None => None,
    };
    Some(IncludeRef { target, fragment, target_span, fragment_span })
}

/// The index of the workspace template with the given ID.
fn lookup_exec(es: &Vec<(String, &Analysis)>, id: &[char]) -> (r: Option<usize>)
    ensures
        r matches Some(k) ==> lookup(entries_view(es@), id@) == Some(k as int) && k < es@.len(),
        r is None ==> lookup(entries_view(es@), id@) is None,
{
    let ghost ev = entries_view(es@);
    let mut i: usize = 0;
    proof {
        assert(ev.take(0) =~= Seq::<EntryV>::empty());
    }
    while i < es.len()
        invariant
            i <= es@.len(),
            ev == entries_view(es@),
            lookup(ev.take(i as int), id@) is None,
        decreases es@.len() - i,
    {
        proof {
            assert(ev.take(i + 1).drop_last() =~= ev.take(i as int));
            assert(ev[i as int].0 == es@[i as int].0@);
        }
        if crate::text::str_eq(es[i].0.as_str(), string_of(id).as_str()) {
            proof {
                lemma_lookup_extends(ev, i + 1, id@, i as int);
            }
            return Some(i);
        }
        i = i + 1;
    }
    proof {
        assert(ev.take(ev.len() as int) =~= ev);
    }
    None
}

proof fn lemma_lookup_extends(ev: Seq<EntryV>, n: int, id: Seq<char>, i: int)
    requires
        0 < n <= ev.len(),
        lookup(ev.take(n), id) == Some(i),
    ensures
        lookup(ev, id) == Some(i),
    decreases ev.len() - n,
{
    if n < ev.len() {
        assert(ev.take(n + 1).drop_last() =~= ev.take(n));
        lemma_lookup_extends(ev, n + 1, id, i);
    } else {
        assert(ev.take(n) =~= ev);
    }
}

proof fn lemma_lookup_found(ev: Seq<EntryV>, id: Seq<char>)
    ensures
        lookup(ev, id) matches Some(i) ==> 0 <= i < ev.len() && ev[i].0 == id,
    decreases ev.len(),
{
    if ev.len() > 0 {
        lemma_lookup_found(ev.drop_last(), id);
    }
}

/// The workspace templates that a template's include sections name, in order.
fn include_targets_exec(es: &Vec<(String, &Analysis)>, template: &Template) -> (r: Vec<Vec<char>>)
    requires
        fits(template.source@),
    ensures
        views(r@) == include_targets(entries_view(es@), sections_of(nodes_view(template.nodes@)), template.source@),
{
    let src = chars_of(template.source.as_str());
    let offs = byte_offsets(&src);
    let sections = template.sections();
    let ghost ss = section_refs_view(sections@);
    let ghost ev = entries_view(es@);
    let mut out: Vec<Vec<char>> = Vec::new();
    let mut i: usize = 0;
    proof {
        assert(views(out@) =~= Seq::<Seq<char>>::empty());
        assert(ss.take(0) =~= Seq::<SectionV>::empty());
    }
    while i < sections.len()
        invariant
            i <= sections@.len(),
            ss == section_refs_view(sections@),
            ev == entries_view(es@),
            src@ == template.source@,
            fits(src@),
            offs@.len() == src@.len() + 1,
            forall|k: int| 0 <= k <= src@.len() ==> #[trigger] offs@[k] == byte_at(src@, k),
            views(out@) == include_targets(ev, ss.take(i as int), src@),
        decreases sections@.len() - i,
    {
        let s = sections[i];
        proof {
            assert(ss.take(i + 1).drop_last() =~= ss.take(i as int));
            assert(ss.take(i + 1).last() == section_view(*s));
        }
        if crate::text::str_eq(s.name.as_str(), "include") {
            match include_target_exec(s, &src, &offs) {
                Some(t) => {
                    match lookup_exec(es, t.as_slice()) {
                        Some(_) => {
                            proof {
                                assert(views(out@.push(t)) =~= views(out@).push(t@));
                            }
                            out.push(t);
                        },
                        None => {},
                    }
                },
                None => {},
            }
        }
        i = i + 1;
    }
    proof {
        assert(ss.take(ss.len() as int) =~= ss);
    }
    out
}

proof fn lemma_unvisited_push(es: Seq<EntryV>, v: Seq<Seq<char>>, x: Seq<char>)
    ensures
        unvisited(es, v.push(x)) <= unvisited(es, v),
        lookup(es, x) is None ==> unvisited(es, v.push(x)) == unvisited(es, v),
        lookup(es, x) is Some && !v.contains(x) ==> unvisited(es, v.push(x)) < unvisited(es, v),
    decreases es.len(),
{
    if es.len() > 0 {
        lemma_unvisited_push(es.drop_last(), v, x);
        let y = es.last().0;
        assert(v.push(x).contains(y) <==> (v.contains(y) || y == x)) by {
            if v.push(x).contains(y) {
                let k = choose|k: int| 0 <= k < v.push(x).len() && v.push(x)[k] == y;
                if k < v.len() {
                    assert(v[k] == y);
                }
            }
            if v.contains(y) {
                let k = choose|k: int| 0 <= k < v.len() && v[k] == y;
                assert(v.push(x)[k] == y);
            }
            if y == x {
                assert(v.push(x)[v.len() as int] == y);
            }
        }
    }
}

proof fn lemma_unvisited_grows(es: Seq<EntryV>, v: Seq<Seq<char>>, w: Seq<Seq<char>>)
    requires
        forall|y: Seq<char>| #[trigger] v.contains(y) ==> w.contains(y),
    ensures
        unvisited(es, w) <= unvisited(es, v),
    decreases es.len(),
{
    if es.len() > 0 {
        lemma_unvisited_grows(es.drop_last(), v, w);
    }
}

pub open spec fn subset_of(v: Seq<Seq<char>>, w: Seq<Seq<char>>) -> bool {
    forall|y: Seq<char>| #[trigger] v.contains(y) ==> w.contains(y)
}

/// Depth-first search for a path of includes from `current` to `dest`.
fn search_exec(
    es: &Vec<(String, &Analysis)>,
    current: &Vec<char>,
    dest: &[char],
    visited: &mut Vec<Vec<char>>,
) -> (r: Option<Vec<Vec<char>>>)
    requires
        forall|i: int| 0 <= i < es@.len() ==> fits(#[trigger] es@[i].1.template.source@),
    ensures
        ({
            let (p, v) = search(entries_view(es@), current@, dest@, views(old(visited)@));
            &&& v == views(final(visited)@)
            &&& match p {
                Some(q) => r matches Some(x) && views(x@) == q,
                None => r is None,
            }
        }),
        subset_of(views(old(visited)@), views(final(visited)@)),
    decreases unvisited(entries_view(es@), views(old(visited)@)), 0int, 0int,
{
    let ghost ev = entries_view(es@);
    let ghost v0 = views(visited@);
    if crate::text::chars_eq(current.as_slice(), dest) {
        let mut p: Vec<Vec<char>> = Vec::new();
        let copy = char_range(current.as_slice(), 0, current.len());
        proof {
            assert(copy@ =~= current@);
        }
        p.push(copy);
        proof {
            assert(views(p@) =~= seq![current@]);
        }
        return Some(p);
    }
    let seen = crate::compiler::validate::contains_chars(visited, current.as_slice());
    proof {
        assert(crate::compiler::validate::seqs_view(visited@) =~= views(visited@));
    }
    if seen {
        return None;
    }
    let ghost before = views(visited@);
    let copy = char_range(current.as_slice(), 0, current.len());
    proof {
        assert(copy@ =~= current@);
        assert(views(visited@.push(copy)) =~= before.push(current@));
    }
    visited.push(copy);
    proof {
        assert(views(visited@) =~= before.push(current@));
        lemma_unvisited_push(ev, before, current@);
        assert(subset_of(before, views(visited@))) by {
            assert forall|y: Seq<char>| #[trigger] before.contains(y) implies views(visited@).contains(y) by {
                let k = choose|k: int| 0 <= k < before.len() && before[k] == y;
                assert(views(visited@)[k] == y);
            }
        }
    }
    let ghost v2 = views(visited@);
    let index = match lookup_exec(es, current.as_slice()) {
        Some(i) => i,
        None => {
            return None;
        },
    };
    proof {
        lemma_lookup_found(ev, current@);
        assert(ev[index as int] == (es@[index as int].0@, nodes_view(es@[index as int].1.template.nodes@), es@[index as int].1.template.source@));
    }
    let ns = include_targets_exec(es, &es[index].1.template);
    let ghost nv = views(ns@);
    let ghost se = search_each(ev, nv, 0, dest@, v2);
    proof {
        let i = lookup(ev, current@)->0;
        assert(i == index as int);
        assert(ev[i].1 == nodes_view(es@[i].1.template.nodes@));
        assert(ev[i].2 == es@[i].1.template.source@);
        assert(edges(ev, current@) == include_targets(ev, sections_of(ev[i].1), ev[i].2));
        assert(edges(ev, current@) == nv);
        assert(search(ev, current@, dest@, v0) == (match se.0 {
            Some(p) => (Some(seq![current@] + p), se.1),
            None => (None::<Seq<Seq<char>>>, se.1),
        }));
    }
    let mut j: usize = 0;
    while j < ns.len()
        invariant
            forall|i: int| 0 <= i < es@.len() ==> fits(#[trigger] es@[i].1.template.source@),
            ev == entries_view(es@),
            v0 == views(old(visited)@),
            j <= ns@.len(),
            nv == views(ns@),
            unvisited(ev, v2) < unvisited(ev, v0),
            unvisited(ev, views(visited@)) <= unvisited(ev, v2),
            subset_of(v0, views(visited@)),
            se == search_each(ev, nv, j as int, dest@, views(visited@)),
            search(ev, current@, dest@, v0) == (match se.0 {
                Some(p) => (Some(seq![current@] + p), se.1),
                None => (None::<Seq<Seq<char>>>, se.1),
            }),
        decreases ns@.len() - j,
    {
        let ghost vj = views(visited@);
        assert(unvisited(entries_view(es@), views(visited@)) < unvisited(entries_view(es@), v0));
        let r = search_exec(es, &ns[j], dest, visited);
        proof {
            lemma_unvisited_grows(ev, vj, views(visited@));
            assert(nv[j as int] == ns@[j as int]@);
            assert(subset_of(v0, views(visited@))) by {
                assert forall|y: Seq<char>| #[trigger] v0.contains(y) implies views(visited@).contains(y) by {
                    assert(vj.contains(y));
                }
            }
        }
        match r {
            Some(path) => {
                let mut full: Vec<Vec<char>> = Vec::new();
                let copy = char_range(current.as_slice(), 0, current.len());
                proof {
                    assert(copy@ =~= current@);
                }
                full.push(copy);
                let mut path = path;
                let ghost pv = views(path@);
                full.append(&mut path);
                proof {
                    assert(views(full@) =~= seq![current@] + pv);
                }
                return Some(full);
            },
            None => {},
        }
        j = j + 1;
    }
    None
}


/// Whether one of a template's fragment sections is named `f`.
fn declares_fragment_named(template: &Template, f: &[char]) -> (r: bool)
    ensures
        r == fragment_ids(sections_of(nodes_view(template.nodes@))).contains(f@),
{
    let sections = template.sections();
    let ghost ss = section_refs_view(sections@);
    let mut i: usize = 0;
    proof {
        assert(ss.take(0) =~= Seq::<SectionV>::empty());
    }
    while i < sections.len()
        invariant
            i <= sections@.len(),
            ss == section_refs_view(sections@),
            ss == sections_of(nodes_view(template.nodes@)),
            !fragment_ids(ss.take(i as int)).contains(f@),
        decreases sections@.len() - i,
    {
        let s = sections[i];
        proof {
            assert(ss.take(i + 1).drop_last() =~= ss.take(i as int));
            assert(ss.take(i + 1).last() == section_view(*s));
        }
        let name = chars_of(s.name.as_str());
        let declares = crate::compiler::scan::is_word(name.as_slice(), "fragment") || crate::compiler::scan::is_word(
            name.as_slice(),
            "capture",
        );
        if declares && s.arguments.len() > 0 {
            assert(section_view(*s).arguments[0] == argument_view(s.arguments@[0]));
            match s.arguments[0].static_text() {
                Some(t) => {
                    let tc = chars_of(t);
                    if crate::text::chars_eq(tc.as_slice(), f) {
                        proof {
                            let fr = fragment_ids(ss.take(i + 1));
                            assert(fr[fr.len() - 1] == f@);
                            assert(fr.contains(f@));
                            lemma_prefix_contains(ss, i + 1, f@);
                        }
                        return true;
                    }
                    proof {
                        let fr = fragment_ids(ss.take(i + 1));
                        assert(fr == fragment_ids(ss.take(i as int)).push(t@));
                        assert(!fr.contains(f@)) by {
                            if fr.contains(f@) {
                                let k = choose|k: int| 0 <= k < fr.len() && fr[k] == f@;
                                if k < fr.len() - 1 {
                                    assert(fragment_ids(ss.take(i as int))[k] == f@);
                                }
                            }
                        }
                    }
                },
                None => {},
            }
        }
        i = i + 1;
    }
    proof {
        assert(ss.take(ss.len() as int) =~= ss);
    }
    false
}

/// A fragment ID found among the first sections stays found among all of them.
proof fn lemma_prefix_contains(ss: Seq<SectionV>, n: int, f: Seq<char>)
    requires
        0 <= n <= ss.len(),
        fragment_ids(ss.take(n)).contains(f),
    ensures
        fragment_ids(ss).contains(f),
    decreases ss.len() - n,
{
    if n < ss.len() {
        assert(ss.take(n + 1).drop_last() =~= ss.take(n));
        let a = fragment_ids(ss.take(n));
        let b = fragment_ids(ss.take(n + 1));
        let k = choose|k: int| 0 <= k < a.len() && a[k] == f;
        assert(b[k] == f);
        lemma_prefix_contains(ss, n + 1, f);
    } else {
        assert(ss.take(n) =~= ss);
    }
}

/// The range of a section tag's name.
pub(crate) fn opening_name_span_exec(text: &Vec<char>, offs: &Vec<usize>, span: Span, name: &Vec<char>) -> (r: Span)
    requires
        fits(text@),
        offs@.len() == text@.len() + 1,
        forall|k: int| 0 <= k <= text@.len() ==> #[trigger] offs@[k] == byte_at(text@, k),
        slice_ok(
            text@,
            span.start as int,
            if span.end <= utf8_len(text@) {
                span.end as int
            } else {
                utf8_len(text@) as int
            },
        ),
    ensures
        r == opening_name_span(text@, span, name@),
{
    let n = text.len();
    proof {
        crate::text::lemma_utf8_len_take_full(text@);
    }
    let e = if span.end <= offs[n] {
        span.end
    } else {
        offs[n]
    };
    let ok_a = is_boundary(text, offs, span.start);
    let ok_b = is_boundary(text, offs, e);
    let a = char_index_at_byte(text, span.start);
    let b = char_index_at_byte(text, e);
    proof {
        if a > b {
            lemma_utf8_take_mono(text@, b as int, a as int);
        }
    }
    let src = char_range(text.as_slice(), a, b);
    proof {
        lemma_subrange_bytes(text@, a as int, b as int);
    }
    let hash_mark: Vec<char> = vec!['#'];
    proof {
        assert(hash_mark@ =~= seq!['#']);
    }
    match find_index(src.as_slice(), hash_mark.as_slice(), 0) {
        Some(h) => {
            let rest = char_range(src.as_slice(), h + 1, src.len());
            proof {
                assert(rest@ == src@.skip(h + 1));
            }
            match find_index(rest.as_slice(), name.as_slice(), 0) {
                Some(f) => {
                    proof {
                        crate::compiler::scan::lemma_find_from_found(rest@, name@, 0);
                        lemma_occurrence_bytes(rest@, f as int, name@);
                        lemma_subrange_bytes(src@, h + 1, src@.len() as int);
                        lemma_utf8_take_step(src@, h as int);
                        crate::text::lemma_utf8_len_take_full(src@);
                        crate::compiler::scan::lemma_find_from_found(src@, hash_mark@, 0);
                        assert(src@.subrange(h as int, h + 1)[0] == src@[h as int]);
                    }
                    let hb = crate::compiler::scan::prefix_bytes(src.as_slice(), h);
                    let fb = crate::compiler::scan::prefix_bytes(rest.as_slice(), f);
                    let nb = crate::compiler::scan::byte_len(name.as_slice());
                    let at = hb + 1 + fb;
                    Span::new(span.start + at, span.start + at + nb)
                },
                None => span,
            }
        },
        None => span,
    }
}


/// Sections of user tags that have no template have a tag text in the source.
pub open spec fn tag_text_ok(es: Seq<EntryV>, source: Seq<char>, s: SectionV) -> bool {
    (s.name != "include"@ && !is_built_in(s.name) && lookup(es, "tags/"@ + s.name) is None) ==> slice_ok(
        source,
        s.span.start as int,
        if s.span.end <= utf8_len(source) {
            s.span.end as int
        } else {
            utf8_len(source) as int
        },
    )
}

/// What the inputs of `cross_diagnostics` must satisfy: sources whose offsets
/// are machine offsets, include targets that fit, and user-tag sections whose
/// text can be read from the source.
pub open spec fn findings_inputs_ok(es: Seq<(String, &Analysis)>, source: Seq<char>, ss: Seq<SectionV>) -> bool {
    &&& fits(source)
    &&& forall|i: int| 0 <= i < es.len() ==> fits(#[trigger] es[i].1.template.source@)
    &&& forall|k: int| 0 <= k < ss.len() ==> reference_fits(#[trigger] ss[k])
    &&& forall|k: int| 0 <= k < ss.len() ==> tag_text_ok(entries_view(es), source, #[trigger] ss[k])
}

proof fn lemma_findings_push(ds: Seq<CrossDiagnostic>, d: CrossDiagnostic)
    ensures
        findings_view(ds.push(d)) == findings_view(ds).push(finding_view(d)),
{
    assert(findings_view(ds.push(d)) =~= findings_view(ds).push(finding_view(d)));
}

/// What one section reports.
#[verifier::spinoff_prover]
fn section_findings_exec(
    es: &Vec<(String, &Analysis)>,
    id: &str,
    src: &Vec<char>,
    offs: &Vec<usize>,
    s: &Section,
) -> (r: Vec<CrossDiagnostic>)
    requires
        fits(src@),
        offs@.len() == src@.len() + 1,
        forall|k: int| 0 <= k <= src@.len() ==> #[trigger] offs@[k] == byte_at(src@, k),
        forall|i: int| 0 <= i < es@.len() ==> fits(#[trigger] es@[i].1.template.source@),
        reference_fits(section_view(*s)),
        tag_text_ok(entries_view(es@), src@, section_view(*s)),
    ensures
        findings_view(r@) == section_findings(entries_view(es@), id@, src@, section_view(*s)),
{
    let mut out: Vec<CrossDiagnostic> = Vec::new();
    proof {
        assert(findings_view(out@) =~= Seq::<FindingV>::empty());
    }
    let ghost ev = entries_view(es@);
    if crate::text::str_eq(s.name.as_str(), "include") {
        let r = match include_reference_exec(s, src, offs) {
            Some(r) => r,
            None => {
                return out;
            },
        };
        let target = string_of(r.target.as_slice());
        match lookup_exec(es, r.target.as_slice()) {
            None => {
                let mut message = "template `".to_owned();
                crate::text::push_str(&mut message, target.as_str());
                crate::text::push_str(&mut message, "` was not found");
                let d = CrossDiagnostic { span: r.target_span, code: "E_TEMPLATE_NOT_FOUND", message };
                proof {
                    lemma_findings_push(out@, d);
                    assert(findings_view(out@.push(d)) =~= section_findings(ev, id@, src@, section_view(*s)));
                }
                out.push(d);
            },
            Some(t) => {
                match &r.fragment {
                    Some(f) => {
                        let found = declares_fragment_named(&es[t].1.template, f.as_slice());
                        proof {
                            assert(ev[t as int].1 == nodes_view(es@[t as int].1.template.nodes@));
                        }
                        if !found {
                            let mut message = "fragment `".to_owned();
                            crate::text::push_chars(&mut message, f.as_slice());
                            crate::text::push_str(&mut message, "` was not found in template `");
                            crate::text::push_str(&mut message, target.as_str());
                            crate::text::push_str(&mut message, "`");
                            let span = match r.fragment_span {
                                Some(fs) => fs,
                                None => r.target_span,
                            };
                            let d = CrossDiagnostic { span, code: "E_FRAGMENT_NOT_FOUND", message };
                            proof {
                                lemma_findings_push(out@, d);
                            }
                            out.push(d);
                        }
                    },
                    None => {},
                }
                let ghost missing = findings_view(out@);
                let dest = chars_of(id);
                let mut visited: Vec<Vec<char>> = Vec::new();
                proof {
                    assert(views(visited@) =~= Seq::<Seq<char>>::empty());
                }
                match search_exec(es, &r.target, dest.as_slice(), &mut visited) {
                    Some(path) => {
                        let mut full: Vec<Vec<char>> = Vec::new();
                        full.push(dest);
                        let mut path = path;
                        let ghost pv = views(path@);
                        full.append(&mut path);
                        proof {
                            assert(views(full@) =~= seq![id@] + pv);
                        }
                        let mut message = "static include cycle: ".to_owned();
                        let joined = crate::paths::join_pieces(&full, " -> ");
                        crate::text::push_str(&mut message, joined.as_str());
                        let d = CrossDiagnostic { span: r.target_span, code: "E_INCLUDE_CYCLE", message };
                        proof {
                            lemma_findings_push(out@, d);
                        }
                        out.push(d);
                    },
                    None => {},
                }
                proof {
                    assert(findings_view(out@) =~= section_findings(ev, id@, src@, section_view(*s)));
                }
            },
        }
        return out;
    }
    let name = chars_of(s.name.as_str());
    if !crate::compiler::outline::is_built_in_name(s.name.as_str()) {
        let mut tag_id = "tags/".to_owned();
        crate::text::push_str(&mut tag_id, s.name.as_str());
        let tag_chars = chars_of(tag_id.as_str());
        if lookup_exec(es, tag_chars.as_slice()).is_none() {
            let span = opening_name_span_exec(src, offs, s.span, &name);
            let mut message = "user tag `".to_owned();
            crate::text::push_str(&mut message, s.name.as_str());
            crate::text::push_str(&mut message, "` was not found");
            let d = CrossDiagnostic { span, code: "E_TAG_NOT_FOUND", message };
            proof {
                lemma_findings_push(out@, d);
                assert(findings_view(out@.push(d)) =~= section_findings(ev, id@, src@, section_view(*s)));
            }
            out.push(d);
        }
    }
    out
}

/// What the include sections and user tags of the template `template_id`
/// report about the templates of its workspace, section by section in
/// document order: includes of unknown templates or fragments, static
/// include cycles, and user tags without a template.
pub fn cross_diagnostics(
    template_id: &str,
    analysis: &Analysis,
    source: &str,
    analyses: &Vec<(String, &Analysis)>,
) -> (r: Vec<CrossDiagnostic>)
    requires
        findings_inputs_ok(analyses@, source@, sections_of(nodes_view(analysis.template.nodes@))),
    ensures
        findings_view(r@) == findings(
            entries_view(analyses@),
            template_id@,
            source@,
            sections_of(nodes_view(analysis.template.nodes@)),
        ),
{
    let src = chars_of(source);
    let offs = byte_offsets(&src);
    let sections = analysis.template.sections();
    let ghost ss = section_refs_view(sections@);
    let ghost ev = entries_view(analyses@);
    let mut out: Vec<CrossDiagnostic> = Vec::new();
    let mut i: usize = 0;
    proof {
        assert(findings_view(out@) =~= Seq::<FindingV>::empty());
        assert(ss.take(0) =~= Seq::<SectionV>::empty());
    }
    while i < sections.len()
        invariant
            i <= sections@.len(),
            ss == section_refs_view(sections@),
            ev == entries_view(analyses@),
            src@ == source@,
            findings_inputs_ok(analyses@, source@, ss),
            offs@.len() == src@.len() + 1,
            forall|k: int| 0 <= k <= src@.len() ==> #[trigger] offs@[k] == byte_at(src@, k),
            findings_view(out@) == findings(ev, template_id@, src@, ss.take(i as int)),
        decreases sections@.len() - i,
    {
        let s = sections[i];
        proof {
            assert(ss.take(i + 1).drop_last() =~= ss.take(i as int));
            assert(ss.take(i + 1).last() == section_view(*s));
            assert(ss[i as int] == section_view(*s));
        }
        let mut found = section_findings_exec(analyses, template_id, &src, &offs, s);
        let ghost fv = findings_view(found@);
        let ghost before = findings_view(out@);
        out.append(&mut found);
        proof {
            assert(findings_view(out@) =~= before + fv);
        }
        i = i + 1;
    }
    proof {
        assert(ss.take(ss.len() as int) =~= ss);
    }
    out
}

/// `start` plus the UTF-8 length of `v` stays below the largest machine offset.
fn fits_after(start: usize, v: &Vec<char>) -> (r: bool)
    ensures
        r == (start + utf8_len(v@) < usize::MAX),
{
    let mut total: usize = start;
    let mut i: usize = 0;
    proof {
        assert(v@.take(0) =~= Seq::<char>::empty());
    }
    while i < v.len()
        invariant
            i <= v@.len(),
            total == start + utf8_len(v@.take(i as int)),
            total < usize::MAX || i == 0,
        decreases v@.len() - i,
    {
        proof {
            crate::text::lemma_utf8_take_step(v@, i as int);
        }
        let w = crate::text::utf8_width(v[i]);
        if total >= usize::MAX - w {
            proof {
                crate::text::lemma_utf8_take_mono(v@, i + 1, v@.len() as int);
                assert(v@.take(v@.len() as int) =~= v@);
            }
            return false;
        }
        total = total + w;
        i = i + 1;
    }
    proof {
        assert(v@.take(v@.len() as int) =~= v@);
    }
    total < usize::MAX
}

/// Whether `cross_diagnostics` can take these inputs: every source fits the
/// machine, include targets are short enough for machine offsets, and the
/// tags of user tags without a template lie on character boundaries.
pub fn findings_inputs_hold(analysis: &Analysis, source: &str, analyses: &Vec<(String, &Analysis)>) -> (r: bool)
    ensures
        r == findings_inputs_ok(analyses@, source@, sections_of(nodes_view(analysis.template.nodes@))),
{
    let n = crate::text::str_byte_len(source);
    if n == usize::MAX {
        return false;
    }
    let mut i: usize = 0;
    while i < analyses.len()
        invariant
            i <= analyses@.len(),
            forall|j: int| 0 <= j < i ==> fits(#[trigger] analyses@[j].1.template.source@),
        decreases analyses@.len() - i,
    {
        if crate::text::str_byte_len(analyses[i].1.template.source.as_str()) == usize::MAX {
            return false;
        }
        i = i + 1;
    }
    let src = chars_of(source);
    let offs = byte_offsets(&src);
    let sections = analysis.template.sections();
    let ghost ss = section_refs_view(sections@);
    let ghost ev = entries_view(analyses@);
    let mut k: usize = 0;
    while k < sections.len()
        invariant
            k <= sections@.len(),
            ss == section_refs_view(sections@),
            ss == sections_of(nodes_view(analysis.template.nodes@)),
            ev == entries_view(analyses@),
            src@ == source@,
            fits(source@),
            forall|j: int| 0 <= j < analyses@.len() ==> fits(#[trigger] analyses@[j].1.template.source@),
            crate::tooling::spans::offsets_of(src@, offs@),
            forall|m: int| 0 <= m < k ==> reference_fits(#[trigger] ss[m]),
            forall|m: int| 0 <= m < k ==> tag_text_ok(ev, source@, #[trigger] ss[m]),
        decreases sections@.len() - k,
    {
        let s = sections[k];
        proof {
            assert(ss[k as int] == section_view(*s));
        }
        match static_target_text_exec(s) {
            Some(v) => {
                if !fits_after(s.arguments[0].span.start, &v) {
                    proof {
                        assert(!reference_fits(ss[k as int]));
                    }
                    return false;
                }
            },
            None => {},
        }
        if !crate::text::str_eq(s.name.as_str(), "include") && !crate::compiler::outline::is_built_in_name(
            s.name.as_str(),
        ) {
            let mut tag_id = "tags/".to_owned();
            crate::text::push_str(&mut tag_id, s.name.as_str());
            let tag_chars = chars_of(tag_id.as_str());
            if lookup_exec(analyses, tag_chars.as_slice()).is_none() {
                proof {
                    crate::text::lemma_utf8_len_take_full(src@);
                }
                let end = if s.span.end <= offs[src.len()] {
                    s.span.end
                } else {
                    offs[src.len()]
                };
                if !crate::tooling::spans::slice_fits(&src, &offs, s.span.start, end) {
                    proof {
                        assert(!tag_text_ok(ev, source@, ss[k as int]));
                    }
                    return false;
                }
            }
        }
        k = k + 1;
    }
    true
}

} // verus!
