//! What an include names, when it would recurse, and the engine's limits and
//! allow-lists.

use vstd::prelude::*;

use crate::compiler::ast::{arguments_view, section_view, ArgumentValueV, NodeV, Section, SectionV, Template, nodes_view};
use crate::compiler::expr::{ExprV, LiteralV};
use crate::compiler::outline::{fragment_sections, section_refs_view, sections_of};
use crate::compiler::validate::static_text;
use crate::engine::eval::bare;
use crate::engine::plan::{find_named, first_named};
use crate::error::{ErrorCode, RenderError};
use crate::escape::{decimal, format_integer};
use crate::messages::texts;
use crate::text::{ascii_alnum, chars_of, is_ascii_alnum, push_char, push_str, str_eq, string_of};

verus! {

// ---------------------------------------------------------------------------
// Splitting template IDs
// ---------------------------------------------------------------------------

/// `i` is the first position of `c` in `s`.
pub open spec fn first_at(s: Seq<char>, c: char, i: int) -> bool {
    0 <= i < s.len() && s[i] == c && forall|j: int| 0 <= j < i ==> #[trigger] s[j] != c
}

/// `i` is the last position of `c` in `s`.
pub open spec fn last_at(s: Seq<char>, c: char, i: int) -> bool {
    0 <= i < s.len() && s[i] == c && forall|j: int| i < j < s.len() ==> #[trigger] s[j] != c
}

/// `id` split at its first `$`: what is before it and what is after it.
pub open spec fn split_first(id: Seq<char>) -> (Seq<char>, Option<Seq<char>>) {
    if exists|i: int| first_at(id, '$', i) {
        let i = choose|i: int| first_at(id, '$', i);
        (id.take(i), Some(id.skip(i + 1)))
    } else {
        (id, None)
    }
}

/// `id` split at its last `$`.
pub open spec fn split_last(id: Seq<char>) -> (Seq<char>, Option<Seq<char>>) {
    if exists|i: int| last_at(id, '$', i) {
        let i = choose|i: int| last_at(id, '$', i);
        (id.take(i), Some(id.skip(i + 1)))
    } else {
        (id, None)
    }
}

fn split_at_char(cs: &Vec<char>, i: usize) -> (r: (String, Option<String>))
    requires
        i < cs@.len(),
    ensures
        r.0@ == cs@.take(i as int),
        r.1 matches Some(t) && t@ == cs@.skip(i + 1),
{
    let mut head: Vec<char> = Vec::new();
    let mut k: usize = 0;
    while k < i
        invariant
            k <= i,
            i < cs@.len(),
            head@ == cs@.take(k as int),
        decreases i - k,
    {
        head.push(cs[k]);
        proof {
            assert(cs@.take(k + 1) =~= cs@.take(k as int).push(cs@[k as int]));
        }
        k = k + 1;
    }
    let mut tail: Vec<char> = Vec::new();
    let n = cs.len();
    assert(i < n);
    let mut k: usize = i + 1;
    proof {
        assert(cs@.skip(i + 1).take(0) =~= Seq::<char>::empty());
    }
    while k < n
        invariant
            i + 1 <= k <= n,
            n == cs@.len(),
            tail@ == cs@.skip(i + 1).take(k - (i + 1)),
        decreases n - k,
    {
        tail.push(cs[k]);
        proof {
            assert(cs@.skip(i + 1).take(k + 1 - (i + 1)) =~= cs@.skip(i + 1).take(k - (i + 1)).push(
                cs@[k as int],
            ));
        }
        k = k + 1;
    }
    proof {
        assert(cs@.skip(i + 1).take(n - (i + 1)) =~= cs@.skip(i + 1));
    }
    (string_of(head.as_slice()), Some(string_of(tail.as_slice())))
}

/// The template and fragment that an include names: its target split at the
/// first `$`, where nothing before the `$` means the template being rendered.
pub open spec fn include_request_of(target: Seq<char>, current: Seq<char>) -> (Seq<char>, Option<Seq<char>>) {
    match split_first(target).1 {
        Some(f) => (
            if split_first(target).0.len() == 0 {
                current
            } else {
                split_first(target).0
            },
            Some(f),
        ),
        None => (split_first(target).0, None),
    }
}

/// The template and fragment that an include of `target` names, while the
/// template `current` renders.
pub fn include_request(target: &str, current: &str) -> (r: (String, Option<String>))
    ensures
        r.0@ == include_request_of(target@, current@).0,
        match (r.1, include_request_of(target@, current@).1) {
            (Some(a), Some(b)) => a@ == b,
            (None, None) => true,
            _ => false,
        },
{
    let (t, f) = split_first_dollar(target);
    match f {
        Some(fragment) => {
            let empty = crate::text::str_byte_len(t.as_str()) == 0;
            proof {
                if t@.len() > 0 {
                    crate::text::lemma_utf8_take_step(t@, 0);
                    crate::text::lemma_utf8_take_mono(t@, 1, t@.len() as int);
                    crate::text::lemma_utf8_len_take_full(t@);
                }
            }
            (if empty { current.to_string() } else { t }, Some(fragment))
        },
        None => (t, None),
    }
}

/// Splits a template ID at its first `$` into the template and the fragment.
pub fn split_first_dollar(id: &str) -> (r: (String, Option<String>))
    ensures
        r.0@ == split_first(id@).0,
        match (r.1, split_first(id@).1) {
            (Some(a), Some(b)) => a@ == b,
            (None, None) => true,
            _ => false,
        },
{
    let cs = chars_of(id);
    let mut i: usize = 0;
    while i < cs.len()
        invariant
            i <= cs@.len(),
            cs@ == id@,
            forall|j: int| 0 <= j < i ==> #[trigger] cs@[j] != '$',
        decreases cs@.len() - i,
    {
        if cs[i] == '$' {
            proof {
                assert(first_at(id@, '$', i as int));
                let k = choose|k: int| first_at(id@, '$', k);
                if k < i {
                    assert(cs@[k] != '$');
                }
                if k > i {
                    assert(id@[i as int] != '$');
                }
            }
            return split_at_char(&cs, i);
        }
        i = i + 1;
    }
    proof {
        assert(!exists|k: int| first_at(id@, '$', k));
    }
    (string_of(cs.as_slice()), None)
}

/// Splits a template ID at its last `$` into the template and the fragment.
pub fn split_last_dollar(id: &str) -> (r: (String, Option<String>))
    ensures
        r.0@ == split_last(id@).0,
        match (r.1, split_last(id@).1) {
            (Some(a), Some(b)) => a@ == b,
            (None, None) => true,
            _ => false,
        },
{
    let cs = chars_of(id);
    let mut i: usize = cs.len();
    while i > 0
        invariant
            i <= cs@.len(),
            cs@ == id@,
            forall|j: int| i <= j < cs@.len() ==> #[trigger] cs@[j] != '$',
        decreases i,
    {
        if cs[i - 1] == '$' {
            proof {
                assert(last_at(id@, '$', i - 1));
                let k = choose|k: int| last_at(id@, '$', k);
                if k < i - 1 {
                    assert(id@[i - 1] != '$');
                }
                if k > i - 1 {
                    assert(cs@[k] != '$');
                }
            }
            return split_at_char(&cs, i - 1);
        }
        i = i - 1;
    }
    proof {
        assert(!exists|k: int| last_at(id@, '$', k));
    }
    (string_of(cs.as_slice()), None)
}

/// The key that marks a fragment of a template on the include stack.
pub open spec fn fragment_key(id: Seq<char>, fragment: Seq<char>) -> Seq<char> {
    id + "$"@ + fragment
}

pub fn include_key(id: &str, fragment: &str) -> (r: String)
    ensures
        r@ == fragment_key(id@, fragment@),
{
    let mut s = id.to_string();
    push_str(&mut s, "$");
    push_str(&mut s, fragment);
    s
}

// ---------------------------------------------------------------------------
// Include targets
// ---------------------------------------------------------------------------

/// What an include section names: a template given as text, or the position
/// of an `_id` argument whose value names it when it renders.
#[derive(Debug)]
pub enum IncludeTarget {
    Named(String),
    Dynamic(usize),
}

pub enum IncludeTargetV {
    Named(Seq<char>),
    Dynamic(int),
}

pub open spec fn target_view(t: IncludeTarget) -> IncludeTargetV {
    match t {
        IncludeTarget::Named(s) => IncludeTargetV::Named(s@),
        IncludeTarget::Dynamic(i) => IncludeTargetV::Dynamic(i as int),
    }
}

/// A user tag names `tags/<name>`; an include names the value of its `_id`
/// argument, else the text of its first argument.
pub open spec fn include_target_of(s: SectionV, tag: bool) -> Option<IncludeTargetV> {
    if tag {
        Some(IncludeTargetV::Named("tags/"@ + s.name))
    } else {
        match first_named(s.arguments, "_id"@) {
            Some(i) => Some(IncludeTargetV::Dynamic(i)),
            None => if s.arguments.len() > 0 && static_text(s.arguments[0]) is Some {
                Some(IncludeTargetV::Named(static_text(s.arguments[0])->0))
            } else {
                None
            },
        }
    }
}

/// What an include or user-tag section names; an include that names nothing
/// is an error.
pub fn include_target(section: &Section, tag: bool) -> (r: Result<IncludeTarget, RenderError>)
    ensures
        match include_target_of(section_view(*section), tag) {
            Some(t) => r matches Ok(x) && target_view(x) == t,
            None => r matches Err(e) && bare(e, ErrorCode::Type, "include requires a template ID"@),
        },
{
    if tag {
        let mut s = "tags/".to_string();
        push_str(&mut s, section.name.as_str());
        return Ok(IncludeTarget::Named(s));
    }
    match find_named(&section.arguments, "_id") {
        Some(i) => Ok(IncludeTarget::Dynamic(i)),
        None => {
            if section.arguments.len() > 0 {
                match section.arguments[0].static_text() {
                    Some(t) => {
                        return Ok(IncludeTarget::Named(t.to_string()));
                    },
                    None => {},
                }
            }
            Err(RenderError::new(ErrorCode::Type, "include requires a template ID".to_string()))
        },
    }
}

/// An include replaces the scopes instead of adding to them when it is a user
/// tag, or has the argument `_isolated=true`.
pub open spec fn isolated_of(s: SectionV, tag: bool) -> bool {
    tag || exists|i: int|
        0 <= i < s.arguments.len() && #[trigger] s.arguments[i].name == Some("_isolated"@)
            && s.arguments[i].value matches ArgumentValueV::Expression(
            ExprV::Literal { value: LiteralV::Bool(true), .. },
        )
}

pub fn is_isolated(section: &Section, tag: bool) -> (r: bool)
    ensures
        r == isolated_of(section_view(*section), tag),
{
    if tag {
        return true;
    }
    let ghost av = arguments_view(section.arguments@);
    let mut i: usize = 0;
    while i < section.arguments.len()
        invariant
            i <= section.arguments@.len(),
            av == arguments_view(section.arguments@),
            !tag,
            forall|j: int|
                0 <= j < i ==> !(#[trigger] av[j].name == Some("_isolated"@) && av[j].value matches ArgumentValueV::Expression(
                    ExprV::Literal { value: LiteralV::Bool(true), .. },
                )),
        decreases section.arguments@.len() - i,
    {
        let a = &section.arguments[i];
        let on = match &a.value {
            crate::compiler::ast::ArgumentValue::Expression(
                crate::compiler::expr::Expr::Literal { value: crate::compiler::expr::Literal::Bool(true), .. },
            ) => true,
            _ => false,
        };
        let named = match &a.name {
            Some(n) => str_eq(n.as_str(), "_isolated"),
            None => false,
        };
        if named && on {
            proof {
                assert(section_view(*section).arguments[i as int].name == av[i as int].name);
            }
            return true;
        }
        i = i + 1;
    }
    false
}

/// Including `key` again while it is being rendered is a recursive include:
/// the error names it and lists the stack with it on top.
pub open spec fn recursion_message(key: Seq<char>, fragment: bool) -> Seq<char> {
    if fragment {
        "recursive include of fragment `"@ + key + "`"@
    } else {
        "recursive include of `"@ + key + "`"@
    }
}

/// The error for including `key` while `stack` renders it, if it does.
pub fn recursive_include(stack: &Vec<String>, key: &str, fragment: bool) -> (r: Option<RenderError>)
    ensures
        r is Some <==> texts(stack@).contains(key@),
        r matches Some(e) ==> e.code == ErrorCode::IncludeCycle && e.message@ == recursion_message(
            key@,
            fragment,
        ) && texts(e.render_stack@) == texts(stack@).push(key@) && e.template is None && e.span is None
            && e.line is None && e.column is None && e.source is None,
{
    let ghost tv = texts(stack@);
    let mut i: usize = 0;
    let mut found = false;
    while i < stack.len()
        invariant_except_break
            !found,
        invariant
            i <= stack@.len(),
            tv == texts(stack@),
            forall|j: int| 0 <= j < i ==> #[trigger] tv[j] != key@,
        ensures
            found ==> tv.contains(key@),
            !found ==> forall|j: int| 0 <= j < tv.len() ==> #[trigger] tv[j] != key@,
        decreases stack@.len() - i,
    {
        if str_eq(stack[i].as_str(), key) {
            proof {
                assert(tv[i as int] == key@);
            }
            found = true;
            proof {
                assert(tv.contains(key@));
            }
            break;
        }
        i = i + 1;
    }
    if !found {
        return None;
    }
    let mut copy: Vec<String> = Vec::new();
    let mut k: usize = 0;
    while k < stack.len()
        invariant
            k <= stack@.len(),
            tv == texts(stack@),
            texts(copy@) == tv.take(k as int),
        decreases stack@.len() - k,
    {
        let ghost before = copy@;
        let item = stack[k].as_str().to_string();
        copy.push(item);
        proof {
            assert(copy@ == before.push(item));
            assert(texts(copy@) =~= texts(before).push(item@));
            assert(tv.take(k + 1) =~= tv.take(k as int).push(tv[k as int]));
        }
        k = k + 1;
    }
    copy.push(key.to_string());
    proof {
        assert(tv.take(stack@.len() as int) =~= tv);
        assert(texts(copy@) =~= tv.push(key@));
    }
    let mut m = if fragment {
        "recursive include of fragment `".to_string()
    } else {
        "recursive include of `".to_string()
    };
    push_str(&mut m, key);
    push_str(&mut m, "`");
    let mut e = RenderError::new(ErrorCode::IncludeCycle, m);
    e.render_stack = copy;
    Some(e)
}

/// The error for an include deeper than the engine allows.
pub fn depth_exceeded() -> (e: RenderError)
    ensures
        bare(e, ErrorCode::IncludeCycle, "maximum include depth exceeded"@),
{
    RenderError::new(ErrorCode::IncludeCycle, "maximum include depth exceeded".to_string())
}

// ---------------------------------------------------------------------------
// Fragments
// ---------------------------------------------------------------------------

/// The position of the first fragment section whose first argument names `name`.
pub open spec fn fragment_named(fs: Seq<SectionV>, name: Seq<char>, i: int) -> Option<int>
    decreases fs.len() - i,
{
    if i < 0 || i >= fs.len() {
        None
    } else if fs[i].arguments.len() > 0 && static_text(fs[i].arguments[0]) == Some(name) {
        Some(i)
    } else {
        fragment_named(fs, name, i + 1)
    }
}

/// The fragment sections of a template.
pub open spec fn fragments_of(t: Template) -> Seq<SectionV> {
    fragment_sections(sections_of(nodes_view(t.nodes@)))
}

/// Finds the fragment of `template` named `name`.
pub fn find_fragment<'a>(template: &'a Template, name: &str) -> (r: Option<&'a Section>)
    ensures
        match r {
            Some(s) => exists|k: int| fragment_named(fragments_of(*template), name@, 0) == Some(k)
                && section_view(*s) == fragments_of(*template)[k],
            None => fragment_named(fragments_of(*template), name@, 0) is None,
        },
{
    let frags = template.fragments();
    let ghost fv = section_refs_view(frags@);
    let mut i: usize = 0;
    while i < frags.len()
        invariant
            i <= frags@.len(),
            fv == section_refs_view(frags@),
            fv == fragments_of(*template),
            fragment_named(fv, name@, 0) == fragment_named(fv, name@, i as int),
        decreases frags@.len() - i,
    {
        let s = frags[i];
        if s.arguments.len() > 0 {
            match s.arguments[0].static_text() {
                Some(t) => {
                    if str_eq(t, name) {
                        proof {
                            assert(fv[i as int] == section_view(*s));
                        }
                        return Some(s);
                    }
                },
                None => {},
            }
        }
        i = i + 1;
    }
    None
}

/// The error for a fragment that a template does not declare.
pub fn missing_fragment(fragment: &str, id: &str) -> (e: RenderError)
    ensures
        bare(e, ErrorCode::MissingTemplate, "fragment `"@ + fragment@ + "` not found in `"@ + id@ + "`"@),
{
    let mut m = "fragment `".to_string();
    push_str(&mut m, fragment);
    push_str(&mut m, "` not found in `");
    push_str(&mut m, id);
    push_str(&mut m, "`");
    RenderError::new(ErrorCode::MissingTemplate, m)
}

/// A fragment name is not empty and made of ASCII letters, digits and `_`.
pub open spec fn fragment_name_ok(name: Seq<char>) -> bool {
    name.len() > 0 && forall|i: int| 0 <= i < name.len() ==> is_ascii_alnum(#[trigger] name[i]) || name[i] == '_'
}

/// The template ID that renders fragment `name` of template `id`.
pub fn fragment_request(id: &str, name: &str) -> (r: Result<String, RenderError>)
    ensures
        match r {
            Ok(s) => fragment_name_ok(name@) && s@ == fragment_key(id@, name@),
            Err(e) => !fragment_name_ok(name@) && bare(e, ErrorCode::MissingTemplate, "invalid fragment name `"@ + name@ + "`"@),
        },
{
    let cs = chars_of(name);
    let mut ok = cs.len() > 0;
    let mut i: usize = 0;
    while i < cs.len()
        invariant
            i <= cs@.len(),
            cs@ == name@,
            ok <==> (cs@.len() > 0 && forall|j: int| 0 <= j < i ==> is_ascii_alnum(#[trigger] cs@[j]) || cs@[j] == '_'),
        decreases cs@.len() - i,
    {
        if !(ascii_alnum(cs[i]) || cs[i] == '_') {
            ok = false;
        }
        i = i + 1;
    }
    if ok {
        Ok(include_key(id, name))
    } else {
        let mut m = "invalid fragment name `".to_string();
        push_str(&mut m, name);
        push_str(&mut m, "`");
        Err(RenderError::new(ErrorCode::MissingTemplate, m))
    }
}

// ---------------------------------------------------------------------------
// Limits and allow-lists
// ---------------------------------------------------------------------------

/// The error for including one more template at `depth` nested includes,
/// when the engine allows `maximum`: only once `depth` has reached it.
pub fn include_too_deep(depth: usize, maximum: usize) -> (r: Option<RenderError>)
    ensures
        r is Some <==> depth >= maximum,
        r matches Some(e) ==> bare(e, ErrorCode::IncludeCycle, "maximum include depth exceeded"@),
{
    if depth >= maximum {
        Some(depth_exceeded())
    } else {
        None
    }
}

/// The error for `written` bytes of output when the engine allows
/// `maximum`: only once the output is longer.
pub fn output_over_limit(written: usize, maximum: usize) -> (r: Option<RenderError>)
    ensures
        r is Some <==> written > maximum,
        r matches Some(e) ==> bare(
            e,
            ErrorCode::OutputLimit,
            "rendered output exceeded "@ + decimal(maximum as int) + " bytes"@,
        ),
{
    if written > maximum {
        Some(output_exceeded(maximum))
    } else {
        None
    }
}

/// The error for output longer than the engine allows.
pub fn output_exceeded(maximum: usize) -> (e: RenderError)
    ensures
        bare(e, ErrorCode::OutputLimit, "rendered output exceeded "@ + decimal(maximum as int) + " bytes"@),
{
    let mut m = "rendered output exceeded ".to_string();
    let n = format_integer(maximum as i128);
    push_str(&mut m, n.as_str());
    push_str(&mut m, " bytes");
    RenderError::new(ErrorCode::OutputLimit, m)
}

/// The first section, in document order, whose name is not allowed.
pub open spec fn first_disallowed(ss: Seq<SectionV>, allowed: Seq<Seq<char>>) -> Option<Seq<char>>
    decreases ss.len(),
{
    if ss.len() == 0 {
        None
    } else if !allowed.contains(ss[0].name) {
        Some(ss[0].name)
    } else {
        first_disallowed(ss.drop_first(), allowed)
    }
}

fn listed(allowed: &Vec<String>, name: &str) -> (r: bool)
    ensures
        r == texts(allowed@).contains(name@),
{
    let ghost tv = texts(allowed@);
    let mut i: usize = 0;
    while i < allowed.len()
        invariant
            i <= allowed@.len(),
            tv == texts(allowed@),
            forall|j: int| 0 <= j < i ==> #[trigger] tv[j] != name@,
        decreases allowed@.len() - i,
    {
        if str_eq(allowed[i].as_str(), name) {
            proof {
                assert(tv[i as int] == name@);
            }
            return true;
        }
        i = i + 1;
    }
    false
}

/// Checks a template against the sections an engine allows: with an
/// allow-list, the first section whose name is not on it is refused.
pub fn check_policy(template: &Template, allowed: &Option<Vec<String>>) -> (r: Result<(), RenderError>)
    ensures
        match allowed {
            None => r is Ok,
            Some(list) => match first_disallowed(sections_of(nodes_view(template.nodes@)), texts(list@)) {
                None => r is Ok,
                Some(name) => r matches Err(e) && bare(
                    e,
                    ErrorCode::UnknownSection,
                    "section `"@ + name + "` is not allowed by this engine"@,
                ),
            },
        },
{
    match allowed {
        None => Ok(()),
        Some(list) => {
            let sections = template.sections();
            let ghost ss = section_refs_view(sections@);
            let ghost tl = texts(list@);
            let mut i: usize = 0;
            proof {
                assert(ss.skip(0) =~= ss);
            }
            while i < sections.len()
                invariant
                    i <= sections@.len(),
                    ss == section_refs_view(sections@),
                    ss == sections_of(nodes_view(template.nodes@)),
                    tl == texts(list@),
                    *allowed == Some(*list),
                    first_disallowed(ss, tl) == first_disallowed(ss.skip(i as int), tl),
                decreases sections@.len() - i,
            {
                let s = sections[i];
                proof {
                    assert(ss.skip(i as int)[0] == section_view(*s));
                    assert(ss.skip(i as int).drop_first() =~= ss.skip(i + 1));
                }
                if !listed(list, s.name.as_str()) {
                    proof {
                        assert(first_disallowed(ss.skip(i as int), tl) == Some(s.name@));
                    }
                    let mut m = "section `".to_string();
                    push_str(&mut m, s.name.as_str());
                    push_str(&mut m, "` is not allowed by this engine");
                    return Err(RenderError::new(ErrorCode::UnknownSection, m));
                }
                i = i + 1;
            }
            proof {
                assert(ss.skip(i as int).len() == 0);
            }
            Ok(())
        },
    }
}

/// The error for a namespace that the engine's allow-list leaves out, if it does.
pub fn namespace_denied(allowed: &Option<Vec<String>>, namespace: &str) -> (r: Option<RenderError>)
    ensures
        match allowed {
            None => r is None,
            Some(list) => if texts(list@).contains(namespace@) {
                r is None
            } else {
                r matches Some(e) && bare(
                    e,
                    ErrorCode::Extension,
                    "namespace `"@ + namespace@ + "` is not allowed"@,
                )
            },
        },
{
    match allowed {
        None => None,
        Some(list) => {
            if listed(list, namespace) {
                None
            } else {
                let mut m = "namespace `".to_string();
                push_str(&mut m, namespace);
                push_str(&mut m, "` is not allowed");
                Some(RenderError::new(ErrorCode::Extension, m))
            }
        },
    }
}

} // verus!

verus! {

// ---------------------------------------------------------------------------
// The steps of an include
// ---------------------------------------------------------------------------

/// The next step of an include or user tag.
#[derive(Debug)]
pub enum IncludeStep {
    /// The include fails with this error.
    Fail(RenderError),
    /// Evaluate argument `.0`: its text names the template.
    EvaluateTarget(usize),
    /// Resolve this template ID among its media and locale variants.
    Resolve(String),
    /// Render under this include key: the fragment of the resolved template
    /// named `fragment`, or the whole template; `isolated` scopes hide the
    /// including template's data.
    Enter { key: String, fragment: Option<String>, isolated: bool },
}

pub enum IncludeStepV {
    TooDeep,
    NoTarget,
    Cycle(Seq<char>, bool),
    EvaluateTarget(int),
    Resolve(Seq<char>),
    Enter(Seq<char>, Option<Seq<char>>, bool),
}

/// The step after the target text `id` is known.
pub open spec fn include_step_from(
    stack: Seq<Seq<char>>,
    s: SectionV,
    tag: bool,
    current: Seq<char>,
    id: Seq<char>,
    resolved: Option<Seq<char>>,
) -> IncludeStepV {
    let (template_id, fragment) = include_request_of(id, current);
    match resolved {
        None => IncludeStepV::Resolve(template_id),
        Some(rid) => {
            let key = match fragment {
                Some(f) => fragment_key(rid, f),
                None => rid,
            };
            if stack.contains(key) {
                IncludeStepV::Cycle(key, fragment is Some)
            } else {
                IncludeStepV::Enter(key, fragment, fragment is None && isolated_of(s, tag))
            }
        },
    }
}

/// An include checks, in this order: the depth of the include stack; that it
/// names a template, evaluating an `_id` argument when it has one; the
/// template's resolution; that it does not include itself again, the key of a
/// fragment being `id$fragment`. A fragment renders in the including scope,
/// a whole template in an isolated one where the include asks for it.
pub open spec fn include_step_of(
    stack: Seq<Seq<char>>,
    max_depth: int,
    s: SectionV,
    tag: bool,
    current: Seq<char>,
    target: Option<Seq<char>>,
    resolved: Option<Seq<char>>,
) -> IncludeStepV {
    if stack.len() >= max_depth {
        IncludeStepV::TooDeep
    } else {
        match include_target_of(s, tag) {
            None => IncludeStepV::NoTarget,
            Some(IncludeTargetV::Named(id)) => include_step_from(stack, s, tag, current, id, resolved),
            Some(IncludeTargetV::Dynamic(i)) => match target {
                None => IncludeStepV::EvaluateTarget(i),
                Some(id) => include_step_from(stack, s, tag, current, id, resolved),
            },
        }
    }
}

/// The step `r` is what `v` describes; a failure carries the error that
/// `include_too_deep`, `include_target` and `recursive_include` give.
pub open spec fn include_step_is(r: IncludeStep, v: IncludeStepV, stack: Seq<String>) -> bool {
    match v {
        IncludeStepV::TooDeep => r matches IncludeStep::Fail(e) && bare(
            e,
            ErrorCode::IncludeCycle,
            "maximum include depth exceeded"@,
        ),
        IncludeStepV::NoTarget => r matches IncludeStep::Fail(e) && bare(
            e,
            ErrorCode::Type,
            "include requires a template ID"@,
        ),
        IncludeStepV::Cycle(key, fragment) => r matches IncludeStep::Fail(e) && e.code
            == ErrorCode::IncludeCycle && e.message@ == recursion_message(key, fragment) && texts(
            e.render_stack@,
        ) == texts(stack).push(key) && e.template is None && e.span is None,
        IncludeStepV::EvaluateTarget(i) => r matches IncludeStep::EvaluateTarget(j) && j == i,
        IncludeStepV::Resolve(id) => r matches IncludeStep::Resolve(x) && x@ == id,
        IncludeStepV::Enter(key, fragment, isolated) => r matches IncludeStep::Enter {
            key: k,
            fragment: f,
            isolated: iso,
        } && k@ == key && iso == isolated && match (f, fragment) {
            (Some(a), Some(b)) => a@ == b,
            (None, None) => true,
            _ => false,
        },
    }
}

/// An include only enters a template or fragment that is not already being
/// included, and only below the depth limit: rendering never recurses.
pub proof fn law_includes_never_reenter(
    stack: Seq<Seq<char>>,
    max_depth: int,
    s: SectionV,
    tag: bool,
    current: Seq<char>,
    target: Option<Seq<char>>,
    resolved: Option<Seq<char>>,
)
    ensures
        include_step_of(stack, max_depth, s, tag, current, target, resolved) matches IncludeStepV::Enter(key, _, _)
            ==> !stack.contains(key) && stack.len() < max_depth,
{
}

/// The next step of the include `section` (a user tag where `tag` holds) in
/// the template named `current`, under the include stack `stack`: `target`
/// is the text of its evaluated `_id` argument once known, `resolved` the
/// resolved template ID once known.
pub fn include_step(
    stack: &Vec<String>,
    max_depth: usize,
    section: &Section,
    tag: bool,
    current: &str,
    target: Option<&str>,
    resolved: Option<&str>,
) -> (r: IncludeStep)
    ensures
        include_step_is(
            r,
            include_step_of(
                texts(stack@),
                max_depth as int,
                section_view(*section),
                tag,
                current@,
                match target {
                    Some(t) => Some(t@),
                    None => None,
                },
                match resolved {
                    Some(t) => Some(t@),
                    None => None,
                },
            ),
            stack@,
        ),
{
    if let Some(error) = include_too_deep(stack.len(), max_depth) {
        return IncludeStep::Fail(error);
    }
    let named = match include_target(section, tag) {
        Err(error) => return IncludeStep::Fail(error),
        Ok(IncludeTarget::Named(id)) => id,
        Ok(IncludeTarget::Dynamic(index)) => match target {
            None => return IncludeStep::EvaluateTarget(index),
            Some(t) => t.to_string(),
        },
    };
    let (template_id, fragment) = include_request(named.as_str(), current);
    let rid = match resolved {
        None => return IncludeStep::Resolve(template_id),
        Some(rid) => rid,
    };
    let key = match &fragment {
        Some(f) => include_key(rid, f.as_str()),
        None => rid.to_string(),
    };
    if let Some(error) = recursive_include(stack, key.as_str(), fragment.is_some()) {
        return IncludeStep::Fail(error);
    }
    let isolated = match &fragment {
        Some(_) => false,
        None => is_isolated(section, tag),
    };
    IncludeStep::Enter { key, fragment, isolated }
}

} // verus!
