//! What the template derive macros decide: where an embedded template is
//! found, how the templates it includes are followed, and how field names
//! are renamed for templates.

use vstd::prelude::*;

use crate::paths::{
    escapes, escapes_root, has_extension, is_absolute, join_pieces, join_with, named_segments,
    named_segments_of, non_empty, split_chars, split_on, views,
};
use crate::text::{chars_of, push_chars, push_str, string_of};

verus! {

pub open spec fn absolute_message() -> Seq<char> {
    "template paths must be relative to the template root"@
}

pub open spec fn escape_message() -> Seq<char> {
    "template paths may not escape the template root"@
}

pub open spec fn empty_message() -> Seq<char> {
    "template path may not be empty"@
}

/// Normalizes a template path given to a derive: relative, not leaving the
/// root, and naming something; its named segments joined by `/`.
pub fn normalize_id(value: &str) -> (r: Result<String, &'static str>)
    ensures
        is_absolute(value@) ==> (r matches Err(m) && m@ == absolute_message()),
        !is_absolute(value@) && escapes(value@) ==> (r matches Err(m) && m@ == escape_message()),
        !is_absolute(value@) && !escapes(value@) && named_segments(split_on(value@, '/')).len() == 0
            ==> (r matches Err(m) && m@ == empty_message()),
        !is_absolute(value@) && !escapes(value@) && named_segments(split_on(value@, '/')).len() > 0
            ==> (r matches Ok(v) && v@ == join_with(named_segments(split_on(value@, '/')), "/"@)),
{
    let s = chars_of(value);
    if s.len() > 0 && s[0] == '/' {
        return Err("template paths must be relative to the template root");
    }
    if escapes_root(s.as_slice()) {
        return Err("template paths may not escape the template root");
    }
    let parts = named_segments_of(s.as_slice());
    if parts.len() == 0 {
        Err("template path may not be empty")
    } else {
        Ok(join_pieces(&parts, "/"))
    }
}

/// The upper-case mapping of a character (`char::to_uppercase`): one or more characters.
pub uninterp spec fn upper_case(c: char) -> Seq<char>;

/// Upper-cases one character with `char::to_uppercase`, which yields the
/// character's Unicode upper-case mapping (`A`-`Z` for `a`-`z`).
#[verifier::external_body]
fn to_upper(c: char) -> (r: Vec<char>)
    ensures
        r@ == upper_case(c),
        'a' <= c <= 'z' ==> r@ == seq![((c as u32) - 32) as char],
{
    c.to_uppercase().collect()
}

/// How field names are written for templates.
#[derive(Clone, Copy, Debug, PartialEq, Eq, Structural)]
pub enum RenameRule {
    Camel,
    Snake,
    Kebab,
}

/// The words of a snake-case name: its pieces between underscores, without empty ones.
pub open spec fn words(value: Seq<char>) -> Seq<Seq<char>> {
    non_empty(split_on(value, '_'))
}

/// The upper-case form of a character: `A`-`Z` for `a`-`z`, else its
/// Unicode upper-case mapping.
pub open spec fn upper_of(c: char) -> Seq<char> {
    if 'a' <= c <= 'z' {
        seq![((c as u32) - 32) as char]
    } else {
        upper_case(c)
    }
}

/// A word with its first character upper-cased.
pub open spec fn capitalized(word: Seq<char>) -> Seq<char> {
    if word.len() == 0 {
        word
    } else {
        upper_of(word[0]) + word.skip(1)
    }
}

/// Words after the first, each capitalized, concatenated.
pub open spec fn camel_tail(ws: Seq<Seq<char>>) -> Seq<char>
    decreases ws.len(),
{
    if ws.len() == 0 {
        Seq::empty()
    } else {
        camel_tail(ws.drop_last()) + capitalized(ws.last())
    }
}

/// A name written by a rule.
pub open spec fn renamed(rule: RenameRule, value: Seq<char>) -> Seq<char> {
    let ws = words(value);
    match rule {
        RenameRule::Snake => join_with(ws, "_"@),
        RenameRule::Kebab => join_with(ws, "-"@),
        RenameRule::Camel => if ws.len() == 0 {
            Seq::empty()
        } else {
            ws[0] + camel_tail(ws.skip(1))
        },
    }
}

/// The words of `value`.
fn words_of(value: &[char]) -> (r: Vec<Vec<char>>)
    ensures
        views(r@) == words(value@),
{
    let parts = split_chars(value, '_');
    let ghost pv = views(parts@);
    let mut out: Vec<Vec<char>> = Vec::new();
    let mut i: usize = 0;
    proof {
        assert(pv.take(0) =~= Seq::<Seq<char>>::empty());
        assert(views(out@) =~= Seq::<Seq<char>>::empty());
    }
    while i < parts.len()
        invariant
            i <= parts@.len(),
            pv == views(parts@),
            pv == split_on(value@, '_'),
            views(out@) == non_empty(pv.take(i as int)),
        decreases parts@.len() - i,
    {
        proof {
            assert(pv.take(i + 1).drop_last() =~= pv.take(i as int));
            assert(pv.take(i + 1).last() == parts@[i as int]@);
        }
        if parts[i].len() > 0 {
            let copy = crate::compiler::scan::char_range(parts[i].as_slice(), 0, parts[i].len());
            proof {
                assert(copy@ =~= parts@[i as int]@);
                assert(views(out@.push(copy)) =~= views(out@).push(copy@));
            }
            out.push(copy);
        }
        i = i + 1;
    }
    proof {
        assert(pv.take(pv.len() as int) =~= pv);
    }
    out
}

impl RenameRule {
    /// Writes a snake-case field name by this rule: `first_name` becomes
    /// `firstName`, `first_name` or `first-name`.
    pub fn apply(self, value: &str) -> (r: String)
        ensures
            r@ == renamed(self, value@),
    {
        let v = chars_of(value);
        let ws = words_of(v.as_slice());
        match self {
            RenameRule::Snake => join_pieces(&ws, "_"),
            RenameRule::Kebab => join_pieces(&ws, "-"),
            RenameRule::Camel => {
                if ws.len() == 0 {
                    return String::new();
                }
                let mut r = String::new();
                push_chars(&mut r, ws[0].as_slice());
                let ghost wv = views(ws@);
                let mut i: usize = 1;
                proof {
                    assert(wv.skip(1).take(0) =~= Seq::<Seq<char>>::empty());
                }
                while i < ws.len()
                    invariant
                        1 <= i <= ws@.len(),
                        wv == views(ws@),
                        r@ == wv[0] + camel_tail(wv.skip(1).take(i - 1)),
                    decreases ws@.len() - i,
                {
                    proof {
                        assert(wv.skip(1).take(i as int).drop_last() =~= wv.skip(1).take(i - 1));
                        assert(wv.skip(1).take(i as int).last() == ws@[i as int]@);
                    }
                    let w = ws[i].as_slice();
                    if w.len() > 0 {
                        let up = to_upper(w[0]);
                        push_chars(&mut r, up.as_slice());
                        let rest = crate::compiler::scan::char_range(w, 1, w.len());
                        push_chars(&mut r, rest.as_slice());
                        proof {
                            assert(rest@ =~= w@.skip(1));
                        }
                    }
                    proof {
                        assert(r@ =~= wv[0] + camel_tail(wv.skip(1).take(i as int)));
                    }
                    i = i + 1;
                }
                proof {
                    assert(wv.skip(1).take(wv.len() - 1) =~= wv.skip(1));
                }
                r
            },
        }
    }

    /// The rule that a `rename_all` value names.
    pub fn from_name(value: &str) -> (r: Result<RenameRule, &'static str>)
        ensures
            value@ == "camelCase"@ ==> r == Ok::<RenameRule, &'static str>(RenameRule::Camel),
            value@ == "snake_case"@ ==> r == Ok::<RenameRule, &'static str>(RenameRule::Snake),
            value@ == "kebab-case"@ ==> r == Ok::<RenameRule, &'static str>(RenameRule::Kebab),
            !(value@ == "camelCase"@ || value@ == "snake_case"@ || value@ == "kebab-case"@) ==> (r matches Err(
                m,
            ) && m@ == "expected `camelCase`, `snake_case`, or `kebab-case`"@),
    {
        proof {
            reveal_strlit("camelCase");
            reveal_strlit("snake_case");
            reveal_strlit("kebab-case");
            assert("camelCase"@[0] == 'c' && "snake_case"@[0] == 's' && "kebab-case"@[0] == 'k');
            assert("camelCase"@ != "snake_case"@ && "camelCase"@ != "kebab-case"@ && "snake_case"@
                != "kebab-case"@);
        }
        if crate::text::str_eq(value, "camelCase") {
            Ok(RenameRule::Camel)
        } else if crate::text::str_eq(value, "snake_case") {
            Ok(RenameRule::Snake)
        } else if crate::text::str_eq(value, "kebab-case") {
            Ok(RenameRule::Kebab)
        } else {
            Err("expected `camelCase`, `snake_case`, or `kebab-case`")
        }
    }
}

/// The files tried, relative to the template root, for a normalized template ID.
pub open spec fn source_candidates(id: Seq<char>) -> Seq<Seq<char>> {
    if has_extension(id) {
        seq![id]
    } else {
        seq![id, id + ".html"@, id + ".txt"@, id + ".json"@]
    }
}

/// The files tried for a template ID given to a derive.
pub fn source_candidate_paths(id: &str) -> (r: Vec<String>)
    ensures
        r@.map_values(|s: String| s@) == source_candidates(id@),
{
    let mut r: Vec<String> = Vec::new();
    let s = chars_of(id);
    if crate::paths::has_extension_of(s.as_slice()) {
        r.push(id.to_owned());
        proof {
            assert(r@.map_values(|s: String| s@) =~= seq![id@]);
        }
        return r;
    }
    r.push(id.to_owned());
    let mut a = id.to_owned();
    push_str(&mut a, ".html");
    r.push(a);
    let mut b = id.to_owned();
    push_str(&mut b, ".txt");
    r.push(b);
    let mut c = id.to_owned();
    push_str(&mut c, ".json");
    r.push(c);
    proof {
        assert(r@.map_values(|s: String| s@) =~= seq![id@, id@ + ".html"@, id@ + ".txt"@, id@ + ".json"@]);
    }
    r
}

/// The template part of an include dependency: what precedes a `$fragment`.
pub open spec fn dependency_template(dep: Seq<char>) -> Seq<char> {
    split_on(dep, '$')[0]
}

/// The template that an include dependency names, without its fragment.
pub fn dependency_template_of(dep: &str) -> (r: String)
    ensures
        r@ == dependency_template(dep@),
{
    let s = chars_of(dep);
    let parts = split_chars(s.as_slice(), '$');
    proof {
        crate::paths::lemma_split_nonempty(s@, '$');
        assert(views(parts@)[0] == parts@[0]@);
    }
    string_of(parts[0].as_slice())
}

/// Where `id` already stands on the stack of templates being loaded.
pub open spec fn stack_position(stack: Seq<Seq<char>>, id: Seq<char>) -> Option<int>
    decreases stack.len(),
{
    if stack.len() == 0 {
        None
    } else {
        match stack_position(stack.drop_last(), id) {
            Some(i) => Some(i),
            None => if stack.last() == id {
                Some(stack.len() - 1)
            } else {
                None
            },
        }
    }
}

/// The include cycle that loading `id` would close: the stack from the first
/// occurrence of `id` on, then `id` again.
pub open spec fn include_cycle(stack: Seq<Seq<char>>, id: Seq<char>) -> Option<Seq<Seq<char>>> {
    match stack_position(stack, id) {
        Some(i) => Some(stack.skip(i).push(id)),
        None => None,
    }
}

/// The include cycle that loading `id` on top of `stack` would close.
pub fn find_include_cycle(stack: &Vec<String>, id: &str) -> (r: Option<Vec<String>>)
    ensures
        match include_cycle(stack@.map_values(|s: String| s@), id@) {
            Some(c) => r matches Some(v) && v@.map_values(|s: String| s@) == c,
            None => r is None,
        },
{
    let ghost sv = stack@.map_values(|s: String| s@);
    let mut i: usize = 0;
    proof {
        assert(sv.take(0) =~= Seq::<Seq<char>>::empty());
    }
    while i < stack.len()
        invariant
            i <= stack@.len(),
            sv == stack@.map_values(|s: String| s@),
            stack_position(sv.take(i as int), id@) is None,
        decreases stack@.len() - i,
    {
        proof {
            assert(sv.take(i + 1).drop_last() =~= sv.take(i as int));
        }
        if crate::text::str_eq(stack[i].as_str(), id) {
            proof {
                lemma_position_prefix(sv, i as int, id@);
            }
            let mut cycle: Vec<String> = Vec::new();
            let mut j = i;
            proof {
                assert(cycle@.map_values(|s: String| s@) =~= sv.subrange(i as int, i as int));
            }
            while j < stack.len()
                invariant
                    i <= j <= stack@.len(),
                    sv == stack@.map_values(|s: String| s@),
                    cycle@.map_values(|s: String| s@) == sv.subrange(i as int, j as int),
                decreases stack@.len() - j,
            {
                let item = stack[j].as_str().to_owned();
                proof {
                    assert(item@ == stack@[j as int]@);
                    assert(sv[j as int] == stack@[j as int]@);
                    assert(cycle@.push(item).map_values(|s: String| s@) =~= cycle@.map_values(|s: String| s@).push(
                        item@,
                    ));
                    assert(sv.subrange(i as int, j + 1) =~= sv.subrange(i as int, j as int).push(sv[j as int]));
                }
                cycle.push(item);
                j = j + 1;
            }
            let last = id.to_owned();
            proof {
                assert(cycle@.push(last).map_values(|s: String| s@) =~= sv.skip(i as int).push(id@));
            }
            cycle.push(last);
            return Some(cycle);
        }
        i = i + 1;
    }
    proof {
        assert(sv.take(sv.len() as int) =~= sv);
    }
    None
}

/// The first position of `id` is `i` when `id` is at `i` and not before.
proof fn lemma_position_prefix(sv: Seq<Seq<char>>, i: int, id: Seq<char>)
    requires
        0 <= i < sv.len(),
        sv[i] == id,
        stack_position(sv.take(i), id) is None,
    ensures
        stack_position(sv, id) == Some(i),
    decreases sv.len() - i,
{
    assert(sv.take(i + 1).drop_last() =~= sv.take(i));
    if i + 1 < sv.len() {
        lemma_position_extends(sv, i + 1, id, i);
    } else {
        assert(sv.take(i + 1) =~= sv);
    }
}

/// A position found in a prefix stays the position in longer prefixes.
proof fn lemma_position_extends(sv: Seq<Seq<char>>, n: int, id: Seq<char>, i: int)
    requires
        0 < n <= sv.len(),
        stack_position(sv.take(n), id) == Some(i),
    ensures
        stack_position(sv, id) == Some(i),
    decreases sv.len() - n,
{
    if n < sv.len() {
        assert(sv.take(n + 1).drop_last() =~= sv.take(n));
        lemma_position_extends(sv, n + 1, id, i);
    } else {
        assert(sv.take(n) =~= sv);
    }
}

} // verus!

verus! {

/// A template with no cycle to report is not on the stack.
pub proof fn lemma_no_cycle_not_on_stack(stack: Seq<Seq<char>>, id: Seq<char>)
    requires
        include_cycle(stack, id) is None,
    ensures
        !stack.contains(id),
    decreases stack.len(),
{
    if stack.len() > 0 {
        lemma_no_cycle_not_on_stack(stack.drop_last(), id);
        if stack.contains(id) {
            let k = choose|k: int| 0 <= k < stack.len() && stack[k] == id;
            if k < stack.len() - 1 {
                assert(stack.drop_last()[k] == id);
            }
        }
    }
}

/// A reported cycle starts and ends at the template that closes it.
pub proof fn lemma_cycle_ends(stack: Seq<Seq<char>>, id: Seq<char>)
    ensures
        include_cycle(stack, id) matches Some(c) ==> c.len() >= 1 && c.first() == id && c.last() == id,
    decreases stack.len(),
{
    if stack.len() > 0 {
        lemma_cycle_ends(stack.drop_last(), id);
        lemma_position_found(stack, id);
    }
}

proof fn lemma_position_found(stack: Seq<Seq<char>>, id: Seq<char>)
    ensures
        stack_position(stack, id) matches Some(i) ==> 0 <= i < stack.len() && stack[i] == id,
    decreases stack.len(),
{
    if stack.len() > 0 {
        lemma_position_found(stack.drop_last(), id);
    }
}

} // verus!

verus! {

/// A template that closes a cycle is on the stack.
pub proof fn lemma_cycle_on_stack(stack: Seq<Seq<char>>, id: Seq<char>)
    ensures
        include_cycle(stack, id) is Some ==> exists|k: int| 0 <= k < stack.len() && stack[k] == id,
{
    lemma_position_found(stack, id);
}

} // verus!
