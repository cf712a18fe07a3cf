//! Template IDs: relative `/`-separated paths below a template root.

use vstd::prelude::*;

use crate::error::{ErrorCode, RenderError};
use crate::media::{content_type_of, suffix_of, MediaType};
use crate::text::{chars_of, push_chars, push_str, string_of};

verus! {

/// The pieces of `s` between the occurrences of `sep`, as `str::split` yields them.
pub open spec fn split_on(s: Seq<char>, sep: char) -> Seq<Seq<char>>
    decreases s.len(),
{
    if s.len() == 0 {
        seq![Seq::empty()]
    } else {
        let rest = split_on(s.drop_last(), sep);
        if s.last() == sep {
            rest.push(Seq::empty())
        } else {
            rest.update(rest.len() - 1, rest.last().push(s.last()))
        }
    }
}

/// Pieces joined with a separator.
pub open spec fn join_with(parts: Seq<Seq<char>>, sep: Seq<char>) -> Seq<char>
    decreases parts.len(),
{
    if parts.len() == 0 {
        Seq::empty()
    } else if parts.len() == 1 {
        parts[0]
    } else {
        join_with(parts.drop_last(), sep) + sep + parts.last()
    }
}

/// The pieces that are not empty.
pub open spec fn non_empty(parts: Seq<Seq<char>>) -> Seq<Seq<char>>
    decreases parts.len(),
{
    if parts.len() == 0 {
        Seq::empty()
    } else if parts.last().len() == 0 {
        non_empty(parts.drop_last())
    } else {
        non_empty(parts.drop_last()).push(parts.last())
    }
}

/// The path segments that name something: not empty, not `.` and not `..`.
pub open spec fn named_segments(parts: Seq<Seq<char>>) -> Seq<Seq<char>>
    decreases parts.len(),
{
    if parts.len() == 0 {
        Seq::empty()
    } else {
        let rest = named_segments(parts.drop_last());
        let p = parts.last();
        if p.len() == 0 || p == "."@ || p == ".."@ {
            rest
        } else {
            rest.push(p)
        }
    }
}

/// A path segment `..` leaves the directory it starts from.
pub open spec fn escapes(s: Seq<char>) -> bool {
    split_on(s, '/').contains(".."@)
}

/// A path that starts at the root.
pub open spec fn is_absolute(s: Seq<char>) -> bool {
    s.len() > 0 && s[0] == '/'
}

/// The segments of a relative path joined by single slashes, without `.`.
pub open spec fn normal_form(s: Seq<char>) -> Seq<char> {
    join_with(named_segments(split_on(s, '/')), "/"@)
}

pub open spec fn views(v: Seq<Vec<char>>) -> Seq<Seq<char>> {
    v.map_values(|x: Vec<char>| x@)
}

/// Splits `s` at each `sep`.
pub fn split_chars(s: &[char], sep: char) -> (r: Vec<Vec<char>>)
    ensures
        views(r@) == split_on(s@, sep),
{
    let mut out: Vec<Vec<char>> = Vec::new();
    let mut cur: Vec<char> = Vec::new();
    let mut i: usize = 0;
    proof {
        assert(s@.take(0) =~= Seq::<char>::empty());
        assert(views(out@).push(cur@) =~= split_on(s@.take(0), sep));
    }
    while i < s.len()
        invariant
            i <= s@.len(),
            views(out@).push(cur@) == split_on(s@.take(i as int), sep),
        decreases s@.len() - i,
    {
        let ghost before = views(out@).push(cur@);
        proof {
            assert(s@.take(i + 1).drop_last() =~= s@.take(i as int));
            assert(s@.take(i + 1).last() == s@[i as int]);
        }
        if s[i] == sep {
            let done = cur;
            proof {
                assert(views(out@.push(done)) =~= views(out@).push(done@));
            }
            out.push(done);
            cur = Vec::new();
            proof {
                assert(views(out@).push(cur@) =~= before.push(Seq::<char>::empty()));
            }
        } else {
            cur.push(s[i]);
            proof {
                assert(views(out@).push(cur@) =~= before.update(before.len() - 1, before.last().push(s@[i as int])));
            }
        }
        i = i + 1;
    }
    proof {
        assert(s@.take(s@.len() as int) =~= s@);
        assert(views(out@.push(cur)) =~= views(out@).push(cur@));
    }
    out.push(cur);
    out
}

/// Joins pieces with a separator.
pub fn join_pieces(parts: &Vec<Vec<char>>, sep: &str) -> (r: String)
    ensures
        r@ == join_with(views(parts@), sep@),
{
    let mut r = String::new();
    let mut i: usize = 0;
    proof {
        assert(views(parts@).take(0) =~= Seq::<Seq<char>>::empty());
    }
    while i < parts.len()
        invariant
            i <= parts@.len(),
            r@ == join_with(views(parts@).take(i as int), sep@),
        decreases parts@.len() - i,
    {
        proof {
            assert(views(parts@).take(i + 1).drop_last() =~= views(parts@).take(i as int));
            assert(views(parts@).take(i + 1).last() == parts@[i as int]@);
        }
        if i > 0 {
            push_str(&mut r, sep);
        }
        push_chars(&mut r, parts[i].as_slice());
        proof {
            if i == 0 {
                assert(r@ =~= join_with(views(parts@).take(1), sep@));
            } else {
                assert(r@ =~= join_with(views(parts@).take(i + 1), sep@));
            }
        }
        i = i + 1;
    }
    proof {
        assert(views(parts@).take(parts@.len() as int) =~= views(parts@));
    }
    r
}

/// The path segments that name something, in order.
pub fn named_segments_of(s: &[char]) -> (r: Vec<Vec<char>>)
    ensures
        views(r@) == named_segments(split_on(s@, '/')),
{
    let parts = split_chars(s, '/');
    let ghost pv = views(parts@);
    let mut out: Vec<Vec<char>> = Vec::new();
    let mut i: usize = 0;
    proof {
        assert(pv.take(0) =~= Seq::<Seq<char>>::empty());
        assert(views(out@) =~= Seq::<Seq<char>>::empty());
    }
    while i < parts.len()
        invariant
            i <= parts@.len(),
            pv == views(parts@),
            views(out@) == named_segments(pv.take(i as int)),
        decreases parts@.len() - i,
    {
        proof {
            assert(pv.take(i + 1).drop_last() =~= pv.take(i as int));
            assert(pv.take(i + 1).last() == parts@[i as int]@);
        }
        let p = parts[i].as_slice();
        let skip = p.len() == 0 || crate::compiler::scan::is_word(p, ".") || crate::compiler::scan::is_word(
            p,
            "..",
        );
        if !skip {
            let copy = crate::compiler::scan::char_range(p, 0, p.len());
            proof {
                assert(copy@ =~= p@);
                assert(views(out@.push(copy)) =~= views(out@).push(copy@));
            }
            out.push(copy);
        }
        i = i + 1;
    }
    proof {
        assert(pv.take(pv.len() as int) =~= pv);
    }
    out
}


/// Whether a segment of `s` is `..`.
pub fn escapes_root(s: &[char]) -> (r: bool)
    ensures
        r == escapes(s@),
{
    let parts = split_chars(s, '/');
    let ghost pv = views(parts@);
    let mut i: usize = 0;
    while i < parts.len()
        invariant
            i <= parts@.len(),
            pv == views(parts@),
            pv == split_on(s@, '/'),
            forall|j: int| 0 <= j < i ==> pv[j] != ".."@,
        decreases parts@.len() - i,
    {
        if crate::compiler::scan::is_word(parts[i].as_slice(), "..") {
            proof {
                assert(pv[i as int] == ".."@);
                assert(pv.contains(".."@));
            }
            return true;
        }
        i = i + 1;
    }
    proof {
        if pv.contains(".."@) {
            let j = choose|j: int| 0 <= j < pv.len() && #[trigger] pv[j] == ".."@;
            assert(pv[j] == ".."@);
        }
    }
    false
}

/// An ID that names no template: empty, absolute, or leaving the root.
pub open spec fn invalid_id(id: Seq<char>) -> bool {
    id.len() == 0 || is_absolute(id) || escapes(id)
}

/// Normalizes a template ID: its named segments joined by `/`. Empty,
/// absolute and escaping IDs are refused as missing templates.
pub fn normalize_id(id: &str) -> (r: Result<String, RenderError>)
    ensures
        r is Err <==> invalid_id(id@),
        r matches Ok(v) ==> v@ == normal_form(id@),
        r matches Err(e) ==> e.code == ErrorCode::MissingTemplate && e.message@ == "invalid template ID `"@
            + id@ + "`"@ && e.template is None && e.span is None,
{
    let s = chars_of(id);
    if s.len() == 0 || s[0] == '/' || escapes_root(s.as_slice()) {
        let mut message = "invalid template ID `".to_owned();
        push_str(&mut message, id);
        push_str(&mut message, "`");
        return Err(RenderError::new(ErrorCode::MissingTemplate, message));
    }
    let parts = named_segments_of(s.as_slice());
    Ok(join_pieces(&parts, "/"))
}


/// The file name of a path has an extension: a `.` after its first character.
pub open spec fn has_extension(id: Seq<char>) -> bool {
    let name = split_on(id, '/').last();
    exists|i: int| 0 < i < name.len() && name[i] == '.'
}

/// The language of a locale such as `fr-CA` or `pt_BR`: what precedes the
/// first `-` or `_`, when that is not empty.
pub open spec fn base_language(language: Seq<char>) -> Option<Seq<char>> {
    match first_separator(language) {
        Some(i) => if i > 0 {
            Some(language.take(i))
        } else {
            None
        },
        None => None,
    }
}

/// Index of the first `-` or `_`.
pub open spec fn first_separator(s: Seq<char>) -> Option<int>
    decreases s.len(),
{
    if s.len() == 0 {
        None
    } else if s[0] == '-' || s[0] == '_' {
        Some(0)
    } else {
        match first_separator(s.drop_first()) {
            Some(i) => Some(i + 1),
            None => None,
        }
    }
}

/// The IDs tried for a requested template in one media type: localized
/// variants first, then the plain one.
pub open spec fn variant_ids(req: Seq<char>, language: Option<Seq<char>>, suffix: Seq<char>) -> Seq<Seq<char>> {
    let localized = match language {
        Some(l) => seq![req + "."@ + l + suffix] + match base_language(l) {
            Some(b) => seq![req + "."@ + b + suffix],
            None => Seq::empty(),
        },
        None => Seq::empty(),
    };
    localized + seq![req + suffix]
}

/// Consecutive repeats removed, as `Vec::dedup` does.
pub open spec fn dedup(s: Seq<Seq<char>>) -> Seq<Seq<char>>
    decreases s.len(),
{
    if s.len() == 0 {
        Seq::empty()
    } else {
        let r = dedup(s.drop_last());
        if r.len() > 0 && r.last() == s.last() {
            r
        } else {
            r.push(s.last())
        }
    }
}

/// The IDs tried, in order, for a normalized template ID: the ID itself when
/// it has an extension; otherwise the variants of the requested media type,
/// or of every media type after the bare ID.
pub open spec fn candidate_ids(req: Seq<char>, media: Option<MediaType>, language: Option<Seq<char>>) -> Seq<
    Seq<char>,
> {
    dedup(
        if has_extension(req) {
            seq![req]
        } else {
            match media {
                Some(m) => variant_ids(req, language, suffix_of(m)),
                None => seq![req] + variant_ids(req, language, ".html"@) + variant_ids(
                    req,
                    language,
                    ".txt"@,
                ) + variant_ids(req, language, ".json"@) + variant_ids(req, language, ".xml"@),
            }
        },
    )
}

pub fn has_extension_of(id: &[char]) -> (r: bool)
    ensures
        r == has_extension(id@),
{
    let parts = split_chars(id, '/');
    proof {
        lemma_split_nonempty(id@, '/');
    }
    let name = &parts[parts.len() - 1];
    let mut i: usize = 1;
    while i < name.len()
        invariant
            1 <= i,
            name@ == split_on(id@, '/').last(),
            forall|j: int| 0 < j < i && j < name@.len() ==> name@[j] != '.',
        decreases name@.len() - i,
    {
        if name[i] == '.' {
            return true;
        }
        i = i + 1;
    }
    false
}

pub proof fn lemma_split_nonempty(s: Seq<char>, sep: char)
    ensures
        split_on(s, sep).len() >= 1,
    decreases s.len(),
{
    if s.len() > 0 {
        lemma_split_nonempty(s.drop_last(), sep);
    }
}

/// The language part of a locale.
pub fn base_language_of(language: &[char]) -> (r: Option<Vec<char>>)
    ensures
        match base_language(language@) {
            Some(b) => r matches Some(v) && v@ == b,
            None => r is None,
        },
{
    let mut i: usize = 0;
    proof {
        assert(language@.skip(0) =~= language@);
    }
    while i < language.len()
        invariant
            i <= language@.len(),
            first_separator(language@) == match first_separator(language@.skip(i as int)) {
                Some(k) => Some(k + i),
                None => None::<int>,
            },
        decreases language@.len() - i,
    {
        proof {
            assert(language@.skip(i as int).drop_first() =~= language@.skip(i + 1));
        }
        if language[i] == '-' || language[i] == '_' {
            if i == 0 {
                return None;
            }
            return Some(crate::compiler::scan::char_range(language, 0, i));
        }
        i = i + 1;
    }
    proof {
        assert(language@.skip(i as int) =~= Seq::<char>::empty());
    }
    None
}

fn suffixed(req: &[char], middle: Option<&[char]>, suffix: &str) -> (r: Vec<char>)
    ensures
        r@ == match middle {
            Some(m) => req@ + "."@ + m@ + suffix@,
            None => req@ + suffix@,
        },
{
    let mut r = crate::compiler::scan::char_range(req, 0, req.len());
    let dot = chars_of(".");
    let sfx = chars_of(suffix);
    let mut out = match middle {
        Some(m) => {
            let a = crate::compiler::args::join_chars(r.as_slice(), dot.as_slice());
            crate::compiler::args::join_chars(a.as_slice(), m)
        },
        None => r,
    };
    let result = crate::compiler::args::join_chars(out.as_slice(), sfx.as_slice());
    proof {
        assert(req@.subrange(0, req@.len() as int) =~= req@);
        match middle {
            Some(m) => {
                assert(result@ =~= req@ + "."@ + m@ + suffix@);
            },
            None => {},
        }
    }
    result
}

fn push_variants(out: &mut Vec<Vec<char>>, req: &[char], language: Option<&[char]>, suffix: &str)
    ensures
        views(final(out)@) == views(old(out)@) + variant_ids(
            req@,
            match language {
                Some(l) => Some(l@),
                None => None,
            },
            suffix@,
        ),
{
    let ghost start = views(out@);
    match language {
        Some(l) => {
            let a = suffixed(req, Some(l), suffix);
            proof {
                assert(views(out@.push(a)) =~= views(out@).push(a@));
            }
            out.push(a);
            match base_language_of(l) {
                Some(b) => {
                    let c = suffixed(req, Some(b.as_slice()), suffix);
                    proof {
                        assert(views(out@.push(c)) =~= views(out@).push(c@));
                    }
                    out.push(c);
                },
                None => {},
            }
        },
        None => {},
    }
    let d = suffixed(req, None, suffix);
    proof {
        assert(views(out@.push(d)) =~= views(out@).push(d@));
    }
    out.push(d);
    proof {
        assert(views(out@) =~= start + variant_ids(
            req@,
            match language {
                Some(l) => Some(l@),
                None => None,
            },
            suffix@,
        ));
    }
}

/// The template IDs to try, in order, for a requested template in the
/// given media type and language. The request is normalized first.
pub fn template_candidates(requested: &str, media_type: Option<MediaType>, language: Option<&str>) -> (r: Result<
    Vec<String>,
    RenderError,
>)
    ensures
        r is Err <==> invalid_id(requested@),
        r matches Err(e) ==> e.code == ErrorCode::MissingTemplate && e.message@ == "invalid template ID `"@
            + requested@ + "`"@,
        r matches Ok(v) ==> v@.map_values(|s: String| s@) == candidate_ids(
            normal_form(requested@),
            media_type,
            match language {
                Some(l) => Some(l@),
                None => None,
            },
        ),
{
    let req = match normalize_id(requested) {
        Ok(v) => v,
        Err(e) => {
            return Err(e);
        },
    };
    let q = chars_of(req.as_str());
    let lang = match language {
        Some(l) => Some(chars_of(l)),
        None => None,
    };
    let ls: Option<&[char]> = match &lang {
        Some(l) => Some(l.as_slice()),
        None => None,
    };
    let mut all: Vec<Vec<char>> = Vec::new();
    proof {
        assert(views(all@) =~= Seq::<Seq<char>>::empty());
        reveal_strlit(".html");
        reveal_strlit(".txt");
        reveal_strlit(".json");
        reveal_strlit(".xml");
    }
    if has_extension_of(q.as_slice()) {
        let copy = crate::compiler::scan::char_range(q.as_slice(), 0, q.len());
        proof {
            assert(copy@ =~= q@);
            assert(views(all@.push(copy)) =~= seq![q@]);
        }
        all.push(copy);
    } else {
        match media_type {
            Some(m) => {
                push_variants(&mut all, q.as_slice(), ls, m.suffix());
            },
            None => {
                let copy = crate::compiler::scan::char_range(q.as_slice(), 0, q.len());
                proof {
                    assert(copy@ =~= q@);
                    assert(views(all@.push(copy)) =~= seq![q@]);
                }
                all.push(copy);
                push_variants(&mut all, q.as_slice(), ls, ".html");
                push_variants(&mut all, q.as_slice(), ls, ".txt");
                push_variants(&mut all, q.as_slice(), ls, ".json");
                push_variants(&mut all, q.as_slice(), ls, ".xml");
            },
        }
    }
    let ghost av = views(all@);
    let mut out: Vec<String> = Vec::new();
    let mut i: usize = 0;
    proof {
        assert(out@.map_values(|s: String| s@) =~= Seq::<Seq<char>>::empty());
        assert(av.take(0) =~= Seq::<Seq<char>>::empty());
    }
    while i < all.len()
        invariant
            i <= all@.len(),
            av == views(all@),
            out@.map_values(|s: String| s@) == dedup(av.take(i as int)),
        decreases all@.len() - i,
    {
        proof {
            assert(av.take(i + 1).drop_last() =~= av.take(i as int));
            assert(av.take(i + 1).last() == all@[i as int]@);
        }
        let repeat = out.len() > 0 && crate::text::str_eq(out[out.len() - 1].as_str(), string_of(all[i].as_slice()).as_str());
        if !repeat {
            let s = string_of(all[i].as_slice());
            proof {
                assert(out@.push(s).map_values(|s: String| s@) =~= out@.map_values(|s: String| s@).push(s@));
            }
            out.push(s);
        }
        i = i + 1;
    }
    proof {
        assert(av.take(av.len() as int) =~= av);
    }
    Ok(out)
}

/// The error for an `Accept` header that asks for no media type that
/// templates can be rendered as.
pub fn not_acceptable() -> (e: RenderError)
    ensures
        e.code == ErrorCode::NotAcceptable,
        e.message@ == "the Accept header has no supported media type"@,
        e.template is None,
        e.span is None,
        e.render_stack@.len() == 0,
{
    RenderError::new(ErrorCode::NotAcceptable, "the Accept header has no supported media type".to_string())
}

/// The error for a template that is not known.
pub fn missing_template(id: &str) -> (e: RenderError)
    ensures
        e.code == ErrorCode::MissingTemplate,
        e.message@ == "template `"@ + id@ + "` was not found"@,
        e.template is None,
        e.span is None,
{
    let mut message = "template `".to_owned();
    push_str(&mut message, id);
    push_str(&mut message, "` was not found");
    RenderError::new(ErrorCode::MissingTemplate, message)
}

/// The error for a template that no candidate ID found: in a requested
/// media type it has no such variant; otherwise it is missing.
pub fn unresolved_template(requested: &str, media_type: Option<MediaType>) -> (e: RenderError)
    ensures
        match media_type {
            Some(m) => e.code == ErrorCode::NotAcceptable && e.message@ == "template `"@ + requested@
                + "` has no "@ + content_type_of(m) + " variant"@,
            None => e.code == ErrorCode::MissingTemplate && e.message@ == "template `"@ + requested@
                + "` was not found"@,
        },
        e.template is None,
{
    match media_type {
        Some(m) => {
            let mut message = "template `".to_owned();
            push_str(&mut message, requested);
            push_str(&mut message, "` has no ");
            push_str(&mut message, m.content_type());
            push_str(&mut message, " variant");
            RenderError::new(ErrorCode::NotAcceptable, message)
        },
        None => missing_template(requested),
    }
}

/// The error for a loader that failed on a candidate ID.
pub fn loader_failure(candidate: &str, cause: String) -> (e: RenderError)
    ensures
        e.code == ErrorCode::Loader,
        e.message@ == "could not load template `"@ + candidate@ + "`"@,
        e.source == Some(cause),
{
    let mut message = "could not load template `".to_owned();
    push_str(&mut message, candidate);
    push_str(&mut message, "`");
    RenderError::new(ErrorCode::Loader, message).with_source(cause)
}


/// No piece holds the separator.
pub open spec fn free_of(parts: Seq<Seq<char>>, sep: char) -> bool {
    forall|i: int, j: int| 0 <= i < parts.len() && 0 <= j < parts[i].len() ==> #[trigger] parts[i][j] != sep
}

/// Every piece names something: not empty, not `.`, not `..`.
pub open spec fn all_named(parts: Seq<Seq<char>>) -> bool {
    forall|i: int| 0 <= i < parts.len() ==> is_named(#[trigger] parts[i])
}

/// A path segment that names something.
pub open spec fn is_named(p: Seq<char>) -> bool {
    p.len() > 0 && p != "."@ && p != ".."@
}

proof fn lemma_split_free(s: Seq<char>, sep: char)
    ensures
        free_of(split_on(s, sep), sep),
        split_on(s, sep).len() >= 1,
    decreases s.len(),
{
    if s.len() > 0 {
        lemma_split_free(s.drop_last(), sep);
        let rest = split_on(s.drop_last(), sep);
        let r = split_on(s, sep);
        if s.last() != sep {
            assert forall|i: int, j: int| 0 <= i < r.len() && 0 <= j < r[i].len() implies #[trigger] r[i][j]
                != sep by {
                if i == r.len() - 1 {
                    if j < rest.last().len() {
                        assert(r[i][j] == rest[rest.len() - 1][j]);
                    }
                } else {
                    assert(r[i] == rest[i]);
                }
            }
        } else {
            assert forall|i: int, j: int| 0 <= i < r.len() && 0 <= j < r[i].len() implies #[trigger] r[i][j]
                != sep by {
                assert(r[i] == rest[i]);
            }
        }
    }
}

proof fn lemma_named_segments_named(parts: Seq<Seq<char>>, sep: char)
    requires
        free_of(parts, sep),
    ensures
        all_named(named_segments(parts)),
        free_of(named_segments(parts), sep),
    decreases parts.len(),
{
    if parts.len() > 0 {
        let init = parts.drop_last();
        assert(free_of(init, sep)) by {
            assert forall|i: int, j: int| 0 <= i < init.len() && 0 <= j < init[i].len() implies #[trigger] init[i][j]
                != sep by {
                assert(init[i] == parts[i]);
            }
        }
        lemma_named_segments_named(init, sep);
        let r = named_segments(parts);
        let rest = named_segments(init);
        if !(parts.last().len() == 0 || parts.last() == "."@ || parts.last() == ".."@) {
            assert forall|i: int, j: int| 0 <= i < r.len() && 0 <= j < r[i].len() implies #[trigger] r[i][j]
                != sep by {
                if i < rest.len() {
                    assert(r[i] == rest[i]);
                } else {
                    assert(r[i] == parts[parts.len() - 1]);
                }
            }
            assert forall|i: int| 0 <= i < r.len() implies is_named(#[trigger] r[i]) by {
                if i < rest.len() {
                    assert(r[i] == rest[i]);
                }
            }
        }
    }
}

proof fn lemma_named_segments_keep(parts: Seq<Seq<char>>)
    requires
        all_named(parts),
    ensures
        named_segments(parts) == parts,
    decreases parts.len(),
{
    if parts.len() > 0 {
        let init = parts.drop_last();
        assert(all_named(init)) by {
            assert forall|i: int| 0 <= i < init.len() implies is_named(#[trigger] init[i]) by {
                assert(init[i] == parts[i]);
            }
        }
        assert(is_named(parts[parts.len() - 1]));
        lemma_named_segments_keep(init);
        assert(parts.last() == parts[parts.len() - 1]);
        assert(init.push(parts.last()) =~= parts);
    }
}

proof fn lemma_split_without_sep(b: Seq<char>, sep: char)
    requires
        forall|j: int| 0 <= j < b.len() ==> #[trigger] b[j] != sep,
    ensures
        split_on(b, sep) == seq![b],
    decreases b.len(),
{
    if b.len() == 0 {
        assert(b =~= Seq::<char>::empty());
        assert(split_on(b, sep) =~= seq![b]);
    } else {
        assert forall|j: int| 0 <= j < b.drop_last().len() implies #[trigger] b.drop_last()[j] != sep by {
            assert(b.drop_last()[j] == b[j]);
        }
        lemma_split_without_sep(b.drop_last(), sep);
        assert(b[b.len() - 1] != sep);
        assert(b.last() != sep);
        let rest = split_on(b.drop_last(), sep);
        assert(rest == seq![b.drop_last()]);
        assert(split_on(b, sep) == rest.update(rest.len() - 1, rest.last().push(b.last())));
        assert(b.drop_last().push(b.last()) =~= b);
        assert(split_on(b, sep) =~= seq![b]);
    }
}

proof fn lemma_split_after_sep(x: Seq<char>, b: Seq<char>, sep: char)
    requires
        forall|j: int| 0 <= j < b.len() ==> #[trigger] b[j] != sep,
    ensures
        split_on(x + seq![sep] + b, sep) == split_on(x, sep).push(b),
    decreases b.len(),
{
    let w = x + seq![sep] + b;
    if b.len() == 0 {
        assert(b =~= Seq::<char>::empty());
        assert(w.drop_last() =~= x);
        assert(w.last() == sep);
        assert(split_on(w, sep) =~= split_on(x, sep).push(b));
    } else {
        assert forall|j: int| 0 <= j < b.drop_last().len() implies #[trigger] b.drop_last()[j] != sep by {
            assert(b.drop_last()[j] == b[j]);
        }
        assert(b[b.len() - 1] != sep);
        lemma_split_after_sep(x, b.drop_last(), sep);
        assert(w.drop_last() =~= x + seq![sep] + b.drop_last());
        assert(w.last() == b.last());
        assert(b.last() != sep);
        let rest = split_on(w.drop_last(), sep);
        assert(rest == split_on(x, sep).push(b.drop_last()));
        assert(split_on(w, sep) == rest.update(rest.len() - 1, rest.last().push(b.last())));
        assert(b.drop_last().push(b.last()) =~= b);
        assert(split_on(w, sep) =~= split_on(x, sep).push(b));
    }
}

/// Joining pieces free of the separator, then splitting, gives the pieces back.
proof fn lemma_split_join(parts: Seq<Seq<char>>, sep: char)
    requires
        parts.len() >= 1,
        free_of(parts, sep),
    ensures
        split_on(join_with(parts, seq![sep]), sep) == parts,
    decreases parts.len(),
{
    if parts.len() == 1 {
        assert forall|j: int| 0 <= j < parts[0].len() implies #[trigger] parts[0][j] != sep by {
            assert(parts[0][j] != sep);
        }
        lemma_split_without_sep(parts[0], sep);
        assert(seq![parts[0]] =~= parts);
    } else {
        let init = parts.drop_last();
        assert(free_of(init, sep)) by {
            assert forall|i: int, j: int| 0 <= i < init.len() && 0 <= j < init[i].len() implies #[trigger] init[i][j]
                != sep by {
                assert(init[i] == parts[i]);
            }
        }
        lemma_split_join(init, sep);
        let b = parts.last();
        assert forall|j: int| 0 <= j < b.len() implies #[trigger] b[j] != sep by {
            assert(parts[parts.len() - 1][j] != sep);
        }
        lemma_split_after_sep(join_with(init, seq![sep]), b, sep);
        assert(init.push(b) =~= parts);
    }
}

/// A normalized template ID neither starts at the root nor leaves it, and
/// normalizing it again changes nothing.
pub proof fn law_normal_ids_stay_below_root(id: Seq<char>)
    ensures
        !is_absolute(normal_form(id)),
        !escapes(normal_form(id)),
        normal_form(normal_form(id)) == normal_form(id),
{
    let segs = named_segments(split_on(id, '/'));
    lemma_split_free(id, '/');
    lemma_named_segments_named(split_on(id, '/'), '/');
    assert("/"@ =~= seq!['/']) by {
        reveal_strlit("/");
    }
    let n = normal_form(id);
    if segs.len() == 0 {
        assert(n =~= Seq::<char>::empty());
        assert(split_on(n, '/') =~= seq![Seq::<char>::empty()]);
        assert(!split_on(n, '/').contains(".."@)) by {
            reveal_strlit("..");
            if split_on(n, '/').contains(".."@) {
                let k = choose|k: int| 0 <= k < split_on(n, '/').len() && split_on(n, '/')[k] == ".."@;
                assert(split_on(n, '/')[k].len() == 0);
            }
        }
        assert(seq![Seq::<char>::empty()].drop_last() =~= Seq::<Seq<char>>::empty());
        assert(named_segments(Seq::<Seq<char>>::empty()) == Seq::<Seq<char>>::empty());
        assert(named_segments(seq![Seq::<char>::empty()]) =~= Seq::<Seq<char>>::empty());
    } else {
        lemma_split_join(segs, '/');
        assert(split_on(n, '/') == segs);
        assert(!segs.contains(".."@)) by {
            if segs.contains(".."@) {
                let k = choose|k: int| 0 <= k < segs.len() && segs[k] == ".."@;
                assert(is_named(segs[k]));
            }
        }
        lemma_named_segments_keep(segs);
        lemma_join_starts(segs, '/');
    }
}

/// A join of pieces free of the separator starts with the first piece.
proof fn lemma_join_starts(parts: Seq<Seq<char>>, sep: char)
    requires
        parts.len() >= 1,
        parts[0].len() > 0,
        free_of(parts, sep),
    ensures
        join_with(parts, seq![sep]).len() > 0,
        join_with(parts, seq![sep])[0] == parts[0][0],
    decreases parts.len(),
{
    if parts.len() > 1 {
        let init = parts.drop_last();
        assert(free_of(init, sep)) by {
            assert forall|i: int, j: int| 0 <= i < init.len() && 0 <= j < init[i].len() implies #[trigger] init[i][j]
                != sep by {
                assert(init[i] == parts[i]);
            }
        }
        lemma_join_starts(init, sep);
    }
    assert(parts[0][0] != sep);
}

// ---------------------------------------------------------------------------
// IDs that editor navigation may look up
// ---------------------------------------------------------------------------

/// An ID that names a file below a template root: not empty, free of `\`,
/// not absolute, not starting with a `.` segment, and without `..` segments.
pub open spec fn safe_template_id(id: Seq<char>) -> bool {
    &&& id.len() > 0
    &&& !id.contains('\\')
    &&& !is_absolute(id)
    &&& split_on(id, '/')[0] != "."@
    &&& !escapes(id)
}

/// Whether editor navigation may look up the template `id`.
pub fn safe_id(id: &str) -> (r: bool)
    ensures
        r == safe_template_id(id@),
{
    let s = chars_of(id);
    let n = s.len();
    if n == 0 {
        return false;
    }
    let mut i: usize = 0;
    while i < n
        invariant
            i <= n,
            n == s@.len(),
            s@ == id@,
            forall|j: int| 0 <= j < i ==> s@[j] != '\\',
        decreases n - i,
    {
        if s[i] == '\\' {
            proof {
                assert(s@[i as int] == '\\');
                assert(s@.contains('\\'));
            }
            return false;
        }
        i = i + 1;
    }
    if s[0] == '/' {
        return false;
    }
    let parts = split_chars(s.as_slice(), '/');
    proof {
        lemma_split_nonempty(s@, '/');
    }
    assert(views(parts@)[0] == parts@[0]@);
    if crate::compiler::scan::is_word(parts[0].as_slice(), ".") {
        return false;
    }
    !escapes_root(s.as_slice())
}

proof fn lemma_first_named_kept(parts: Seq<Seq<char>>)
    requires
        parts.len() > 0,
        is_named(parts[0]),
    ensures
        named_segments(parts).len() > 0,
    decreases parts.len(),
{
    if parts.len() > 1 {
        assert(parts.drop_last()[0] == parts[0]);
        lemma_first_named_kept(parts.drop_last());
    }
}

/// Template navigation cannot leave the root: a safe ID is relative, has
/// no `..` segment, and its normal form names something below the root.
pub proof fn law_safe_ids_stay_below_root(id: Seq<char>)
    requires
        safe_template_id(id),
    ensures
        !is_absolute(id),
        !escapes(id),
        normal_form(id).len() > 0,
        !is_absolute(normal_form(id)),
        !escapes(normal_form(id)),
{
    let parts = split_on(id, '/');
    lemma_split_nonempty(id, '/');
    lemma_split_free(id, '/');
    lemma_first_piece(id, '/');
    assert(parts[0] != ".."@) by {
        assert(parts.contains(parts[0]));
    }
    lemma_first_named_kept(parts);
    lemma_named_segments_named(parts, '/');
    law_normal_ids_stay_below_root(id);
    let segs = named_segments(parts);
    assert("/"@ =~= seq!['/']) by {
        reveal_strlit("/");
    }
    lemma_join_starts(segs, '/');
}

/// A text that does not start with the separator has a non-empty first piece.
proof fn lemma_first_piece(s: Seq<char>, sep: char)
    requires
        s.len() > 0,
        s[0] != sep,
    ensures
        split_on(s, sep)[0].len() > 0,
    decreases s.len(),
{
    let rest = split_on(s.drop_last(), sep);
    lemma_split_nonempty(s.drop_last(), sep);
    if s.len() > 1 {
        assert(s.drop_last()[0] == s[0]);
        lemma_first_piece(s.drop_last(), sep);
        assert(rest[0].len() > 0);
        if s.last() == sep {
            assert(split_on(s, sep) == rest.push(Seq::empty()));
            assert(split_on(s, sep)[0] == rest[0]);
        } else {
            let upd = rest.update(rest.len() - 1, rest.last().push(s.last()));
            assert(split_on(s, sep) == upd);
            if rest.len() == 1 {
                assert(upd[0] == rest[0].push(s.last()));
            } else {
                assert(upd[0] == rest[0]);
            }
        }
    } else {
        assert(s.drop_last() =~= Seq::<char>::empty());
        assert(rest == seq![Seq::<char>::empty()]);
        assert(s.last() == s[0]);
        let upd = rest.update(0, rest.last().push(s.last()));
        assert(split_on(s, sep) == upd);
        assert(upd[0].len() == 1);
    }
}

} // verus!

verus! {

/// What asking for one candidate ID gave: a template held or loaded under
/// it, nothing, or a loader failure.
#[derive(Debug, Clone, Copy, PartialEq, Eq, Structural)]
pub enum Lookup {
    Present,
    Absent,
    Failed,
}

/// The next step of a template lookup over `count` candidates, given what
/// the candidates asked so far gave, in order.
#[derive(Debug, Clone, Copy, PartialEq, Eq, Structural)]
pub enum LookupStep {
    /// Ask for candidate `.0`.
    Ask(usize),
    /// Candidate `.0` is the template.
    Found(usize),
    /// Loading candidate `.0` failed: the lookup fails with it.
    Failed(usize),
    /// No candidate is present.
    Unresolved,
}

/// The first answer that is not `Absent`, from `k` on, decides; past the
/// answers the next candidate is asked; past the candidates none is present.
pub open spec fn lookup_from(count: int, answers: Seq<Lookup>, k: int) -> LookupStep
    decreases answers.len() - k,
{
    if k < 0 || k >= answers.len() {
        if k >= 0 && k < count {
            LookupStep::Ask(k as usize)
        } else {
            LookupStep::Unresolved
        }
    } else {
        match answers[k] {
            Lookup::Present => LookupStep::Found(k as usize),
            Lookup::Failed => LookupStep::Failed(k as usize),
            Lookup::Absent => lookup_from(count, answers, k + 1),
        }
    }
}

/// The next step of a lookup: candidates are asked in their order of
/// preference, and the first one present is the template.
pub open spec fn lookup_step_of(count: int, answers: Seq<Lookup>) -> LookupStep {
    lookup_from(count, answers, 0)
}

proof fn lemma_lookup_absent_prefix(count: int, answers: Seq<Lookup>, i: int, k: int)
    requires
        0 <= i <= k <= answers.len(),
        forall|j: int| 0 <= j < k ==> #[trigger] answers[j] == Lookup::Absent,
    ensures
        lookup_from(count, answers, i) == lookup_from(count, answers, k),
    decreases k - i,
{
    if i < k {
        lemma_lookup_absent_prefix(count, answers, i + 1, k);
    }
}

/// The next step of a lookup over `count` candidates.
pub fn lookup_step(count: usize, answers: &Vec<Lookup>) -> (r: LookupStep)
    ensures
        r == lookup_step_of(count as int, answers@),
{
    let mut k: usize = 0;
    while k < answers.len()
        invariant
            k <= answers@.len(),
            forall|j: int| 0 <= j < k ==> #[trigger] answers@[j] == Lookup::Absent,
        decreases answers@.len() - k,
    {
        match answers[k] {
            Lookup::Present => {
                proof {
                    lemma_lookup_absent_prefix(count as int, answers@, 0, k as int);
                }
                return LookupStep::Found(k);
            },
            Lookup::Failed => {
                proof {
                    lemma_lookup_absent_prefix(count as int, answers@, 0, k as int);
                }
                return LookupStep::Failed(k);
            },
            Lookup::Absent => {},
        }
        k = k + 1;
    }
    proof {
        lemma_lookup_absent_prefix(count as int, answers@, 0, k as int);
    }
    if k < count {
        LookupStep::Ask(k)
    } else {
        LookupStep::Unresolved
    }
}

/// A lookup finds a candidate only when every candidate preferred to it was
/// asked for and is absent, and it asks each candidate at most once, in order.
pub proof fn law_lookup_prefers_earlier_candidates(count: usize, answers: Seq<Lookup>)
    requires
        answers.len() <= usize::MAX,
    ensures
        lookup_step_of(count as int, answers) matches LookupStep::Found(k) ==> k < answers.len()
            && answers[k as int] == Lookup::Present && forall|j: int| 0 <= j < k ==> answers[j]
            == Lookup::Absent,
        lookup_step_of(count as int, answers) matches LookupStep::Ask(k) ==> k == answers.len() && k < count
            && forall|j: int| 0 <= j < answers.len() ==> answers[j] == Lookup::Absent,
        lookup_step_of(count as int, answers) is Unresolved ==> answers.len() >= count && forall|j: int|
            0 <= j < answers.len() ==> answers[j] == Lookup::Absent,
{
    lemma_lookup_from(count as int, answers, 0);
}

proof fn lemma_lookup_from(count: int, answers: Seq<Lookup>, i: int)
    requires
        0 <= i <= answers.len(),
        answers.len() <= usize::MAX,
        count <= usize::MAX,
    ensures
        lookup_from(count, answers, i) matches LookupStep::Found(k) ==> i <= k < answers.len()
            && answers[k as int] == Lookup::Present && forall|j: int| i <= j < k ==> answers[j]
            == Lookup::Absent,
        lookup_from(count, answers, i) matches LookupStep::Failed(k) ==> i <= k < answers.len()
            && answers[k as int] == Lookup::Failed,
        lookup_from(count, answers, i) matches LookupStep::Ask(k) ==> k == answers.len() && k < count
            && forall|j: int| i <= j < answers.len() ==> answers[j] == Lookup::Absent,
        lookup_from(count, answers, i) is Unresolved ==> answers.len() >= count && forall|j: int|
            i <= j < answers.len() ==> answers[j] == Lookup::Absent,
    decreases answers.len() - i,
{
    if i < answers.len() {
        lemma_lookup_from(count, answers, i + 1);
    }
}

} // verus!

verus! {

proof fn lemma_dedup_basics(s: Seq<Seq<char>>)
    ensures
        s.len() > 0 ==> dedup(s).len() > 0 && dedup(s).last() == s.last(),
        s.len() > 0 ==> dedup(s.drop_last()).is_prefix_of(dedup(s)),
        dedup(s).len() <= s.len(),
    decreases s.len(),
{
    if s.len() > 0 {
        lemma_dedup_basics(s.drop_last());
    }
}

proof fn lemma_dedup_has(s: Seq<Seq<char>>, k: int)
    requires
        0 <= k < s.len(),
    ensures
        exists|p: int| 0 <= p < dedup(s).len() && dedup(s)[p] == s[k],
    decreases s.len(),
{
    lemma_dedup_basics(s);
    if k == s.len() - 1 {
        assert(dedup(s)[dedup(s).len() - 1] == s[k]);
    } else {
        lemma_dedup_has(s.drop_last(), k);
        let p = choose|p: int| 0 <= p < dedup(s.drop_last()).len() && dedup(s.drop_last())[p] == s.drop_last()[k];
        assert(dedup(s)[p] == s[k]);
    }
}

/// Removing consecutive repeats keeps two different items in their order.
proof fn lemma_dedup_keeps_order(s: Seq<Seq<char>>, i: int, j: int)
    requires
        0 <= i < j < s.len(),
        s[i] != s[j],
    ensures
        exists|p: int, q: int| 0 <= p < q < dedup(s).len() && dedup(s)[p] == s[i] && dedup(s)[q] == s[j],
    decreases s.len(),
{
    lemma_dedup_basics(s);
    let r = dedup(s.drop_last());
    if j < s.len() - 1 {
        lemma_dedup_keeps_order(s.drop_last(), i, j);
        let (p, q) = choose|p: int, q: int| 0 <= p < q < r.len() && r[p] == s.drop_last()[i] && r[q] == s.drop_last()[j];
        assert(dedup(s)[p] == s[i] && dedup(s)[q] == s[j]);
    } else {
        lemma_dedup_has(s.drop_last(), i);
        let p = choose|p: int| 0 <= p < r.len() && r[p] == s.drop_last()[i];
        let q = dedup(s).len() - 1;
        assert(dedup(s)[p] == s[i]);
        assert(dedup(s)[q] == s[j]);
    }
}

/// The positions of a template's variants in one media type, within a list
/// that holds them after `a`.
proof fn lemma_variant_positions(a: Seq<Seq<char>>, v: Seq<Seq<char>>, b: Seq<Seq<char>>, req: Seq<char>, l: Seq<char>, sfx: Seq<char>)
    requires
        v == variant_ids(req, Some(l), sfx),
    ensures
        (a + v + b)[a.len() as int] == req + "."@ + l + sfx,
        (a + v + b)[a.len() + v.len() - 1] == req + sfx,
        base_language(l) matches Some(bl) ==> v.len() == 3 && (a + v + b)[a.len() as int + 1] == req + "."@ + bl + sfx,
        base_language(l) is None ==> v.len() == 2,
        a.len() + v.len() <= (a + v + b).len(),
{
}

/// When a locale is requested for an ID without extension, each media type
/// tried (the requested one, or every one when none is) tries the ID in that
/// locale, and in the locale's language, before the ID without a locale.
pub proof fn law_locale_variants_come_first(
    req: Seq<char>,
    media: Option<MediaType>,
    l: Seq<char>,
    m: MediaType,
)
    requires
        !has_extension(req),
        media is None || media == Some(m),
    ensures
        ({
            let c = candidate_ids(req, media, Some(l));
            let plain = req + suffix_of(m);
            &&& exists|i: int, j: int|
                0 <= i < j < c.len() && c[i] == req + "."@ + l + suffix_of(m) && c[j] == plain
            &&& base_language(l) matches Some(bl) ==> exists|i: int, j: int|
                0 <= i < j < c.len() && c[i] == req + "."@ + bl + suffix_of(m) && c[j] == plain
        }),
{
    reveal_strlit(".html");
    reveal_strlit(".txt");
    reveal_strlit(".json");
    reveal_strlit(".xml");
    reveal_strlit(".");
    let sfx = suffix_of(m);
    let v = variant_ids(req, Some(l), sfx);
    let vh = variant_ids(req, Some(l), ".html"@);
    let vt = variant_ids(req, Some(l), ".txt"@);
    let vj = variant_ids(req, Some(l), ".json"@);
    let vx = variant_ids(req, Some(l), ".xml"@);
    let (a, b): (Seq<Seq<char>>, Seq<Seq<char>>) = match media {
        Some(_) => (Seq::empty(), Seq::empty()),
        None => match m {
            MediaType::Html => (seq![req], vt + vj + vx),
            MediaType::Text => (seq![req] + vh, vj + vx),
            MediaType::Json => (seq![req] + vh + vt, vx),
            MediaType::Xml => (seq![req] + vh + vt + vj, Seq::empty()),
        },
    };
    assert(sfx == ".html"@ || sfx == ".txt"@ || sfx == ".json"@ || sfx == ".xml"@);
    let pre = a + v + b;
    assert(candidate_ids(req, media, Some(l)) == dedup(pre)) by {
        match media {
            Some(_) => {
                assert(pre =~= v);
            },
            None => match m {
                MediaType::Html => {
                    assert(pre =~= seq![req] + vh + vt + vj + vx);
                },
                MediaType::Text => {
                    assert(pre =~= seq![req] + vh + vt + vj + vx);
                },
                MediaType::Json => {
                    assert(pre =~= seq![req] + vh + vt + vj + vx);
                },
                MediaType::Xml => {
                    assert(pre =~= seq![req] + vh + vt + vj + vx);
                },
            },
        }
    }
    lemma_variant_positions(a, v, b, req, l, sfx);
    let loc = req + "."@ + l + sfx;
    let plain = req + sfx;
    assert(loc.len() > plain.len());
    lemma_dedup_keeps_order(pre, a.len() as int, a.len() + v.len() - 1);
    if let Some(bl) = base_language(l) {
        let based = req + "."@ + bl + sfx;
        assert(based.len() > plain.len());
        lemma_dedup_keeps_order(pre, a.len() as int + 1, a.len() + v.len() - 1);
    }
}

} // verus!

verus! {

proof fn lemma_dedup_first(s: Seq<Seq<char>>)
    requires
        s.len() > 0,
    ensures
        dedup(s).len() > 0 && dedup(s)[0] == s[0],
    decreases s.len(),
{
    lemma_dedup_basics(s);
    if s.len() > 1 {
        lemma_dedup_first(s.drop_last());
        assert(dedup(s)[0] == dedup(s.drop_last())[0]);
    } else {
        assert(dedup(s.drop_last()) =~= Seq::<Seq<char>>::empty());
    }
}

/// An ID with an extension is tried alone; without one, and with no media
/// type asked for, the bare ID is tried first; with a media type and no
/// locale, only the ID with that media type's suffix is tried.
pub proof fn law_candidates_without_variants(req: Seq<char>, media: Option<MediaType>, language: Option<Seq<char>>)
    ensures
        has_extension(req) ==> candidate_ids(req, media, language) == seq![req],
        !has_extension(req) && media is None ==> candidate_ids(req, media, language).len() > 0
            && candidate_ids(req, media, language)[0] == req,
        (!has_extension(req) && language is None && media is Some) ==> candidate_ids(req, media, language)
            == seq![req + suffix_of(media->0)],
{
    if has_extension(req) {
        lemma_dedup_first(seq![req]);
        lemma_dedup_basics(seq![req]);
    } else {
        match media {
            None => {
                let pre = seq![req] + variant_ids(req, language, ".html"@) + variant_ids(req, language, ".txt"@)
                    + variant_ids(req, language, ".json"@) + variant_ids(req, language, ".xml"@);
                lemma_dedup_first(pre);
            },
            Some(m) => {
                if language is None {
                    let pre = variant_ids(req, language, suffix_of(m));
                    assert(pre =~= seq![req + suffix_of(m)]);
                    lemma_dedup_first(pre);
                    lemma_dedup_basics(pre);
                }
            },
        }
    }
}

} // verus!
