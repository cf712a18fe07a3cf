//! The walk that the template derive makes over a template and everything it
//! includes statically, before the build: each include is normalized and
//! resolved to a file under the template root, a cycle on the stack of
//! templates being loaded is reported, a template already loaded is skipped,
//! and a new one is read, parsed, and its own includes followed in order.
//! The walk is a state machine: the build tool performs each action (a file
//! probe or read) and hands the outcome back as an event.

use vstd::prelude::*;

use crate::compiler::diagnostic::{char_index_at, column_after, line_after, Diagnostic};
use crate::compiler::grammar::parse_nodes;
use crate::compiler::outline::{include_ids, sections_of, strs_view};
use crate::compiler::parser::{analysis_errors, diag_view, diags_view, located, parse};
use crate::compiler::pratt::ParseError;
use crate::derive::{
    dependency_template, dependency_template_of, find_include_cycle, include_cycle, normalize_id,
    source_candidate_paths, source_candidates,
};
use crate::error::diagnostic_text;
use crate::escape::decimal;
use crate::paths::{escapes, is_absolute, join_with, named_segments, split_on};
use crate::text::{fits, push_str, str_eq};

verus! {

/// A template being loaded: the templates its include sections name (their
/// fragments removed), in order, and how many of them were followed so far.
pub struct LoadFrame {
    pub id: String,
    pub includes: Vec<String>,
    pub next: usize,
}

/// A template that was read and parsed, with its source.
pub struct LoadedSource {
    pub id: String,
    pub source: String,
}

/// What the walk waits for.
pub enum LoadPhase {
    /// Whether candidate file `tried` of template `id` exists.
    Probing { id: String, tried: usize },
    /// The source of the resolved template `id`.
    Reading { id: String },
    /// Nothing: the walk is over.
    Finished,
}

/// The walk: the template root as the build shows it, the stack of templates
/// being loaded, the templates loaded so far in the order they were read, the
/// errors reported so far, and what it waits for.
pub struct LoadState {
    pub root: String,
    pub frames: Vec<LoadFrame>,
    pub sources: Vec<LoadedSource>,
    pub errors: Vec<String>,
    pub phase: LoadPhase,
}

/// What the build tool does next.
pub enum LoadAction {
    /// Check whether this file, relative to the template root, exists.
    Probe(String),
    /// Read this file, relative to the template root, as UTF-8.
    Read(String),
    /// The walk is over.
    Done,
}

/// What the build tool's action gave.
pub enum LoadEvent {
    /// The probed file exists, or not.
    Probed(bool),
    /// The file's text.
    Loaded(String),
    /// The file could not be read: its path as the build shows it, and why.
    Unreadable(String, String),
}

pub struct FrameV {
    pub id: Seq<char>,
    pub includes: Seq<Seq<char>>,
    pub next: int,
}

pub enum PhaseV {
    Probing(Seq<char>, int),
    Reading(Seq<char>),
    Finished,
}

pub struct LoadStateV {
    pub root: Seq<char>,
    pub frames: Seq<FrameV>,
    pub sources: Seq<(Seq<char>, Seq<char>)>,
    pub errors: Seq<Seq<char>>,
    pub phase: PhaseV,
}

pub enum LoadActionV {
    Probe(Seq<char>),
    Read(Seq<char>),
    Done,
}

pub enum LoadEventV {
    Probed(bool),
    Loaded(Seq<char>),
    Unreadable(Seq<char>, Seq<char>),
}

pub open spec fn strings_view(v: Seq<String>) -> Seq<Seq<char>> {
    v.map_values(|s: String| s@)
}

impl View for LoadFrame {
    type V = FrameV;

    open spec fn view(&self) -> FrameV {
        FrameV { id: self.id@, includes: strings_view(self.includes@), next: self.next as int }
    }
}

pub open spec fn frames_view(v: Seq<LoadFrame>) -> Seq<FrameV> {
    v.map_values(|f: LoadFrame| f@)
}

pub open spec fn sources_view(v: Seq<LoadedSource>) -> Seq<(Seq<char>, Seq<char>)> {
    v.map_values(|s: LoadedSource| (s.id@, s.source@))
}

impl View for LoadPhase {
    type V = PhaseV;

    open spec fn view(&self) -> PhaseV {
        match self {
            LoadPhase::Probing { id, tried } => PhaseV::Probing(id@, *tried as int),
            LoadPhase::Reading { id } => PhaseV::Reading(id@),
            LoadPhase::Finished => PhaseV::Finished,
        }
    }
}

impl View for LoadState {
    type V = LoadStateV;

    open spec fn view(&self) -> LoadStateV {
        LoadStateV {
            root: self.root@,
            frames: frames_view(self.frames@),
            sources: sources_view(self.sources@),
            errors: strings_view(self.errors@),
            phase: self.phase@,
        }
    }
}

impl View for LoadAction {
    type V = LoadActionV;

    open spec fn view(&self) -> LoadActionV {
        match self {
            LoadAction::Probe(p) => LoadActionV::Probe(p@),
            LoadAction::Read(p) => LoadActionV::Read(p@),
            LoadAction::Done => LoadActionV::Done,
        }
    }
}

impl View for LoadEvent {
    type V = LoadEventV;

    open spec fn view(&self) -> LoadEventV {
        match self {
            LoadEvent::Probed(b) => LoadEventV::Probed(*b),
            LoadEvent::Loaded(s) => LoadEventV::Loaded(s@),
            LoadEvent::Unreadable(p, c) => LoadEventV::Unreadable(p@, c@),
        }
    }
}

/// The ID a derive normalizes `v` to, when it is a valid template path.
pub open spec fn normalized(v: Seq<char>) -> Option<Seq<char>> {
    if !is_absolute(v) && !escapes(v) && named_segments(split_on(v, '/')).len() > 0 {
        Some(join_with(named_segments(split_on(v, '/')), "/"@))
    } else {
        None
    }
}

pub open spec fn invalid_include_message(requested: Seq<char>) -> Seq<char> {
    "invalid template include `"@ + requested + "`"@
}

pub open spec fn not_found_message(id: Seq<char>, root: Seq<char>) -> Seq<char> {
    "template `"@ + id + "` was not found under `"@ + root + "`"@
}

pub open spec fn cycle_message(cycle: Seq<Seq<char>>) -> Seq<char> {
    "template include cycle: "@ + join_with(cycle, " -> "@)
}

pub open spec fn unreadable_message(path: Seq<char>, cause: Seq<char>) -> Seq<char> {
    "cannot read template `"@ + path + "` as UTF-8: "@ + cause
}

/// The IDs on the stack of templates being loaded.
pub open spec fn stack_ids(frames: Seq<FrameV>) -> Seq<Seq<char>> {
    frames.map_values(|f: FrameV| f.id)
}

/// The IDs of the templates loaded.
pub open spec fn loaded_ids(sources: Seq<(Seq<char>, Seq<char>)>) -> Seq<Seq<char>> {
    sources.map_values(|p: (Seq<char>, Seq<char>)| p.0)
}

/// How many includes are left to follow, counting each frame once more for
/// leaving it.
pub open spec fn pending(frames: Seq<FrameV>) -> nat
    decreases frames.len(),
{
    if frames.len() == 0 {
        0
    } else {
        let f = frames.last();
        pending(frames.drop_last()) + (if f.next <= f.includes.len() {
            (f.includes.len() - f.next) as nat
        } else {
            0nat
        }) + 1
    }
}

/// Every frame has followed at most all of its includes.
pub open spec fn frames_wf(frames: Seq<FrameV>) -> bool {
    forall|i: int| 0 <= i < frames.len() ==> 0 <= (#[trigger] frames[i]).next <= frames[i].includes.len()
}

/// The walk goes on from the top of the stack: it follows the top template's
/// next include, reporting an invalid one and going on; it leaves a template
/// whose includes were all followed; with the stack empty it is over.
pub open spec fn advance(s: LoadStateV) -> (LoadStateV, LoadActionV)
    decreases pending(s.frames),
{
    if s.frames.len() == 0 {
        (LoadStateV { phase: PhaseV::Finished, ..s }, LoadActionV::Done)
    } else {
        let n = s.frames.len() - 1;
        let f = s.frames[n];
        if 0 <= f.next < f.includes.len() {
            let requested = f.includes[f.next];
            let frames = s.frames.update(n, FrameV { next: f.next + 1, ..f });
            proof {
                assert(frames.drop_last() =~= s.frames.drop_last());
            }
            match normalized(requested) {
                Some(id) => (
                    LoadStateV { frames, phase: PhaseV::Probing(id, 0), ..s },
                    LoadActionV::Probe(source_candidates(id)[0]),
                ),
                None => advance(
                    LoadStateV { frames, errors: s.errors.push(invalid_include_message(requested)), ..s },
                ),
            }
        } else {
            advance(LoadStateV { frames: s.frames.drop_last(), ..s })
        }
    }
}

fn invalid_include_text(requested: &str) -> (r: String)
    ensures
        r@ == invalid_include_message(requested@),
{
    let mut r = "invalid template include `".to_owned();
    push_str(&mut r, requested);
    push_str(&mut r, "`");
    r
}

fn not_found_text(id: &str, root: &str) -> (r: String)
    ensures
        r@ == not_found_message(id@, root@),
{
    let mut r = "template `".to_owned();
    push_str(&mut r, id);
    push_str(&mut r, "` was not found under `");
    push_str(&mut r, root);
    push_str(&mut r, "`");
    r
}

fn unreadable_text(path: &str, cause: &str) -> (r: String)
    ensures
        r@ == unreadable_message(path@, cause@),
{
    let mut r = "cannot read template `".to_owned();
    push_str(&mut r, path);
    push_str(&mut r, "` as UTF-8: ");
    push_str(&mut r, cause);
    r
}

fn cycle_text(cycle: &Vec<String>) -> (r: String)
    ensures
        r@ == cycle_message(strings_view(cycle@)),
{
    let ghost parts = strings_view(cycle@);
    let mut r = "template include cycle: ".to_owned();
    let mut i: usize = 0;
    proof {
        assert(parts.take(0) =~= Seq::<Seq<char>>::empty());
        assert(r@ =~= "template include cycle: "@ + join_with(parts.take(0), " -> "@));
    }
    while i < cycle.len()
        invariant
            i <= cycle@.len(),
            parts == strings_view(cycle@),
            r@ == "template include cycle: "@ + join_with(parts.take(i as int), " -> "@),
        decreases cycle@.len() - i,
    {
        proof {
            assert(parts.take(i + 1).drop_last() =~= parts.take(i as int));
            assert(parts.take(i + 1).last() == cycle@[i as int]@);
        }
        if i > 0 {
            push_str(&mut r, " -> ");
        }
        push_str(&mut r, cycle[i].as_str());
        proof {
            if i == 0 {
                assert(r@ =~= "template include cycle: "@ + join_with(parts.take(1), " -> "@));
            } else {
                assert(r@ =~= "template include cycle: "@ + join_with(parts.take(i + 1), " -> "@));
            }
        }
        i = i + 1;
    }
    proof {
        assert(parts.take(parts.len() as int) =~= parts);
    }
    r
}

/// The ID that `normalize_id` gives is the one `normalized` names.
fn normalize_include(requested: &str) -> (r: Option<String>)
    ensures
        match normalized(requested@) {
            Some(id) => r matches Some(x) && x@ == id,
            None => r is None,
        },
{
    match normalize_id(requested) {
        Ok(id) => Some(id),
        Err(_) => None,
    }
}

/// The first file tried for template `id`.
fn first_candidate(id: &str) -> (r: String)
    ensures
        r@ == source_candidates(id@)[0],
{
    let cands = source_candidate_paths(id);
    proof {
        assert(source_candidates(id@).len() > 0);
        assert(cands@.map_values(|s: String| s@).len() == cands@.len());
        assert(cands@.map_values(|s: String| s@)[0] == cands@[0]@);
    }
    cands[0].clone()
}

proof fn lemma_pending_pop(frames: Seq<FrameV>)
    requires
        frames.len() > 0,
    ensures
        pending(frames.drop_last()) < pending(frames),
{
}

proof fn lemma_pending_step(frames: Seq<FrameV>, f: FrameV)
    requires
        frames.len() > 0,
        0 <= frames.last().next < frames.last().includes.len(),
        f == (FrameV { next: frames.last().next + 1, ..frames.last() }),
    ensures
        pending(frames.update(frames.len() - 1, f)) < pending(frames),
{
    let g = frames.update(frames.len() - 1, f);
    assert(g.drop_last() =~= frames.drop_last());
}

/// Goes on with the walk from the top of the stack, as `advance` says.
fn advance_exec(s: LoadState) -> (r: (LoadState, LoadAction))
    requires
        frames_wf(s@.frames),
    ensures
        (r.0@, r.1@) == advance(s@),
        frames_wf(r.0@.frames),
{
    let ghost goal = advance(s@);
    let mut st = s;
    loop
        invariant
            frames_wf(st@.frames),
            advance(st@) == goal,
            goal == advance(s@),
        decreases pending(st@.frames),
    {
        if st.frames.len() == 0 {
            let ghost cur = st@;
            st.phase = LoadPhase::Finished;
            proof {
                assert(st@ =~= (LoadStateV { phase: PhaseV::Finished, ..cur }));
                assert(advance(cur) == (st@, LoadActionV::Done));
            }
            return (st, LoadAction::Done);
        }
        let ghost before = st@;
        let ghost n = before.frames.len() - 1;
        let mut f = st.frames.pop().unwrap();
        proof {
            assert(f@ == before.frames[n]);
            assert(frames_view(st.frames@) =~= before.frames.drop_last());
        }
        if f.next < f.includes.len() {
            let requested = f.includes[f.next].clone();
            proof {
                assert(requested@ == before.frames[n].includes[before.frames[n].next]);
            }
            f.next = f.next + 1;
            st.frames.push(f);
            let ghost frames = before.frames.update(n, FrameV { next: before.frames[n].next + 1, ..before.frames[n] });
            proof {
                assert(frames_view(st.frames@) =~= frames);
                lemma_pending_step(before.frames, frames[n]);
                assert forall|i: int| 0 <= i < frames.len() implies 0 <= (#[trigger] frames[i]).next <= frames[i].includes.len() by {
                    if i < n {
                        assert(frames[i] == before.frames[i]);
                    }
                }
            }
            match normalize_include(requested.as_str()) {
                Some(id) => {
                    let first = first_candidate(id.as_str());
                    let ghost idv = id@;
                    st.phase = LoadPhase::Probing { id, tried: 0 };
                    proof {
                        assert(st@ =~= (LoadStateV { frames, phase: PhaseV::Probing(idv, 0), ..before }));
                        assert(advance(before) == (st@, LoadActionV::Probe(first@)));
                    }
                    return (st, LoadAction::Probe(first));
                },
                None => {
                    let message = invalid_include_text(requested.as_str());
                    st.errors.push(message);
                    proof {
                        assert(strings_view(st.errors@) =~= before.errors.push(invalid_include_message(requested@)));
                    }
                },
            }
        } else {
            proof {
                lemma_pending_pop(before.frames);
            }
        }
    }
}

/// The templates that the include sections of `source` name, fragments
/// removed, in order.
pub open spec fn includes_of(source: Seq<char>) -> Seq<Seq<char>> {
    include_ids(sections_of(parse_nodes(source).0)).map_values(|d: Seq<char>| dependency_template(d))
}

/// A syntax error of template `name`, as the build reports it.
pub open spec fn error_text(e: ParseError, name: Seq<char>, source: Seq<char>) -> Seq<char> {
    let before = source.take(char_index_at(source, e.span.start as int));
    name + ":"@ + decimal(line_after(before) as int) + ":"@ + decimal(column_after(before) as int) + ": "@
        + e.code@ + ": "@ + e.message
}

/// The syntax errors of template `name`, as the build reports them.
pub open spec fn parse_error_texts(name: Seq<char>, source: Seq<char>) -> Seq<Seq<char>> {
    analysis_errors(source).map_values(|e: ParseError| error_text(e, name, source))
}

/// The walk starts with the root template's ID as the derive names it.
pub open spec fn load_start_of(root: Seq<char>, requested: Seq<char>) -> (LoadStateV, LoadActionV) {
    let s = LoadStateV {
        root,
        frames: Seq::empty(),
        sources: Seq::empty(),
        errors: Seq::empty(),
        phase: PhaseV::Finished,
    };
    match normalized(requested) {
        Some(id) => (
            LoadStateV { phase: PhaseV::Probing(id, 0), ..s },
            LoadActionV::Probe(source_candidates(id)[0]),
        ),
        None => advance(LoadStateV { errors: seq![invalid_include_message(requested)], ..s }),
    }
}

/// One step of the walk. A template resolves to the first of its candidate
/// files that exists; none existing is an error. A resolved template already
/// on the stack closes a cycle, which is reported; one already loaded is
/// skipped; any other is read. A read template that parses is loaded and its
/// includes are followed next; its syntax errors, or a failed read, are
/// reported. After a report or a skip the walk goes on.
pub open spec fn load_step_of(s: LoadStateV, e: LoadEventV) -> (LoadStateV, LoadActionV) {
    match s.phase {
        PhaseV::Probing(id, tried) => {
            let cands = source_candidates(id);
            match e {
                LoadEventV::Probed(found) => if found {
                    let rid = cands[tried];
                    match include_cycle(stack_ids(s.frames), rid) {
                        Some(c) => advance(LoadStateV { errors: s.errors.push(cycle_message(c)), ..s }),
                        None => if loaded_ids(s.sources).contains(rid) {
                            advance(s)
                        } else {
                            (LoadStateV { phase: PhaseV::Reading(rid), ..s }, LoadActionV::Read(rid))
                        },
                    }
                } else if tried + 1 < cands.len() {
                    (LoadStateV { phase: PhaseV::Probing(id, tried + 1), ..s }, LoadActionV::Probe(cands[tried + 1]))
                } else {
                    advance(LoadStateV { errors: s.errors.push(not_found_message(id, s.root)), ..s })
                },
                _ => (s, LoadActionV::Done),
            }
        },
        PhaseV::Reading(rid) => match e {
            LoadEventV::Loaded(source) => if analysis_errors(source).len() == 0 {
                advance(
                    LoadStateV {
                        sources: s.sources.push((rid, source)),
                        frames: s.frames.push(FrameV { id: rid, includes: includes_of(source), next: 0 }),
                        ..s
                    },
                )
            } else {
                advance(LoadStateV { errors: s.errors + parse_error_texts(rid, source), ..s })
            },
            LoadEventV::Unreadable(path, cause) => advance(
                LoadStateV { errors: s.errors.push(unreadable_message(path, cause)), ..s },
            ),
            _ => (s, LoadActionV::Done),
        },
        PhaseV::Finished => (s, LoadActionV::Done),
    }
}

/// No template is loaded twice.
pub open spec fn distinct_ids(ids: Seq<Seq<char>>) -> bool {
    forall|i: int, j: int| 0 <= i < j < ids.len() ==> #[trigger] ids[i] != #[trigger] ids[j]
}

impl LoadStateV {
    /// The walk's invariant: frames within their includes, a probe within
    /// the candidates, the loaded templates distinct, and a template read
    /// only when it is not loaded yet.
    pub open spec fn wf(self) -> bool {
        &&& frames_wf(self.frames)
        &&& distinct_ids(loaded_ids(self.sources))
        &&& (self.phase matches PhaseV::Probing(id, t) ==> 0 <= t < source_candidates(id).len())
        &&& (self.phase matches PhaseV::Reading(rid) ==> !loaded_ids(self.sources).contains(rid))
    }

    /// The event answers what the walk waits for.
    pub open spec fn accepts(self, e: LoadEventV) -> bool {
        match self.phase {
            PhaseV::Probing(..) => e is Probed,
            PhaseV::Reading(_) => (e is Loaded || e is Unreadable) && (e matches LoadEventV::Loaded(src) ==> fits(src)),
            PhaseV::Finished => false,
        }
    }
}

/// Going on keeps the loaded templates and the invariant, and leaves the walk
/// probing the first candidate of a template or over.
proof fn lemma_advance(s: LoadStateV)
    requires
        frames_wf(s.frames),
    ensures
        advance(s).0.sources == s.sources,
        advance(s).0.root == s.root,
        frames_wf(advance(s).0.frames),
        s.errors.is_prefix_of(advance(s).0.errors),
        advance(s).0.phase matches PhaseV::Probing(id, t) ==> t == 0 && source_candidates(id).len() > 0,
        advance(s).0.phase is Reading ==> false,
        advance(s).1 is Done <==> advance(s).0.phase is Finished,
        advance(s).1 is Done ==> advance(s).0.frames.len() == 0,
        advance(s).1 is Read ==> false,
    decreases pending(s.frames),
{
    if s.frames.len() > 0 {
        let n = s.frames.len() - 1;
        let f = s.frames[n];
        if 0 <= f.next < f.includes.len() {
            let frames = s.frames.update(n, FrameV { next: f.next + 1, ..f });
            lemma_pending_step(s.frames, frames[n]);
            assert forall|i: int| 0 <= i < frames.len() implies 0 <= (#[trigger] frames[i]).next <= frames[i].includes.len() by {
                if i < n {
                    assert(frames[i] == s.frames[i]);
                }
            }
            let s2 = LoadStateV { frames, errors: s.errors.push(invalid_include_message(f.includes[f.next])), ..s };
            lemma_advance(s2);
            assert(s.errors.is_prefix_of(s2.errors));
        } else {
            lemma_pending_pop(s.frames);
            let s2 = LoadStateV { frames: s.frames.drop_last(), ..s };
            assert forall|i: int| 0 <= i < s2.frames.len() implies 0 <= (#[trigger] s2.frames[i]).next <= s2.frames[i].includes.len() by {
                assert(s2.frames[i] == s.frames[i]);
            }
            lemma_advance(s2);
        }
    }
}

/// Where the walk goes on to does not depend on what it waited for.
proof fn lemma_advance_phase(s: LoadStateV, p: PhaseV)
    ensures
        advance(LoadStateV { phase: p, ..s }) == advance(s),
    decreases pending(s.frames),
{
    let t = LoadStateV { phase: p, ..s };
    if s.frames.len() > 0 {
        let n = s.frames.len() - 1;
        let f = s.frames[n];
        if 0 <= f.next < f.includes.len() {
            let frames = s.frames.update(n, FrameV { next: f.next + 1, ..f });
            lemma_pending_step(s.frames, frames[n]);
            let s2 = LoadStateV { frames, errors: s.errors.push(invalid_include_message(f.includes[f.next])), ..s };
            lemma_advance_phase(s2, p);
            assert(LoadStateV { frames, errors: t.errors.push(invalid_include_message(f.includes[f.next])), ..t }
                == LoadStateV { phase: p, ..s2 });
        } else {
            lemma_pending_pop(s.frames);
            let s2 = LoadStateV { frames: s.frames.drop_last(), ..s };
            lemma_advance_phase(s2, p);
            assert(LoadStateV { frames: t.frames.drop_last(), ..t } == LoadStateV { phase: p, ..s2 });
        }
    }
}

/// The IDs on the stack, bottom first.
fn stack_of(frames: &Vec<LoadFrame>) -> (r: Vec<String>)
    ensures
        strings_view(r@) == stack_ids(frames_view(frames@)),
{
    let mut r: Vec<String> = Vec::new();
    let mut i: usize = 0;
    while i < frames.len()
        invariant
            i <= frames@.len(),
            strings_view(r@) == stack_ids(frames_view(frames@)).take(i as int),
        decreases frames@.len() - i,
    {
        let ghost old_r = r@;
        let x = frames[i].id.clone();
        r.push(x);
        proof {
            let want = stack_ids(frames_view(frames@));
            assert(frames_view(frames@)[i as int] == frames@[i as int]@);
            assert(want[i as int] == x@);
            assert(strings_view(r@) =~= strings_view(old_r).push(x@));
            assert(want.take(i + 1) =~= want.take(i as int).push(want[i as int]));
        }
        i = i + 1;
    }
    proof {
        assert(stack_ids(frames_view(frames@)).take(i as int) =~= stack_ids(frames_view(frames@)));
    }
    r
}

/// Whether template `id` is loaded.
fn is_loaded(sources: &Vec<LoadedSource>, id: &str) -> (r: bool)
    ensures
        r == loaded_ids(sources_view(sources@)).contains(id@),
{
    let ghost ids = loaded_ids(sources_view(sources@));
    let mut i: usize = 0;
    while i < sources.len()
        invariant
            i <= sources@.len(),
            ids == loaded_ids(sources_view(sources@)),
            forall|j: int| 0 <= j < i ==> ids[j] != id@,
        decreases sources@.len() - i,
    {
        if str_eq(sources[i].id.as_str(), id) {
            proof {
                assert(ids[i as int] == id@);
            }
            return true;
        }
        i = i + 1;
    }
    false
}

/// Candidate file `k` of template `id`.
fn candidate(id: &str, k: usize) -> (r: Option<String>)
    ensures
        0 <= k < source_candidates(id@).len() ==> (r matches Some(x) && x@ == source_candidates(id@)[k as int]),
        !(k < source_candidates(id@).len()) ==> r is None,
{
    let cands = source_candidate_paths(id);
    proof {
        assert(cands@.map_values(|s: String| s@).len() == cands@.len());
    }
    if k < cands.len() {
        proof {
            assert(cands@.map_values(|s: String| s@)[k as int] == cands@[k as int]@);
        }
        Some(cands[k].clone())
    } else {
        None
    }
}

/// The includes of a parsed template, fragments removed.
fn includes_exec(deps: &Vec<&str>) -> (r: Vec<String>)
    ensures
        strings_view(r@) == strs_view(deps@).map_values(|d: Seq<char>| dependency_template(d)),
{
    let ghost want = strs_view(deps@).map_values(|d: Seq<char>| dependency_template(d));
    let mut r: Vec<String> = Vec::new();
    let mut i: usize = 0;
    while i < deps.len()
        invariant
            i <= deps@.len(),
            want == strs_view(deps@).map_values(|d: Seq<char>| dependency_template(d)),
            strings_view(r@) == want.take(i as int),
        decreases deps@.len() - i,
    {
        let t = dependency_template_of(deps[i]);
        let ghost old_r = r@;
        r.push(t);
        proof {
            assert(strs_view(deps@)[i as int] == deps@[i as int]@);
            assert(want[i as int] == t@);
            assert(strings_view(r@) =~= strings_view(old_r).push(t@));
            assert(want.take(i + 1) =~= want.take(i as int).push(want[i as int]));
        }
        i = i + 1;
    }
    proof {
        assert(want.take(i as int) =~= want);
    }
    r
}

/// The texts of the syntax errors of template `name`.
fn error_texts(ds: &Vec<Diagnostic>, name: &str, source: &str) -> (r: Vec<String>)
    requires
        located(ds@, name@, source@),
    ensures
        strings_view(r@) == diags_view(ds@).map_values(|e: ParseError| error_text(e, name@, source@)),
{
    let ghost want = diags_view(ds@).map_values(|e: ParseError| error_text(e, name@, source@));
    let mut r: Vec<String> = Vec::new();
    let mut i: usize = 0;
    while i < ds.len()
        invariant
            i <= ds@.len(),
            located(ds@, name@, source@),
            want == diags_view(ds@).map_values(|e: ParseError| error_text(e, name@, source@)),
            strings_view(r@) == want.take(i as int),
        decreases ds@.len() - i,
    {
        let t = ds[i].text();
        proof {
            assert(crate::compiler::pratt::diagnostic_for(ds@[i as int], name@, source@, diag_view(ds@[i as int])));
            assert(diags_view(ds@)[i as int] == diag_view(ds@[i as int]));
            assert(t@ =~= want[i as int]);
        }
        let ghost old_r = r@;
        r.push(t);
        proof {
            assert(strings_view(r@) =~= strings_view(old_r).push(t@));
            assert(want.take(i + 1) =~= want.take(i as int).push(want[i as int]));
        }
        i = i + 1;
    }
    proof {
        assert(want.take(i as int) =~= want);
    }
    r
}

/// Starts the walk from the template `requested` under the template root
/// `root` (as the build shows it).
pub fn load_start(root: String, requested: &str) -> (r: (LoadState, LoadAction))
    ensures
        (r.0@, r.1@) == load_start_of(root@, requested@),
        r.0@.wf(),
{
    let mut s = LoadState {
        root,
        frames: Vec::new(),
        sources: Vec::new(),
        errors: Vec::new(),
        phase: LoadPhase::Finished,
    };
    let ghost base = s@;
    proof {
        assert(base.frames =~= Seq::<FrameV>::empty());
        assert(base.sources =~= Seq::<(Seq<char>, Seq<char>)>::empty());
        assert(base.errors =~= Seq::<Seq<char>>::empty());
    }
    match normalize_include(requested) {
        Some(id) => {
            let first = first_candidate(id.as_str());
            s.phase = LoadPhase::Probing { id, tried: 0 };
            (s, LoadAction::Probe(first))
        },
        None => {
            s.errors.push(invalid_include_text(requested));
            proof {
                assert(strings_view(s.errors@) =~= seq![invalid_include_message(requested@)]);
                lemma_advance(s@);
            }
            advance_exec(s)
        },
    }
}

/// One step of the walk: what the build tool's last action gave, and what
/// it does next.
pub fn load_step(state: LoadState, event: LoadEvent) -> (r: (LoadState, LoadAction))
    requires
        state@.wf(),
        state@.accepts(event@),
    ensures
        (r.0@, r.1@) == load_step_of(state@, event@),
        r.0@.wf(),
{
    let ghost s0 = state@;
    let mut s = state;
    let mut phase = LoadPhase::Finished;
    std::mem::swap(&mut phase, &mut s.phase);
    let ghost s1 = s@;
    proof {
        assert(s1 == LoadStateV { phase: PhaseV::Finished, ..s0 });
    }
    match phase {
        LoadPhase::Probing { id, tried } => {
            let found = match event {
                LoadEvent::Probed(b) => b,
                _ => false,
            };
            if found {
                let rid = match candidate(id.as_str(), tried) {
                    Some(c) => c,
                    None => id.clone(),
                };
                let stack = stack_of(&s.frames);
                match find_include_cycle(&stack, rid.as_str()) {
                    Some(cycle) => {
                        s.errors.push(cycle_text(&cycle));
                        proof {
                            assert(strings_view(s.errors@) =~= s0.errors.push(cycle_message(strings_view(cycle@))));
                            lemma_advance(s@);
                                lemma_advance_phase(s@, s0.phase);
                            assert(s@ == LoadStateV { phase: PhaseV::Finished, errors: s0.errors.push(cycle_message(strings_view(cycle@))), ..s0 });
                        }
                        advance_exec(s)
                    },
                    None => {
                        if is_loaded(&s.sources, rid.as_str()) {
                            proof {
                                lemma_advance(s@);
                                lemma_advance_phase(s@, s0.phase);
                            }
                            advance_exec(s)
                        } else {
                            let read = rid.clone();
                            s.phase = LoadPhase::Reading { id: rid };
                            proof {
                                assert(s@ == LoadStateV { phase: PhaseV::Reading(read@), ..s0 });
                            }
                            (s, LoadAction::Read(read))
                        }
                    },
                }
            } else {
                match candidate(id.as_str(), tried + 1) {
                    Some(next) => {
                        s.phase = LoadPhase::Probing { id, tried: tried + 1 };
                        (s, LoadAction::Probe(next))
                    },
                    None => {
                        s.errors.push(not_found_text(id.as_str(), s.root.as_str()));
                        proof {
                            assert(strings_view(s.errors@) =~= s0.errors.push(not_found_message(id@, s0.root)));
                            lemma_advance(s@);
                                lemma_advance_phase(s@, s0.phase);
                        }
                        advance_exec(s)
                    },
                }
            }
        },
        LoadPhase::Reading { id } => {
            match event {
                LoadEvent::Loaded(source) => {
                    match parse(id.as_str(), source.as_str()) {
                        Ok(template) => {
                            let deps = template.dependencies();
                            let includes = includes_exec(&deps);
                            proof {
                                assert(strings_view(includes@) == includes_of(source@));
                            }
                            let frame = LoadFrame { id: id.clone(), includes, next: 0 };
                            s.sources.push(LoadedSource { id, source });
                            s.frames.push(frame);
                            proof {
                                assert(s@.sources =~= s0.sources.push((s@.sources.last().0, s@.sources.last().1)));
                                assert(s@.frames =~= s0.frames.push(s@.frames.last()));
                                let ids0 = loaded_ids(s0.sources);
                                let ids1 = loaded_ids(s@.sources);
                                assert(ids1 =~= ids0.push(id@));
                                assert forall|i: int, j: int| 0 <= i < j < ids1.len() implies #[trigger] ids1[i] != #[trigger] ids1[j] by {
                                    if j == ids0.len() {
                                        assert(ids1[i] == ids0[i]);
                                        if ids0[i] == id@ {
                                            assert(ids0.contains(id@));
                                        }
                                    } else {
                                        assert(ids1[i] == ids0[i] && ids1[j] == ids0[j]);
                                    }
                                }
                                assert(forall|i: int| 0 <= i < s@.frames.len() ==> 0 <= (#[trigger] s@.frames[i]).next <= s@.frames[i].includes.len()) by {
                                    assert forall|i: int| 0 <= i < s@.frames.len() implies 0 <= (#[trigger] s@.frames[i]).next <= s@.frames[i].includes.len() by {
                                        if i < s0.frames.len() {
                                            assert(s@.frames[i] == s0.frames[i]);
                                        }
                                    }
                                }
                                lemma_advance(s@);
                                lemma_advance_phase(s@, s0.phase);
                            }
                            advance_exec(s)
                        },
                        Err(ds) => {
                            let texts = error_texts(&ds, id.as_str(), source.as_str());
                            let mut k: usize = 0;
                            let ghost e0 = s@.errors;
                            while k < texts.len()
                                invariant
                                    k <= texts@.len(),
                                    s@ == (LoadStateV { errors: s@.errors, ..s1 }),
                                    s@.errors == e0 + strings_view(texts@).take(k as int),
                                decreases texts@.len() - k,
                            {
                                let ghost old_e = s.errors@;
                                let x = texts[k].clone();
                                s.errors.push(x);
                                proof {
                                    assert(strings_view(texts@)[k as int] == x@);
                                    assert(strings_view(s.errors@) =~= strings_view(old_e).push(x@));
                                    assert(strings_view(texts@).take(k + 1) =~= strings_view(texts@).take(k as int).push(x@));
                                    assert(s@.errors =~= e0 + strings_view(texts@).take(k + 1));
                                }
                                k = k + 1;
                            }
                            proof {
                                assert(strings_view(texts@).take(k as int) =~= strings_view(texts@));
                                assert(strings_view(texts@) =~= parse_error_texts(id@, source@));
                                lemma_advance(s@);
                                lemma_advance_phase(s@, s0.phase);
                            }
                            advance_exec(s)
                        },
                    }
                },
                LoadEvent::Unreadable(path, cause) => {
                    s.errors.push(unreadable_text(path.as_str(), cause.as_str()));
                    proof {
                        assert(strings_view(s.errors@) =~= s0.errors.push(unreadable_message(path@, cause@)));
                        lemma_advance(s@);
                                lemma_advance_phase(s@, s0.phase);
                    }
                    advance_exec(s)
                },
                _ => (s, LoadAction::Done),
            }
        },
        LoadPhase::Finished => (s, LoadAction::Done),
    }
}

} // verus!

verus! {

/// Every step keeps the walk's invariant.
pub proof fn lemma_step_wf(s: LoadStateV, e: LoadEventV)
    requires
        s.wf(),
        s.accepts(e),
    ensures
        load_step_of(s, e).0.wf(),
        s.sources.is_prefix_of(load_step_of(s, e).0.sources),
        s.errors.is_prefix_of(load_step_of(s, e).0.errors),
        load_step_of(s, e).0.root == s.root,
{
    match s.phase {
        PhaseV::Probing(id, tried) => {
            let cands = source_candidates(id);
            if e == LoadEventV::Probed(true) {
                let rid = cands[tried];
                match include_cycle(stack_ids(s.frames), rid) {
                    Some(c) => {
                        lemma_advance(LoadStateV { errors: s.errors.push(cycle_message(c)), ..s });
                    },
                    None => {
                        lemma_advance(s);
                    },
                }
            } else {
                lemma_advance(LoadStateV { errors: s.errors.push(not_found_message(id, s.root)), ..s });
            }
        },
        PhaseV::Reading(rid) => match e {
            LoadEventV::Loaded(source) => {
                if analysis_errors(source).len() == 0 {
                    let t = LoadStateV {
                        sources: s.sources.push((rid, source)),
                        frames: s.frames.push(FrameV { id: rid, includes: includes_of(source), next: 0 }),
                        ..s
                    };
                    assert forall|i: int| 0 <= i < t.frames.len() implies 0 <= (#[trigger] t.frames[i]).next
                        <= t.frames[i].includes.len() by {
                        if i < s.frames.len() {
                            assert(t.frames[i] == s.frames[i]);
                        }
                    }
                    lemma_advance(t);
                    let ids0 = loaded_ids(s.sources);
                    let ids1 = loaded_ids(t.sources);
                    assert(ids1 =~= ids0.push(rid));
                    assert forall|i: int, j: int| 0 <= i < j < ids1.len() implies #[trigger] ids1[i] != #[trigger] ids1[j] by {
                        if j == ids0.len() {
                            assert(ids1[i] == ids0[i]);
                            if ids0[i] == rid {
                                assert(ids0.contains(rid));
                            }
                        } else {
                            assert(ids1[i] == ids0[i] && ids1[j] == ids0[j]);
                        }
                    }
                    assert(s.sources.is_prefix_of(t.sources));
                } else {
                    lemma_advance(LoadStateV { errors: s.errors + parse_error_texts(rid, source), ..s });
                }
            },
            LoadEventV::Unreadable(path, cause) => {
                lemma_advance(LoadStateV { errors: s.errors.push(unreadable_message(path, cause)), ..s });
            },
            _ => {},
        },
        PhaseV::Finished => {},
    }
}

/// Each template is read once: the walk asks to read only a template that
/// is neither loaded nor being loaded, it loads at most the template it
/// read, and the templates it has loaded stay distinct.
pub proof fn law_each_template_read_once(s: LoadStateV, e: LoadEventV)
    requires
        s.wf(),
        s.accepts(e),
    ensures
        distinct_ids(loaded_ids(load_step_of(s, e).0.sources)),
        load_step_of(s, e).1 matches LoadActionV::Read(rid) ==> !loaded_ids(s.sources).contains(rid)
            && !stack_ids(s.frames).contains(rid) && load_step_of(s, e).0.sources == s.sources,
        load_step_of(s, e).0.sources == s.sources || (s.phase matches PhaseV::Reading(rid)
            && e is Loaded && load_step_of(s, e).0.sources.len() == s.sources.len() + 1
            && load_step_of(s, e).0.sources.last().0 == rid),
{
    lemma_step_wf(s, e);
    match s.phase {
        PhaseV::Probing(id, tried) => {
            let rid = source_candidates(id)[tried];
            if include_cycle(stack_ids(s.frames), rid) is None {
                crate::derive::lemma_no_cycle_not_on_stack(stack_ids(s.frames), rid);
            }
            if e == LoadEventV::Probed(true) {
                match include_cycle(stack_ids(s.frames), rid) {
                    Some(c) => lemma_advance(LoadStateV { errors: s.errors.push(cycle_message(c)), ..s }),
                    None => lemma_advance(s),
                }
            } else {
                lemma_advance(LoadStateV { errors: s.errors.push(not_found_message(id, s.root)), ..s });
            }
        },
        PhaseV::Reading(rid) => match e {
            LoadEventV::Loaded(source) => {
                if analysis_errors(source).len() == 0 {
                    let t = LoadStateV {
                        sources: s.sources.push((rid, source)),
                        frames: s.frames.push(FrameV { id: rid, includes: includes_of(source), next: 0 }),
                        ..s
                    };
                    assert forall|i: int| 0 <= i < t.frames.len() implies 0 <= (#[trigger] t.frames[i]).next
                        <= t.frames[i].includes.len() by {
                        if i < s.frames.len() {
                            assert(t.frames[i] == s.frames[i]);
                        }
                    }
                    lemma_advance(t);
                } else {
                    lemma_advance(LoadStateV { errors: s.errors + parse_error_texts(rid, source), ..s });
                }
            },
            LoadEventV::Unreadable(path, cause) => {
                lemma_advance(LoadStateV { errors: s.errors.push(unreadable_message(path, cause)), ..s });
            },
            _ => {},
        },
        PhaseV::Finished => {},
    }
}

/// Every include cycle the walk meets is reported: a template that resolves
/// to one already on the stack adds the cycle, from its first occurrence on
/// the stack back to it, to the errors, and is not read again.
pub proof fn law_cycles_are_reported(s: LoadStateV, id: Seq<char>, tried: int, c: Seq<Seq<char>>)
    requires
        s.wf(),
        s.phase == PhaseV::Probing(id, tried),
        include_cycle(stack_ids(s.frames), source_candidates(id)[tried]) == Some(c),
    ensures
        s.errors.push(cycle_message(c)).is_prefix_of(load_step_of(s, LoadEventV::Probed(true)).0.errors),
        !(load_step_of(s, LoadEventV::Probed(true)).1 is Read),
        c.first() == source_candidates(id)[tried] && c.last() == source_candidates(id)[tried],
{
    lemma_advance(LoadStateV { errors: s.errors.push(cycle_message(c)), ..s });
    crate::derive::lemma_cycle_ends(stack_ids(s.frames), source_candidates(id)[tried]);
}

/// The walk is over only once the stack of templates being loaded is empty:
/// every template it loaded had all of its includes followed.
pub proof fn law_done_only_when_stack_empty(s: LoadStateV, e: LoadEventV)
    requires
        s.wf(),
        s.accepts(e),
    ensures
        load_step_of(s, e).1 is Done ==> load_step_of(s, e).0.frames.len() == 0 && load_step_of(s, e).0.phase
            is Finished,
{
    match s.phase {
        PhaseV::Probing(id, tried) => {
            let rid = source_candidates(id)[tried];
            if e == LoadEventV::Probed(true) {
                match include_cycle(stack_ids(s.frames), rid) {
                    Some(c) => lemma_advance(LoadStateV { errors: s.errors.push(cycle_message(c)), ..s }),
                    None => lemma_advance(s),
                }
            } else {
                lemma_advance(LoadStateV { errors: s.errors.push(not_found_message(id, s.root)), ..s });
            }
        },
        PhaseV::Reading(rid) => match e {
            LoadEventV::Loaded(source) => {
                if analysis_errors(source).len() == 0 {
                    let t = LoadStateV {
                        sources: s.sources.push((rid, source)),
                        frames: s.frames.push(FrameV { id: rid, includes: includes_of(source), next: 0 }),
                        ..s
                    };
                    assert forall|i: int| 0 <= i < t.frames.len() implies 0 <= (#[trigger] t.frames[i]).next
                        <= t.frames[i].includes.len() by {
                        if i < s.frames.len() {
                            assert(t.frames[i] == s.frames[i]);
                        }
                    }
                    lemma_advance(t);
                } else {
                    lemma_advance(LoadStateV { errors: s.errors + parse_error_texts(rid, source), ..s });
                }
            },
            LoadEventV::Unreadable(path, cause) => {
                lemma_advance(LoadStateV { errors: s.errors.push(unreadable_message(path, cause)), ..s });
            },
            _ => {},
        },
        PhaseV::Finished => {},
    }
}

} // verus!

verus! {

// ---------------------------------------------------------------------------
// The whole walk against a template root
// ---------------------------------------------------------------------------

/// The first of `cands[i..]` that exists under the root.
pub open spec fn first_existing(cands: Seq<Seq<char>>, present: spec_fn(Seq<char>) -> bool, i: int) -> Option<Seq<char>>
    decreases cands.len() - i,
{
    if i < 0 || i >= cands.len() {
        None
    } else if present(cands[i]) {
        Some(cands[i])
    } else {
        first_existing(cands, present, i + 1)
    }
}

/// The template that an include text names under the root: its normalized ID
/// resolved to the first candidate file that exists.
pub open spec fn target(present: spec_fn(Seq<char>) -> bool, d: Seq<char>) -> Option<Seq<char>> {
    match normalized(d) {
        Some(id) => first_existing(source_candidates(id), present, 0),
        None => None,
    }
}

/// The file `rid` reads and parses.
pub open spec fn parses(contents: spec_fn(Seq<char>) -> Option<Seq<char>>, rid: Seq<char>) -> bool {
    contents(rid) matches Some(src) && analysis_errors(src).len() == 0
}

/// An include text is dealt with: it names no template, or a loaded one, or
/// one that cannot be read or parsed.
pub open spec fn handled(
    present: spec_fn(Seq<char>) -> bool,
    contents: spec_fn(Seq<char>) -> Option<Seq<char>>,
    loaded: Seq<Seq<char>>,
    d: Seq<char>,
) -> bool {
    match target(present, d) {
        None => true,
        Some(r) => loaded.contains(r) || !parses(contents, r),
    }
}

/// The event is what the root gives for the action: whether the probed file
/// exists; the text of the read file, or a failure where it cannot be read.
pub open spec fn answers(
    present: spec_fn(Seq<char>) -> bool,
    contents: spec_fn(Seq<char>) -> Option<Seq<char>>,
    a: LoadActionV,
    e: LoadEventV,
) -> bool {
    match a {
        LoadActionV::Probe(p) => e == LoadEventV::Probed(present(p)),
        LoadActionV::Read(p) => match contents(p) {
            Some(src) => e == LoadEventV::Loaded(src),
            None => e is Unreadable,
        },
        LoadActionV::Done => false,
    }
}

/// The walk waits on an include: the root one or the top template's last.
pub open spec fn in_flight(s: LoadStateV) -> bool {
    s.phase is Probing || s.phase is Reading
}

/// The include text being resolved while the walk waits.
pub open spec fn request_of(s: LoadStateV, root_request: Seq<char>) -> Seq<char> {
    if s.frames.len() == 0 {
        root_request
    } else {
        s.frames.last().includes[s.frames.last().next - 1]
    }
}

/// How many includes of frame `k` were dealt with.
pub open spec fn followed(s: LoadStateV, k: int) -> int {
    if in_flight(s) && k == s.frames.len() - 1 {
        s.frames[k].next - 1
    } else {
        s.frames[k].next
    }
}

/// The invariant of a walk against a root: loaded templates are what the
/// root holds, templates on the stack are loaded, and every include followed
/// so far, of a template left or on the stack, and the root request once
/// answered, is dealt with; an include being resolved is the one the walk
/// waits on.
pub open spec fn walk_inv(
    present: spec_fn(Seq<char>) -> bool,
    contents: spec_fn(Seq<char>) -> Option<Seq<char>>,
    root_request: Seq<char>,
    s: LoadStateV,
) -> bool {
    let loaded = loaded_ids(s.sources);
    &&& s.wf()
    &&& forall|k: int|
        0 <= k < s.frames.len() ==> exists|i: int|
            0 <= i < s.sources.len() && #[trigger] s.sources[i].0 == (#[trigger] s.frames[k]).id && s.frames[k].includes
                == includes_of(s.sources[i].1)
    &&& forall|i: int|
        0 <= i < s.sources.len() ==> contents((#[trigger] s.sources[i]).0) == Some(s.sources[i].1)
            && analysis_errors(s.sources[i].1).len() == 0
    &&& forall|i: int, j: int|
        0 <= i < s.sources.len() && !stack_ids(s.frames).contains((#[trigger] s.sources[i]).0) && 0 <= j
            < includes_of(s.sources[i].1).len() ==> handled(present, contents, loaded, #[trigger] includes_of(s.sources[i].1)[j])
    &&& forall|k: int, j: int|
        0 <= k < s.frames.len() && 0 <= j < followed(s, k) ==> handled(present, contents, loaded, #[trigger] s.frames[k].includes[j])
    &&& in_flight(s) && s.frames.len() > 0 ==> s.frames.last().next >= 1
    &&& s.phase matches PhaseV::Probing(id, t) ==> normalized(request_of(s, root_request)) == Some(id) && forall|c: int|
        0 <= c < t ==> !present(#[trigger] source_candidates(id)[c])
    &&& s.phase matches PhaseV::Reading(rid) ==> target(present, request_of(s, root_request)) == Some(rid)
    &&& !(in_flight(s) && s.frames.len() == 0) ==> handled(present, contents, loaded, root_request)
}

} // verus!

verus! {

proof fn lemma_handled_grows(
    present: spec_fn(Seq<char>) -> bool,
    contents: spec_fn(Seq<char>) -> Option<Seq<char>>,
    l1: Seq<Seq<char>>,
    l2: Seq<Seq<char>>,
    d: Seq<char>,
)
    requires
        handled(present, contents, l1, d),
        forall|x: Seq<char>| l1.contains(x) ==> #[trigger] l2.contains(x),
    ensures
        handled(present, contents, l2, d),
{
    if let Some(r) = target(present, d) {
        if l1.contains(r) {
            assert(l2.contains(r));
        }
    }
}

proof fn lemma_none_existing(cands: Seq<Seq<char>>, present: spec_fn(Seq<char>) -> bool, i: int)
    requires
        0 <= i,
        forall|c: int| i <= c < cands.len() ==> !present(#[trigger] cands[c]),
    ensures
        first_existing(cands, present, i) is None,
    decreases cands.len() - i,
{
    if i < cands.len() {
        lemma_none_existing(cands, present, i + 1);
    }
}

proof fn lemma_existing_at(cands: Seq<Seq<char>>, present: spec_fn(Seq<char>) -> bool, i: int, t: int)
    requires
        0 <= i <= t < cands.len(),
        forall|c: int| i <= c < t ==> !present(#[trigger] cands[c]),
        present(cands[t]),
    ensures
        first_existing(cands, present, i) == Some(cands[t]),
    decreases t - i,
{
    if i < t {
        lemma_existing_at(cands, present, i + 1, t);
    }
}

/// Going on from a walk that waits on nothing keeps the invariant.
proof fn lemma_advance_inv(
    present: spec_fn(Seq<char>) -> bool,
    contents: spec_fn(Seq<char>) -> Option<Seq<char>>,
    root_request: Seq<char>,
    s: LoadStateV,
)
    requires
        s.phase is Finished,
        walk_inv(present, contents, root_request, s),
    ensures
        walk_inv(present, contents, root_request, advance(s).0),
    decreases pending(s.frames),
{
    let loaded = loaded_ids(s.sources);
    if s.frames.len() > 0 {
        let n = s.frames.len() - 1;
        let f = s.frames[n];
        if 0 <= f.next < f.includes.len() {
            let requested = f.includes[f.next];
            let frames = s.frames.update(n, FrameV { next: f.next + 1, ..f });
            lemma_pending_step(s.frames, frames[n]);
            assert(stack_ids(frames) =~= stack_ids(s.frames)) by {
                assert forall|k: int| 0 <= k < frames.len() implies frames[k].id == s.frames[k].id by {}
            }
            match normalized(requested) {
                Some(id) => {
                    let t = LoadStateV { frames, phase: PhaseV::Probing(id, 0), ..s };
                    assert forall|k: int| 0 <= k < t.frames.len() implies exists|i: int|
                        0 <= i < t.sources.len() && #[trigger] t.sources[i].0 == (#[trigger] t.frames[k]).id
                            && t.frames[k].includes == includes_of(t.sources[i].1) by {
                        assert(t.frames[k].id == s.frames[k].id && t.frames[k].includes == s.frames[k].includes);
                        let i = choose|i: int| 0 <= i < s.sources.len() && #[trigger] s.sources[i].0 == (#[trigger] s.frames[k]).id
                            && s.frames[k].includes == includes_of(s.sources[i].1);
                        assert(t.sources[i].0 == t.frames[k].id);
                    }
                    assert forall|k: int, j: int| 0 <= k < t.frames.len() && 0 <= j < followed(t, k) implies handled(
                        present,
                        contents,
                        loaded_ids(t.sources),
                        #[trigger] t.frames[k].includes[j],
                    ) by {
                        assert(followed(t, k) == followed(s, k));
                        assert(t.frames[k].includes == s.frames[k].includes);
                    }
                    assert(request_of(t, root_request) == requested);
                    assert forall|k: int| 0 <= k < t.frames.len() implies 0 <= (#[trigger] t.frames[k]).next
                        <= t.frames[k].includes.len() by {
                        if k < n {
                            assert(t.frames[k] == s.frames[k]);
                        }
                    }
                },
                None => {
                    let t = LoadStateV { frames, errors: s.errors.push(invalid_include_message(requested)), ..s };
                    assert forall|k: int| 0 <= k < t.frames.len() implies exists|i: int|
                        0 <= i < t.sources.len() && #[trigger] t.sources[i].0 == (#[trigger] t.frames[k]).id
                            && t.frames[k].includes == includes_of(t.sources[i].1) by {
                        assert(t.frames[k].id == s.frames[k].id && t.frames[k].includes == s.frames[k].includes);
                        let i = choose|i: int| 0 <= i < s.sources.len() && #[trigger] s.sources[i].0 == (#[trigger] s.frames[k]).id
                            && s.frames[k].includes == includes_of(s.sources[i].1);
                        assert(t.sources[i].0 == t.frames[k].id);
                    }
                    assert forall|k: int, j: int| 0 <= k < t.frames.len() && 0 <= j < followed(t, k) implies handled(
                        present,
                        contents,
                        loaded_ids(t.sources),
                        #[trigger] t.frames[k].includes[j],
                    ) by {
                        assert(t.frames[k].includes == s.frames[k].includes);
                        if k == n && j == f.next {
                            assert(target(present, requested) is None);
                        } else {
                            assert(j < followed(s, k));
                        }
                    }
                    assert forall|k: int| 0 <= k < t.frames.len() implies 0 <= (#[trigger] t.frames[k]).next
                        <= t.frames[k].includes.len() by {
                        if k < n {
                            assert(t.frames[k] == s.frames[k]);
                        }
                    }
                    lemma_advance_inv(present, contents, root_request, t);
                },
            }
        } else {
            lemma_pending_pop(s.frames);
            let t = LoadStateV { frames: s.frames.drop_last(), ..s };
            assert forall|k: int| 0 <= k < t.frames.len() implies exists|i: int|
                0 <= i < t.sources.len() && #[trigger] t.sources[i].0 == (#[trigger] t.frames[k]).id
                    && t.frames[k].includes == includes_of(t.sources[i].1) by {
                assert(t.frames[k] == s.frames[k]);
                let i = choose|i: int| 0 <= i < s.sources.len() && #[trigger] s.sources[i].0 == (#[trigger] s.frames[k]).id
                    && s.frames[k].includes == includes_of(s.sources[i].1);
                assert(t.sources[i].0 == t.frames[k].id);
            }
            assert forall|k: int, j: int| 0 <= k < t.frames.len() && 0 <= j < followed(t, k) implies handled(
                present,
                contents,
                loaded_ids(t.sources),
                #[trigger] t.frames[k].includes[j],
            ) by {
                assert(t.frames[k] == s.frames[k]);
                assert(followed(t, k) == followed(s, k));
            }
            let top = choose|i: int| 0 <= i < s.sources.len() && #[trigger] s.sources[i].0 == (#[trigger] s.frames[n]).id
                && s.frames[n].includes == includes_of(s.sources[i].1);
            assert(0 <= f.next <= f.includes.len());
            assert forall|i: int, j: int|
                0 <= i < t.sources.len() && !stack_ids(t.frames).contains((#[trigger] t.sources[i]).0) && 0 <= j
                    < includes_of(t.sources[i].1).len() implies handled(present, contents, loaded_ids(t.sources), #[trigger] includes_of(t.sources[i].1)[j]) by {
                if stack_ids(s.frames).contains(s.sources[i].0) {
                    let k = choose|k: int| 0 <= k < stack_ids(s.frames).len() && stack_ids(s.frames)[k] == s.sources[i].0;
                    if k < n {
                        assert(stack_ids(t.frames)[k] == s.sources[i].0);
                    } else {
                        assert(loaded[i] == loaded[top]);
                        assert(i == top);
                        assert(j < followed(s, n));
                        assert(includes_of(s.sources[i].1)[j] == s.frames[n].includes[j]);
                    }
                }
            }
            assert forall|k: int| 0 <= k < t.frames.len() implies 0 <= (#[trigger] t.frames[k]).next
                <= t.frames[k].includes.len() by {
                assert(t.frames[k] == s.frames[k]);
            }
            lemma_advance_inv(present, contents, root_request, t);
        }
    }
}

} // verus!

verus! {

/// The action is the one the walk's state waits on.
pub open spec fn waits_for(s: LoadStateV, a: LoadActionV) -> bool {
    match s.phase {
        PhaseV::Probing(id, t) => a == LoadActionV::Probe(source_candidates(id)[t]),
        PhaseV::Reading(rid) => a == LoadActionV::Read(rid),
        PhaseV::Finished => a is Done && s.frames.len() == 0,
    }
}

proof fn lemma_advance_waits(s: LoadStateV)
    requires
        frames_wf(s.frames),
    ensures
        waits_for(advance(s).0, advance(s).1),
    decreases pending(s.frames),
{
    if s.frames.len() > 0 {
        let n = s.frames.len() - 1;
        let f = s.frames[n];
        if 0 <= f.next < f.includes.len() {
            let frames = s.frames.update(n, FrameV { next: f.next + 1, ..f });
            lemma_pending_step(s.frames, frames[n]);
            assert forall|i: int| 0 <= i < frames.len() implies 0 <= (#[trigger] frames[i]).next <= frames[i].includes.len() by {
                if i < n {
                    assert(frames[i] == s.frames[i]);
                }
            }
            lemma_advance_waits(LoadStateV { frames, errors: s.errors.push(invalid_include_message(f.includes[f.next])), ..s });
        } else {
            lemma_pending_pop(s.frames);
            let s2 = LoadStateV { frames: s.frames.drop_last(), ..s };
            assert forall|i: int| 0 <= i < s2.frames.len() implies 0 <= (#[trigger] s2.frames[i]).next <= s2.frames[i].includes.len() by {
                assert(s2.frames[i] == s.frames[i]);
            }
            lemma_advance_waits(s2);
        }
    }
}

/// Going on after an answer: the invariant of the state with the answer
/// taken in carries over to where the walk goes on.
proof fn lemma_go_on(
    present: spec_fn(Seq<char>) -> bool,
    contents: spec_fn(Seq<char>) -> Option<Seq<char>>,
    root_request: Seq<char>,
    s: LoadStateV,
)
    requires
        walk_inv(present, contents, root_request, LoadStateV { phase: PhaseV::Finished, ..s }),
    ensures
        walk_inv(present, contents, root_request, advance(s).0),
        waits_for(advance(s).0, advance(s).1),
{
    let f = LoadStateV { phase: PhaseV::Finished, ..s };
    lemma_advance_phase(f, s.phase);
    assert(LoadStateV { phase: s.phase, ..f } == s);
    lemma_advance_inv(present, contents, root_request, f);
    lemma_advance_waits(f);
}

/// The walk starts in its invariant.
pub proof fn law_walk_invariant_at_start(
    present: spec_fn(Seq<char>) -> bool,
    contents: spec_fn(Seq<char>) -> Option<Seq<char>>,
    root: Seq<char>,
    root_request: Seq<char>,
)
    ensures
        walk_inv(present, contents, root_request, load_start_of(root, root_request).0),
        waits_for(load_start_of(root, root_request).0, load_start_of(root, root_request).1),
{
    let s = LoadStateV {
        root,
        frames: Seq::empty(),
        sources: Seq::empty(),
        errors: Seq::empty(),
        phase: PhaseV::Finished,
    };
    match normalized(root_request) {
        Some(id) => {},
        None => {
            let t = LoadStateV { errors: seq![invalid_include_message(root_request)], ..s };
            lemma_go_on(present, contents, root_request, t);
        },
    }
}

} // verus!

verus! {

/// Every step answered by the root keeps the invariant, and leaves the walk
/// waiting on the action it returns.
pub proof fn law_walk_invariant_kept_by_each_step(
    present: spec_fn(Seq<char>) -> bool,
    contents: spec_fn(Seq<char>) -> Option<Seq<char>>,
    root_request: Seq<char>,
    s: LoadStateV,
    a: LoadActionV,
    e: LoadEventV,
)
    requires
        walk_inv(present, contents, root_request, s),
        waits_for(s, a),
        answers(present, contents, a, e),
        forall|p: Seq<char>| #[trigger] contents(p) matches Some(src) ==> fits(src),
    ensures
        s.accepts(e),
        walk_inv(present, contents, root_request, load_step_of(s, e).0),
        waits_for(load_step_of(s, e).0, load_step_of(s, e).1),
{
    let loaded = loaded_ids(s.sources);
    let fin = LoadStateV { phase: PhaseV::Finished, ..s };
    let r = request_of(s, root_request);
    // What holds of the finished state once the request `r` is dealt with.
    assert(forall|k: int, j: int| 0 <= k < s.frames.len() && 0 <= j < followed(s, k) ==> #[trigger] s.frames[k].includes[j] == fin.frames[k].includes[j]);
    match s.phase {
        PhaseV::Probing(id, t) => {
            let cands = source_candidates(id);
            assert(normalized(r) == Some(id));
            if e == LoadEventV::Probed(true) {
                let rid = cands[t];
                lemma_existing_at(cands, present, 0, t);
                assert(target(present, r) == Some(rid));
                match include_cycle(stack_ids(s.frames), rid) {
                    Some(c) => {
                        crate::derive::lemma_cycle_ends(stack_ids(s.frames), rid);
                        crate::derive::lemma_cycle_on_stack(stack_ids(s.frames), rid);
                        let k = choose|k: int| 0 <= k < s.frames.len() && stack_ids(s.frames)[k] == rid;
                        assert(s.frames[k].id == rid);
                        let i = choose|i: int| 0 <= i < s.sources.len() && #[trigger] s.sources[i].0 == (#[trigger] s.frames[k]).id
                            && s.frames[k].includes == includes_of(s.sources[i].1);
                        assert(loaded[i] == rid);
                        assert(handled(present, contents, loaded, r));
                        let t2 = LoadStateV { errors: s.errors.push(cycle_message(c)), ..s };
                        lemma_done_with(present, contents, root_request, t2);
                        lemma_go_on(present, contents, root_request, t2);
                    },
                    None => {
                        if loaded.contains(rid) {
                            assert(handled(present, contents, loaded, r));
                            lemma_done_with(present, contents, root_request, s);
                            lemma_go_on(present, contents, root_request, s);
                        } else {
                            let t2 = LoadStateV { phase: PhaseV::Reading(rid), ..s };
                            assert(request_of(t2, root_request) == r);
                        }
                    },
                }
            } else if t + 1 < cands.len() {
                let t2 = LoadStateV { phase: PhaseV::Probing(id, t + 1), ..s };
                assert(request_of(t2, root_request) == r);
                assert forall|c: int| 0 <= c < t + 1 implies !present(#[trigger] cands[c]) by {}
            } else {
                assert forall|c: int| 0 <= c < cands.len() implies !present(#[trigger] cands[c]) by {}
                lemma_none_existing(cands, present, 0);
                assert(target(present, r) is None);
                let t2 = LoadStateV { errors: s.errors.push(not_found_message(id, s.root)), ..s };
                lemma_done_with(present, contents, root_request, t2);
                lemma_go_on(present, contents, root_request, t2);
            }
        },
        PhaseV::Reading(rid) => {
            assert(target(present, r) == Some(rid));
            match e {
                LoadEventV::Loaded(source) => {
                    assert(contents(rid) == Some(source));
                    if analysis_errors(source).len() == 0 {
                        let t2 = LoadStateV {
                            sources: s.sources.push((rid, source)),
                            frames: s.frames.push(FrameV { id: rid, includes: includes_of(source), next: 0 }),
                            ..s
                        };
                        lemma_loaded_step(present, contents, root_request, s, rid, source);
                        lemma_go_on(present, contents, root_request, t2);
                    } else {
                        assert(!parses(contents, rid));
                        let t2 = LoadStateV { errors: s.errors + parse_error_texts(rid, source), ..s };
                        lemma_done_with(present, contents, root_request, t2);
                        lemma_go_on(present, contents, root_request, t2);
                    }
                },
                LoadEventV::Unreadable(path, cause) => {
                    assert(contents(rid) is None);
                    assert(!parses(contents, rid));
                    let t2 = LoadStateV { errors: s.errors.push(unreadable_message(path, cause)), ..s };
                    lemma_done_with(present, contents, root_request, t2);
                    lemma_go_on(present, contents, root_request, t2);
                },
                _ => {},
            }
        },
        PhaseV::Finished => {},
    }
}

/// Once the request the walk waits on is dealt with, the state with nothing
/// waited on is in the invariant.
proof fn lemma_done_with(
    present: spec_fn(Seq<char>) -> bool,
    contents: spec_fn(Seq<char>) -> Option<Seq<char>>,
    root_request: Seq<char>,
    s: LoadStateV,
)
    requires
        in_flight(s),
        walk_inv(present, contents, root_request, s),
        handled(present, contents, loaded_ids(s.sources), request_of(s, root_request)),
    ensures
        walk_inv(present, contents, root_request, LoadStateV { phase: PhaseV::Finished, ..s }),
{
    let f = LoadStateV { phase: PhaseV::Finished, ..s };
    assert forall|k: int, j: int| 0 <= k < f.frames.len() && 0 <= j < followed(f, k) implies handled(
        present,
        contents,
        loaded_ids(f.sources),
        #[trigger] f.frames[k].includes[j],
    ) by {
        if !(j < followed(s, k)) {
            assert(k == s.frames.len() - 1 && j == s.frames[k].next - 1);
        }
    }
}

/// Loading a template that parses keeps the invariant once the walk goes on.
proof fn lemma_loaded_step(
    present: spec_fn(Seq<char>) -> bool,
    contents: spec_fn(Seq<char>) -> Option<Seq<char>>,
    root_request: Seq<char>,
    s: LoadStateV,
    rid: Seq<char>,
    source: Seq<char>,
)
    requires
        walk_inv(present, contents, root_request, s),
        s.phase == PhaseV::Reading(rid),
        target(present, request_of(s, root_request)) == Some(rid),
        contents(rid) == Some(source),
        analysis_errors(source).len() == 0,
    ensures
        walk_inv(
            present,
            contents,
            root_request,
            LoadStateV {
                sources: s.sources.push((rid, source)),
                frames: s.frames.push(FrameV { id: rid, includes: includes_of(source), next: 0 }),
                phase: PhaseV::Finished,
                ..s
            },
        ),
{
    let loaded = loaded_ids(s.sources);
    let t = LoadStateV {
        sources: s.sources.push((rid, source)),
        frames: s.frames.push(FrameV { id: rid, includes: includes_of(source), next: 0 }),
        phase: PhaseV::Finished,
        ..s
    };
    let l2 = loaded_ids(t.sources);
    assert(l2 =~= loaded.push(rid));
    assert forall|x: Seq<char>| loaded.contains(x) implies #[trigger] l2.contains(x) by {
        let i = choose|i: int| 0 <= i < loaded.len() && loaded[i] == x;
        assert(l2[i] == x);
    }
    assert(l2.contains(rid)) by {
        assert(l2[loaded.len() as int] == rid);
    }
    assert(stack_ids(t.frames) =~= stack_ids(s.frames).push(rid));
    // wf
    assert forall|i: int, j: int| 0 <= i < j < l2.len() implies #[trigger] l2[i] != #[trigger] l2[j] by {
        if j == loaded.len() {
            assert(l2[i] == loaded[i]);
            if loaded[i] == rid {
                assert(loaded.contains(rid));
            }
        } else {
            assert(l2[i] == loaded[i] && l2[j] == loaded[j]);
        }
    }
    assert forall|k: int| 0 <= k < t.frames.len() implies 0 <= (#[trigger] t.frames[k]).next
        <= t.frames[k].includes.len() by {
        if k < s.frames.len() {
            assert(t.frames[k] == s.frames[k]);
        }
    }
    // frames are loaded
    assert forall|k: int| 0 <= k < t.frames.len() implies exists|i: int|
        0 <= i < t.sources.len() && #[trigger] t.sources[i].0 == (#[trigger] t.frames[k]).id
            && t.frames[k].includes == includes_of(t.sources[i].1) by {
        if k < s.frames.len() {
            assert(t.frames[k] == s.frames[k]);
            let i = choose|i: int| 0 <= i < s.sources.len() && #[trigger] s.sources[i].0 == (#[trigger] s.frames[k]).id
                && s.frames[k].includes == includes_of(s.sources[i].1);
            assert(t.sources[i] == s.sources[i]);
        } else {
            assert(t.sources[s.sources.len() as int].0 == t.frames[k].id);
        }
    }
    assert forall|i: int| 0 <= i < t.sources.len() implies contents((#[trigger] t.sources[i]).0) == Some(t.sources[i].1)
        && analysis_errors(t.sources[i].1).len() == 0 by {
        if i < s.sources.len() {
            assert(t.sources[i] == s.sources[i]);
        }
    }
    assert forall|i: int, j: int|
        0 <= i < t.sources.len() && !stack_ids(t.frames).contains((#[trigger] t.sources[i]).0) && 0 <= j
            < includes_of(t.sources[i].1).len() implies handled(present, contents, l2, #[trigger] includes_of(t.sources[i].1)[j]) by {
        if i == s.sources.len() {
            assert(stack_ids(t.frames)[s.frames.len() as int] == rid);
        } else {
            assert(t.sources[i] == s.sources[i]);
            if stack_ids(s.frames).contains(s.sources[i].0) {
                let k = choose|k: int| 0 <= k < stack_ids(s.frames).len() && stack_ids(s.frames)[k] == s.sources[i].0;
                assert(stack_ids(t.frames)[k] == s.sources[i].0);
            }
            lemma_handled_grows(present, contents, loaded, l2, includes_of(t.sources[i].1)[j]);
        }
    }
    assert forall|k: int, j: int| 0 <= k < t.frames.len() && 0 <= j < followed(t, k) implies handled(
        present,
        contents,
        l2,
        #[trigger] t.frames[k].includes[j],
    ) by {
        if k < s.frames.len() {
            assert(t.frames[k] == s.frames[k]);
            if j < followed(s, k) {
                lemma_handled_grows(present, contents, loaded, l2, t.frames[k].includes[j]);
            } else {
                assert(k == s.frames.len() - 1 && j == s.frames[k].next - 1);
                assert(request_of(s, root_request) == t.frames[k].includes[j]);
            }
        }
    }
    if s.frames.len() == 0 {
        assert(request_of(s, root_request) == root_request);
    } else {
        lemma_handled_grows(present, contents, loaded, l2, root_request);
    }
}

} // verus!

verus! {

/// `p` is a chain of templates from the root request: the root request names
/// `p[0]`, every template on it reads and parses, and each includes the next.
pub open spec fn include_chain(
    present: spec_fn(Seq<char>) -> bool,
    contents: spec_fn(Seq<char>) -> Option<Seq<char>>,
    root_request: Seq<char>,
    p: Seq<Seq<char>>,
) -> bool {
    &&& p.len() >= 1
    &&& target(present, root_request) == Some(p[0])
    &&& forall|i: int| 0 <= i < p.len() ==> parses(contents, #[trigger] p[i])
    &&& forall|i: int| 0 <= i < p.len() - 1 ==> includes_template(present, contents, #[trigger] p[i], p[i + 1])
}

/// Template `a` has an include section that names template `b`.
pub open spec fn includes_template(
    present: spec_fn(Seq<char>) -> bool,
    contents: spec_fn(Seq<char>) -> Option<Seq<char>>,
    a: Seq<char>,
    b: Seq<char>,
) -> bool {
    exists|j: int|
        0 <= j < includes_of(contents(a)->0).len() && target(present, #[trigger] includes_of(contents(a)->0)[j])
            == Some(b)
}

/// The walk misses nothing and reads nothing twice: run against a template
/// root from its start, each step answered by the root, once it is over
/// every template that the root template reaches through static includes
/// (each reading and parsing) is loaded, and the loaded templates are
/// distinct. (Every include cycle met on the way is reported:
/// `law_cycles_are_reported`.)
pub proof fn law_walk_loads_every_reachable_template(
    present: spec_fn(Seq<char>) -> bool,
    contents: spec_fn(Seq<char>) -> Option<Seq<char>>,
    root_request: Seq<char>,
    s: LoadStateV,
    p: Seq<Seq<char>>,
)
    requires
        walk_inv(present, contents, root_request, s),
        waits_for(s, LoadActionV::Done),
        include_chain(present, contents, root_request, p),
    ensures
        forall|i: int| 0 <= i < p.len() ==> loaded_ids(s.sources).contains(#[trigger] p[i]),
        distinct_ids(loaded_ids(s.sources)),
{
    assert forall|i: int| 0 <= i < p.len() implies loaded_ids(s.sources).contains(#[trigger] p[i]) by {
        lemma_chain_loaded(present, contents, root_request, s, p, i);
    }
}

proof fn lemma_chain_loaded(
    present: spec_fn(Seq<char>) -> bool,
    contents: spec_fn(Seq<char>) -> Option<Seq<char>>,
    root_request: Seq<char>,
    s: LoadStateV,
    p: Seq<Seq<char>>,
    i: int,
)
    requires
        walk_inv(present, contents, root_request, s),
        waits_for(s, LoadActionV::Done),
        include_chain(present, contents, root_request, p),
        0 <= i < p.len(),
    ensures
        loaded_ids(s.sources).contains(p[i]),
    decreases i,
{
    let loaded = loaded_ids(s.sources);
    assert(parses(contents, p[i]));
    if i == 0 {
        assert(handled(present, contents, loaded, root_request));
    } else {
        lemma_chain_loaded(present, contents, root_request, s, p, i - 1);
        let q = p[i - 1];
        let m = choose|m: int| 0 <= m < loaded.len() && loaded[m] == q;
        assert(s.sources[m].0 == q);
        assert(contents(q) == Some(s.sources[m].1));
        assert(stack_ids(s.frames) =~= Seq::<Seq<char>>::empty());
        let k = i - 1;
        assert(parses(contents, p[k]));
        assert(includes_template(present, contents, p[k], p[k + 1]));
        let j = choose|j: int|
            0 <= j < includes_of(contents(q)->0).len() && target(present, #[trigger] includes_of(contents(q)->0)[j])
                == Some(p[i]);
        assert(handled(present, contents, loaded, includes_of(s.sources[m].1)[j]));
    }
}

} // verus!

verus! {

/// What the template root answers to an action.
pub open spec fn root_answer(
    present: spec_fn(Seq<char>) -> bool,
    contents: spec_fn(Seq<char>) -> Option<Seq<char>>,
    a: LoadActionV,
) -> LoadEventV {
    match a {
        LoadActionV::Probe(p) => LoadEventV::Probed(present(p)),
        LoadActionV::Read(p) => match contents(p) {
            Some(src) => LoadEventV::Loaded(src),
            None => LoadEventV::Unreadable(p, Seq::empty()),
        },
        LoadActionV::Done => LoadEventV::Probed(false),
    }
}

/// Up to `fuel` steps of the walk, each answered by the template root.
pub open spec fn run(
    present: spec_fn(Seq<char>) -> bool,
    contents: spec_fn(Seq<char>) -> Option<Seq<char>>,
    s: LoadStateV,
    a: LoadActionV,
    fuel: nat,
) -> (LoadStateV, LoadActionV)
    decreases fuel,
{
    if fuel == 0 || a is Done {
        (s, a)
    } else {
        let (s2, a2) = load_step_of(s, root_answer(present, contents, a));
        run(present, contents, s2, a2, (fuel - 1) as nat)
    }
}

proof fn lemma_run_inv(
    present: spec_fn(Seq<char>) -> bool,
    contents: spec_fn(Seq<char>) -> Option<Seq<char>>,
    root_request: Seq<char>,
    s: LoadStateV,
    a: LoadActionV,
    fuel: nat,
)
    requires
        walk_inv(present, contents, root_request, s),
        waits_for(s, a),
        forall|p: Seq<char>| #[trigger] contents(p) matches Some(src) ==> fits(src),
    ensures
        walk_inv(present, contents, root_request, run(present, contents, s, a, fuel).0),
        waits_for(run(present, contents, s, a, fuel).0, run(present, contents, s, a, fuel).1),
    decreases fuel,
{
    if !(fuel == 0 || a is Done) {
        let e = root_answer(present, contents, a);
        law_walk_invariant_kept_by_each_step(present, contents, root_request, s, a, e);
        let (s2, a2) = load_step_of(s, e);
        lemma_run_inv(present, contents, root_request, s2, a2, (fuel - 1) as nat);
    }
}

/// Run from its start against a template root until it is over, the walk
/// has loaded every template that the root template reaches through static
/// includes (each reading and parsing), and each of them once.
pub proof fn law_finished_walk_loads_every_reachable_template(
    present: spec_fn(Seq<char>) -> bool,
    contents: spec_fn(Seq<char>) -> Option<Seq<char>>,
    root: Seq<char>,
    root_request: Seq<char>,
    fuel: nat,
    p: Seq<Seq<char>>,
)
    requires
        forall|q: Seq<char>| #[trigger] contents(q) matches Some(src) ==> fits(src),
        run(present, contents, load_start_of(root, root_request).0, load_start_of(root, root_request).1, fuel).1 is Done,
        include_chain(present, contents, root_request, p),
    ensures
        ({
            let end = run(present, contents, load_start_of(root, root_request).0, load_start_of(root, root_request).1, fuel).0;
            &&& forall|i: int| 0 <= i < p.len() ==> loaded_ids(end.sources).contains(#[trigger] p[i])
            &&& distinct_ids(loaded_ids(end.sources))
        }),
{
    let (s0, a0) = load_start_of(root, root_request);
    law_walk_invariant_at_start(present, contents, root, root_request);
    lemma_run_inv(present, contents, root_request, s0, a0, fuel);
    let end = run(present, contents, s0, a0, fuel);
    law_walk_loads_every_reachable_template(present, contents, root_request, end.0, p);
}

} // verus!
