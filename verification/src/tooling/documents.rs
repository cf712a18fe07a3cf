//! The documents an editor has open: their text, version and analysis.

use vstd::prelude::*;

use crate::compiler::ast::nodes_view;
use crate::compiler::grammar::parse_nodes;
use crate::compiler::parser::{analysis_errors, analyze, diags_view, Analysis};
use crate::text::{chars_of, fits, str_eq};
use crate::tooling::line_index::LineIndex;

verus! {

// ---------------------------------------------------------------------------
// Where a document's templates live
// ---------------------------------------------------------------------------

/// The name of the directory that holds a workspace's templates.
pub open spec fn root_name() -> Seq<char> {
    "templates"@
}

/// The path component `root_name()` ends at `e`: it starts the path or
/// follows a `/`, and it ends the path or a `/` follows it.
pub open spec fn root_component_ends_at(p: Seq<char>, e: int) -> bool {
    &&& 9 <= e <= p.len()
    &&& p.subrange(e - 9, e) == root_name()
    &&& (e == 9 || p[e - 10] == '/')
    &&& (e == p.len() || p[e] == '/')
}

/// The last end of such a component at or before `e`.
pub open spec fn last_root_end(p: Seq<char>, e: int) -> Option<int>
    decreases e,
{
    if e < 9 {
        None
    } else if root_component_ends_at(p, e) {
        Some(e)
    } else {
        last_root_end(p, e - 1)
    }
}

/// Only separators follow position `e`.
pub open spec fn only_separators_after(p: Seq<char>, e: int) -> bool {
    forall|i: int| e <= i < p.len() ==> p[i] == '/'
}

/// The deepest ancestor of the file path `p` (the path itself first) whose
/// last component is `templates`: the path up to the end of the last such
/// component, or the whole path when only separators follow it.
pub open spec fn template_root_of(p: Seq<char>) -> Option<Seq<char>> {
    match last_root_end(p, p.len() as int) {
        Some(e) => if only_separators_after(p, e) {
            Some(p)
        } else {
            Some(p.take(e))
        },
        None => None,
    }
}

/// The templates directory that holds the file at `path`, if any.
pub fn template_root(path: &str) -> (r: Option<String>)
    ensures
        match template_root_of(path@) {
            Some(root) => r matches Some(s) && s@ == root,
            None => r is None,
        },
{
    let p = chars_of(path);
    let n = p.len();
    let root: Vec<char> = vec!['t', 'e', 'm', 'p', 'l', 'a', 't', 'e', 's'];
    proof {
        reveal_strlit("templates");
        assert(root@ =~= root_name());
    }
    let mut e: usize = n;
    while e >= 9
        invariant
            e <= n,
            n == p@.len(),
            p@ == path@,
            root@ == root_name(),
            root@.len() == 9,
            last_root_end(p@, n as int) == last_root_end(p@, e as int),
        decreases e,
    {
        let start = e - 9;
        let named = crate::text::starts_with_at(p.as_slice(), start, root.as_slice());
        let before = start == 0 || p[start - 1] == '/';
        let after = e == n || p[e] == '/';
        proof {
            if named {
                assert(p@.subrange(start as int, start + 9) =~= root_name());
            }
            if p@.subrange(e - 9, e as int) == root_name() {
                assert(crate::text::starts_at(p@, start as int, root@));
            }
        }
        if named && before && after {
            proof {
                assert(root_component_ends_at(p@, e as int));
                assert(last_root_end(p@, e as int) == Some(e as int));
            }
            let mut k: usize = e;
            while k < n
                invariant
                    e <= k <= n,
                    n == p@.len(),
                    p@ == path@,
                    last_root_end(p@, n as int) == Some(e as int),
                    forall|i: int| e <= i < k ==> p@[i] == '/',
                decreases n - k,
            {
                if p[k] != '/' {
                    let s = crate::text::string_of(vstd::slice::slice_subrange(p.as_slice(), 0, e));
                    proof {
                        assert(!only_separators_after(p@, e as int));
                        assert(s@ =~= p@.take(e as int));
                    }
                    return Some(s);
                }
                k = k + 1;
            }
            proof {
                assert(only_separators_after(p@, e as int));
            }
            return Some(path.to_string());
        }
        e = e - 1;
    }
    None
}

/// `Url::to_file_path` of the URL written in `uri`, as text; nothing when the
/// text is no URL, or no file path. What the path is depends on the platform
/// that the library runs on, so nothing is stated of it.
#[verifier::external_body]
fn file_path_of(uri: &str) -> (r: Option<String>) {
    let url = tower_lsp::lsp_types::Url::parse(uri).ok()?;
    let path = url.to_file_path().ok()?;
    path.into_os_string().into_string().ok()
}

// ---------------------------------------------------------------------------
// Snapshots
// ---------------------------------------------------------------------------

/// The analysis of one version of an open document.
#[derive(Debug)]
pub struct DocumentSnapshot {
    pub text: String,
    pub version: i32,
    pub analysis: Analysis,
    pub line_index: LineIndex,
    pub template_root: Option<String>,
}

impl DocumentSnapshot {
    /// The snapshot holds `text` at `version`, analysed under the name `uri`;
    /// its template root, when it has one, is the templates directory of
    /// some file path (the one `Url::to_file_path` gives for `uri`, which
    /// depends on the platform and is not stated).
    pub open spec fn describes(&self, uri: Seq<char>, version: i32, text: Seq<char>) -> bool {
        &&& self.text@ == text
        &&& self.version == version
        &&& self.analysis.template.name@ == uri
        &&& self.analysis.template.source@ == text
        &&& nodes_view(self.analysis.template.nodes@) == parse_nodes(text).0
        &&& diags_view(self.analysis.diagnostics@) == analysis_errors(text)
        &&& self.line_index.wf()
        &&& self.line_index.text() == text
        &&& self.template_root matches Some(root) ==> exists|path: Seq<char>| #[trigger] template_root_of(path)
            == Some(root@)
    }

    fn new(uri: &str, version: i32, text: String) -> (r: DocumentSnapshot)
        requires
            fits(text@),
        ensures
            r.describes(uri@, version, text@),
    {
        let analysis = analyze(uri, text.as_str());
        let line_index = LineIndex::new(text.as_str());
        let template_root = match file_path_of(uri) {
            Some(path) => {
                let root = template_root(path.as_str());
                proof {
                    if root is Some {
                        assert(template_root_of(path@) == Some(root->0@));
                    }
                }
                root
            },
            None => None,
        };
        DocumentSnapshot { text, version, analysis, line_index, template_root }
    }
}

// ---------------------------------------------------------------------------
// The store
// ---------------------------------------------------------------------------

/// An open document and its latest snapshot.
#[derive(Debug)]
pub struct OpenDocument {
    pub uri: String,
    pub snapshot: DocumentSnapshot,
}

/// Owns the current contents and analyses of all open documents, at most one
/// per URI.
#[derive(Debug)]
pub struct DocumentStore {
    documents: Vec<OpenDocument>,
}

/// Where the document for `uri` stands among `ds[i..]`.
pub open spec fn position_from(ds: Seq<OpenDocument>, uri: Seq<char>, i: int) -> Option<int>
    decreases ds.len() - i,
{
    if i < 0 || i >= ds.len() {
        None
    } else if ds[i].uri@ == uri {
        Some(i)
    } else {
        position_from(ds, uri, i + 1)
    }
}

/// No URI occurs twice among `ds`.
pub open spec fn distinct(ds: Seq<OpenDocument>) -> bool {
    forall|a: int, b: int| 0 <= a < b < ds.len() ==> (#[trigger] ds[a]).uri@ != (#[trigger] ds[b]).uri@
}

/// The snapshot of the document for `uri` among `ds`.
pub open spec fn doc_at(ds: Seq<OpenDocument>, uri: Seq<char>) -> Option<DocumentSnapshot> {
    match position_from(ds, uri, 0) {
        Some(k) => Some(ds[k].snapshot),
        None => None,
    }
}

impl DocumentStore {
    /// The open documents, in the order they were first opened.
    pub closed spec fn entries(&self) -> Seq<OpenDocument> {
        self.documents@
    }

    /// No URI is open twice.
    pub open spec fn wf(&self) -> bool {
        distinct(self.entries())
    }

    /// The snapshot of the document open under `uri`.
    pub open spec fn document(&self, uri: Seq<char>) -> Option<DocumentSnapshot> {
        doc_at(self.entries(), uri)
    }

    /// A store with no open document.
    pub fn new() -> (r: DocumentStore)
        ensures
            r.wf(),
            forall|u: Seq<char>| #[trigger] r.document(u) is None,
    {
        DocumentStore { documents: Vec::new() }
    }

    fn position(&self, uri: &str) -> (r: Option<usize>)
        ensures
            match r {
                Some(k) => position_from(self.entries(), uri@, 0) == Some(k as int),
                None => position_from(self.entries(), uri@, 0) is None,
            },
            r matches Some(k) ==> k < self.entries().len() && self.entries()[k as int].uri@ == uri@,
    {
        proof {
            lemma_position_found(self.entries(), uri@, 0);
        }
        let mut i: usize = 0;
        while i < self.documents.len()
            invariant
                i <= self.documents@.len(),
                position_from(self.entries(), uri@, 0) == position_from(self.entries(), uri@, i as int),
            decreases self.documents@.len() - i,
        {
            if str_eq(self.documents[i].uri.as_str(), uri) {
                return Some(i);
            }
            i = i + 1;
        }
        None
    }

    /// Opens (or reopens) `uri` with `text` at `version` and returns its snapshot.
    pub fn open(&mut self, uri: &str, version: i32, text: String) -> (r: &DocumentSnapshot)
        requires
            old(self).wf(),
            fits(text@),
        ensures
            final(self).wf(),
            r.describes(uri@, version, text@),
            final(self).document(uri@) == Some(*r),
            forall|u: Seq<char>| u != uri@ ==> #[trigger] final(self).document(u) == old(self).document(u),
    {
        let snapshot = DocumentSnapshot::new(uri, version, text);
        let ghost before = self.documents@;
        let entry = OpenDocument { uri: uri.to_string(), snapshot };
        match self.position(uri) {
            Some(k) => {
                proof {
                    lemma_update_frame(before, k as int, entry, uri@);
                }
                self.documents.set(k, entry);
                &self.documents[k].snapshot
            },
            None => {
                proof {
                    lemma_absent_everywhere(before, uri@);
                    lemma_push_frame(before, entry, uri@);
                }
                self.documents.push(entry);
                let n = self.documents.len();
                &self.documents[n - 1].snapshot
            },
        }
    }

    /// Replaces the text of the open document `uri` by a newer version;
    /// nothing changes, and nothing is returned, when `uri` is not open or
    /// `version` is not newer than the one held.
    pub fn change(&mut self, uri: &str, version: i32, text: String) -> (r: Option<&DocumentSnapshot>)
        requires
            old(self).wf(),
            fits(text@),
        ensures
            final(self).wf(),
            match old(self).document(uri@) {
                Some(current) => if version <= current.version {
                    r is None && final(self).entries() == old(self).entries()
                } else {
                    r matches Some(s) && s.describes(uri@, version, text@) && final(self).document(uri@)
                        == Some(*s) && forall|u: Seq<char>|
                        u != uri@ ==> #[trigger] final(self).document(u) == old(self).document(u)
                },
                None => r is None && final(self).entries() == old(self).entries(),
            },
    {
        match self.position(uri) {
            Some(k) => {
                if version <= self.documents[k].snapshot.version {
                    return None;
                }
                let snapshot = DocumentSnapshot::new(uri, version, text);
                let ghost before = self.documents@;
                let entry = OpenDocument { uri: uri.to_string(), snapshot };
                proof {
                    lemma_update_frame(before, k as int, entry, uri@);
                }
                self.documents.set(k, entry);
                Some(&self.documents[k].snapshot)
            },
            None => None,
        }
    }

    /// Closes `uri`, handing back its last snapshot.
    pub fn close(&mut self, uri: &str) -> (r: Option<DocumentSnapshot>)
        requires
            old(self).wf(),
        ensures
            final(self).wf(),
            r == old(self).document(uri@),
            final(self).document(uri@) is None,
            forall|u: Seq<char>| u != uri@ ==> #[trigger] final(self).document(u) == old(self).document(u),
    {
        let ghost before = self.documents@;
        match self.position(uri) {
            Some(k) => {
                proof {
                    lemma_remove_frame(before, k as int, uri@);
                }
                let removed = self.documents.remove(k);
                Some(removed.snapshot)
            },
            None => {
                proof {
                    lemma_absent_everywhere(before, uri@);
                }
                None
            },
        }
    }

    /// The snapshot of the open document `uri`.
    pub fn get(&self, uri: &str) -> (r: Option<&DocumentSnapshot>)
        ensures
            match self.document(uri@) {
                Some(s) => r matches Some(x) && *x == s,
                None => r is None,
            },
    {
        match self.position(uri) {
            Some(k) => {
                Some(&self.documents[k].snapshot)
            },
            None => None,
        }
    }

    /// The open documents, in the order they were first opened.
    pub fn open_documents(&self) -> (r: &Vec<OpenDocument>)
        ensures
            r@ == self.entries(),
    {
        &self.documents
    }
}

impl Default for DocumentStore {
    fn default() -> (r: DocumentStore)
        ensures
            r.wf(),
            forall|u: Seq<char>| #[trigger] r.document(u) is None,
    {
        DocumentStore::new()
    }
}

// ---------------------------------------------------------------------------
// Lemmas on where a URI stands
// ---------------------------------------------------------------------------

proof fn lemma_position_scan(ds: Seq<OpenDocument>, uri: Seq<char>, i: int, k: int)
    requires
        0 <= i <= k < ds.len(),
        ds[k].uri@ == uri,
        distinct(ds),
    ensures
        position_from(ds, uri, i) == Some(k),
    decreases k - i,
{
    if i < k {
        assert(ds[i].uri@ != ds[k].uri@);
        lemma_position_scan(ds, uri, i + 1, k);
    }
}

proof fn lemma_position_found(ds: Seq<OpenDocument>, uri: Seq<char>, i: int)
    requires
        0 <= i,
    ensures
        match position_from(ds, uri, i) {
            Some(k) => i <= k < ds.len() && ds[k].uri@ == uri,
            None => forall|j: int| i <= j < ds.len() ==> ds[j].uri@ != uri,
        },
    decreases ds.len() - i,
{
    if i < ds.len() && ds[i].uri@ != uri {
        lemma_position_found(ds, uri, i + 1);
    }
}

proof fn lemma_absent_everywhere(ds: Seq<OpenDocument>, uri: Seq<char>)
    requires
        position_from(ds, uri, 0) is None,
    ensures
        forall|j: int| 0 <= j < ds.len() ==> ds[j].uri@ != uri,
{
    lemma_position_found(ds, uri, 0);
}

/// What `position_from` gives for `u`, for a sequence of distinct URIs.
proof fn lemma_position_exact(ds: Seq<OpenDocument>, u: Seq<char>)
    requires
        distinct(ds),
    ensures
        (exists|k: int| 0 <= k < ds.len() && ds[k].uri@ == u) ==> (position_from(ds, u, 0) matches Some(
            k,
        ) && 0 <= k < ds.len() && ds[k].uri@ == u),
        (forall|k: int| 0 <= k < ds.len() ==> ds[k].uri@ != u) ==> position_from(ds, u, 0) is None,
{
    lemma_position_found(ds, u, 0);
}

proof fn lemma_update_frame(before: Seq<OpenDocument>, k: int, x: OpenDocument, uri: Seq<char>)
    requires
        0 <= k < before.len(),
        before[k].uri@ == uri,
        x.uri@ == uri,
        distinct(before),
    ensures
        distinct(before.update(k, x)),
        position_from(before.update(k, x), uri, 0) == Some(k),
        doc_at(before.update(k, x), uri) == Some(x.snapshot),
        forall|u: Seq<char>| u != uri ==> #[trigger] doc_at(before.update(k, x), u) == doc_at(before, u),
{
    let after = before.update(k, x);
    assert forall|a: int, b: int| 0 <= a < b < after.len() implies (#[trigger] after[a]).uri@ != (
    #[trigger] after[b]).uri@ by {
        assert(after[a].uri@ == before[a].uri@);
        assert(after[b].uri@ == before[b].uri@);
    }
    lemma_position_scan(after, uri, 0, k);
    assert forall|u: Seq<char>| u != uri implies #[trigger] doc_at(after, u) == doc_at(before, u) by {
        lemma_position_exact(before, u);
        lemma_position_exact(after, u);
        if exists|j: int| 0 <= j < before.len() && before[j].uri@ == u {
            let j = choose|j: int| 0 <= j < before.len() && before[j].uri@ == u;
            assert(j != k);
            assert(after[j] == before[j]);
            lemma_position_scan(after, u, 0, j);
            lemma_position_scan(before, u, 0, j);
        } else {
            assert forall|j: int| 0 <= j < after.len() implies after[j].uri@ != u by {
                assert(after[j].uri@ == before[j].uri@);
            }
        }
    }
}

proof fn lemma_push_frame(before: Seq<OpenDocument>, x: OpenDocument, uri: Seq<char>)
    requires
        x.uri@ == uri,
        forall|j: int| 0 <= j < before.len() ==> before[j].uri@ != uri,
        distinct(before),
    ensures
        distinct(before.push(x)),
        doc_at(before.push(x), uri) == Some(x.snapshot),
        forall|u: Seq<char>| u != uri ==> #[trigger] doc_at(before.push(x), u) == doc_at(before, u),
{
    let after = before.push(x);
    assert forall|a: int, b: int| 0 <= a < b < after.len() implies (#[trigger] after[a]).uri@ != (
    #[trigger] after[b]).uri@ by {
        if b == before.len() {
            assert(after[a] == before[a]);
        } else {
            assert(after[a] == before[a]);
            assert(after[b] == before[b]);
        }
    }
    lemma_position_scan(after, uri, 0, before.len() as int);
    assert forall|u: Seq<char>| u != uri implies #[trigger] doc_at(after, u) == doc_at(before, u) by {
        lemma_position_exact(before, u);
        lemma_position_exact(after, u);
        if exists|j: int| 0 <= j < before.len() && before[j].uri@ == u {
            let j = choose|j: int| 0 <= j < before.len() && before[j].uri@ == u;
            assert(after[j] == before[j]);
            lemma_position_scan(after, u, 0, j);
            lemma_position_scan(before, u, 0, j);
        } else {
            assert forall|j: int| 0 <= j < after.len() implies after[j].uri@ != u by {
                if j < before.len() {
                    assert(after[j] == before[j]);
                }
            }
        }
    }
}

proof fn lemma_remove_frame(before: Seq<OpenDocument>, k: int, uri: Seq<char>)
    requires
        0 <= k < before.len(),
        before[k].uri@ == uri,
        distinct(before),
    ensures
        distinct(before.remove(k)),
        doc_at(before, uri) == Some(before[k].snapshot),
        doc_at(before.remove(k), uri) is None,
        forall|u: Seq<char>| u != uri ==> #[trigger] doc_at(before.remove(k), u) == doc_at(before, u),
{
    let after = before.remove(k);
    assert forall|j: int| 0 <= j < after.len() implies after[j] == (if j < k {
        before[j]
    } else {
        before[j + 1]
    }) by {}
    assert forall|a: int, b: int| 0 <= a < b < after.len() implies (#[trigger] after[a]).uri@ != (
    #[trigger] after[b]).uri@ by {
        let a2 = if a < k { a } else { a + 1 };
        let b2 = if b < k { b } else { b + 1 };
        assert(after[a] == before[a2]);
        assert(after[b] == before[b2]);
    }
    lemma_position_scan(before, uri, 0, k);
    lemma_position_exact(after, uri);
    assert forall|j: int| 0 <= j < after.len() implies after[j].uri@ != uri by {
        let j2 = if j < k { j } else { j + 1 };
        assert(after[j] == before[j2]);
        assert(before[j2].uri@ != before[k].uri@);
    }
    assert forall|u: Seq<char>| u != uri implies #[trigger] doc_at(after, u) == doc_at(before, u) by {
        lemma_position_exact(before, u);
        lemma_position_exact(after, u);
        if exists|j: int| 0 <= j < before.len() && before[j].uri@ == u {
            let j = choose|j: int| 0 <= j < before.len() && before[j].uri@ == u;
            assert(j != k);
            let j2 = if j < k { j } else { j - 1 };
            assert(after[j2] == before[j]);
            lemma_position_scan(after, u, 0, j2);
            lemma_position_scan(before, u, 0, j);
        } else {
            assert forall|j: int| 0 <= j < after.len() implies after[j].uri@ != u by {
                let j2 = if j < k { j } else { j + 1 };
                assert(after[j] == before[j2]);
            }
        }
    }
}

} // verus!
