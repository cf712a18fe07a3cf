//! Where templates are read from, and the options of one rendering.

use vstd::prelude::*;

use crate::error::{ErrorCode, RenderError};
use crate::media::MediaType;
use crate::paths::{escapes, escapes_root, is_absolute};
use crate::text::{chars_of, push_str};

verus! {

/// Loads templates from files under a root directory.
#[derive(Debug, Clone)]
pub struct FileLoader {
    root: String,
}

/// `id` below `root`: `Path::join` puts a `/` between them unless the root is
/// empty or already ends with one.
pub open spec fn joined(root: Seq<char>, id: Seq<char>) -> Seq<char> {
    if root.len() == 0 || root.last() == '/' {
        root + id
    } else {
        root + "/"@ + id
    }
}

impl FileLoader {
    /// A loader for the files under `root`.
    pub fn new(root: &str) -> (r: Self)
        ensures
            r.root_view() == root@,
    {
        FileLoader { root: root.to_string() }
    }

    pub closed spec fn root_view(&self) -> Seq<char> {
        self.root@
    }

    /// The directory the loader reads under.
    pub fn root(&self) -> (r: &str)
        ensures
            r@ == self.root_view(),
    {
        self.root.as_str()
    }

    /// The file that holds template `id`: nothing for an absolute ID or one
    /// with a `..` segment, which could leave the root.
    pub fn path_of(&self, id: &str) -> (r: Option<String>)
        ensures
            r is None <==> (is_absolute(id@) || escapes(id@)),
            r matches Some(p) ==> p@ == joined(self.root_view(), id@),
    {
        let cs = chars_of(id);
        if (cs.len() > 0 && cs[0] == '/') || escapes_root(cs.as_slice()) {
            return None;
        }
        let rs = chars_of(self.root.as_str());
        let mut p = self.root.clone();
        proof {
            assert(p@ == self.root@);
        }
        if rs.len() > 0 && rs[rs.len() - 1] != '/' {
            push_str(&mut p, "/");
        }
        push_str(&mut p, id);
        Some(p)
    }
}

/// The media type and language that one rendering asks for.
#[derive(Debug)]
pub struct RenderOptions {
    pub media_type: Option<MediaType>,
    pub language: Option<String>,
}

impl Default for RenderOptions {
    /// No media type and no language: the template's own.
    fn default() -> (r: Self)
        ensures
            r.media_type is None,
            r.language is None,
    {
        RenderOptions { media_type: None, language: None }
    }
}

/// How long a web rendering may take.
#[derive(Debug, Clone, Copy)]
pub struct RenderDeadline(pub std::time::Duration);

// ---------------------------------------------------------------------------
// Registering embedded templates
// ---------------------------------------------------------------------------

/// What registering an embedded source does, given the source already held
/// under its ID.
#[derive(Debug, Clone, Copy, PartialEq, Eq, Structural)]
pub enum Embedding {
    /// Nothing is held yet: parse and add it.
    Add,
    /// The same source is held: nothing to do.
    Keep,
    /// Another source is held: refuse.
    Conflict,
}

/// What to do with an embedded `source` when `existing` is held under its ID.
pub fn embedding(existing: Option<&str>, source: &str) -> (r: Embedding)
    ensures
        r == (match existing {
            None => Embedding::Add,
            Some(held) => if held@ == source@ {
                Embedding::Keep
            } else {
                Embedding::Conflict
            },
        }),
{
    match existing {
        None => Embedding::Add,
        Some(held) => if crate::text::str_eq(held, source) {
            Embedding::Keep
        } else {
            Embedding::Conflict
        },
    }
}

/// The error for a template ID embedded with two different sources.
pub fn embedded_conflict(id: &str) -> (e: RenderError)
    ensures
        e.code == ErrorCode::DuplicateTemplate,
        e.message@ == "template `"@ + id@ + "` is embedded with conflicting sources"@,
        e.template is None,
        e.span is None,
        e.render_stack@.len() == 0,
{
    let mut m = "template `".to_string();
    push_str(&mut m, id);
    push_str(&mut m, "` is embedded with conflicting sources");
    RenderError::new(ErrorCode::DuplicateTemplate, m)
}

/// The error for registering a template under an ID that is already taken.
pub fn already_registered(id: &str) -> (e: RenderError)
    ensures
        e.code == ErrorCode::DuplicateTemplate,
        e.message@ == "template `"@ + id@ + "` is already registered"@,
        e.template is None,
        e.span is None,
        e.render_stack@.len() == 0,
{
    let mut m = "template `".to_string();
    push_str(&mut m, id);
    push_str(&mut m, "` is already registered");
    RenderError::new(ErrorCode::DuplicateTemplate, m)
}

/// The error for a loader that fails while reloading `id`, with its cause.
pub fn reload_failure(id: &str, cause: String) -> (e: RenderError)
    ensures
        e.code == ErrorCode::Loader,
        e.message@ == "could not reload template `"@ + id@ + "`"@,
        e.source == Some(cause),
{
    let mut m = "could not reload template `".to_string();
    push_str(&mut m, id);
    push_str(&mut m, "`");
    RenderError::new(ErrorCode::Loader, m).with_source(cause)
}

} // verus!
