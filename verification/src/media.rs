//! Media types of templates and the text that describes them.

use vstd::prelude::*;

use crate::text::{chars_end_with, chars_of, ends_with};

verus! {

/// A source embedded in the binary under its template ID.
#[derive(Debug, Clone, Copy)]
pub struct EmbeddedSource {
    pub id: &'static str,
    pub source: &'static str,
}

/// The media type a template renders to, which decides how values are escaped.
#[derive(Debug, Clone, Copy, PartialEq, Eq, Hash, Structural)]
pub enum MediaType {
    Html,
    Xml,
    Json,
    Text,
}

/// The media type named by a template ID's extension.
pub open spec fn media_of_id(id: Seq<char>) -> MediaType {
    if ends_with(id, seq!['.', 'h', 't', 'm', 'l']) || ends_with(id, seq!['.', 'h', 't', 'm']) {
        MediaType::Html
    } else if ends_with(id, seq!['.', 'x', 'm', 'l']) {
        MediaType::Xml
    } else if ends_with(id, seq!['.', 'j', 's', 'o', 'n']) {
        MediaType::Json
    } else {
        MediaType::Text
    }
}

impl MediaType {
    /// Picks the media type from the extension of a template ID.
    pub fn from_template_id(id: &str) -> (m: MediaType)
        ensures
            m == media_of_id(id@),
    {
        let cs = chars_of(id);
        let s = cs.as_slice();
        let html = ['.', 'h', 't', 'm', 'l'];
        let htm = ['.', 'h', 't', 'm'];
        let xml = ['.', 'x', 'm', 'l'];
        let json = ['.', 'j', 's', 'o', 'n'];
        proof {
            assert(html@ =~= seq!['.', 'h', 't', 'm', 'l']);
            assert(htm@ =~= seq!['.', 'h', 't', 'm']);
            assert(xml@ =~= seq!['.', 'x', 'm', 'l']);
            assert(json@ =~= seq!['.', 'j', 's', 'o', 'n']);
        }
        if chars_end_with(s, &html) || chars_end_with(s, &htm) {
            MediaType::Html
        } else if chars_end_with(s, &xml) {
            MediaType::Xml
        } else if chars_end_with(s, &json) {
            MediaType::Json
        } else {
            MediaType::Text
        }
    }

    /// The HTTP `Content-Type` of this media type, always in UTF-8.
    pub fn content_type(self) -> (r: &'static str)
        ensures
            r@ == content_type_of(self),
    {
        match self {
            MediaType::Html => "text/html; charset=utf-8",
            MediaType::Xml => "application/xml; charset=utf-8",
            MediaType::Json => "application/json; charset=utf-8",
            MediaType::Text => "text/plain; charset=utf-8",
        }
    }

    /// The file extension, with its dot, that selects this media type.
    pub fn suffix(self) -> (r: &'static str)
        ensures
            r@ == suffix_of(self),
    {
        proof {
            reveal_strlit(".html");
            reveal_strlit(".xml");
            reveal_strlit(".json");
            reveal_strlit(".txt");
        }
        match self {
            MediaType::Html => ".html",
            MediaType::Xml => ".xml",
            MediaType::Json => ".json",
            MediaType::Text => ".txt",
        }
    }
}

/// The content type that `MediaType::content_type` returns.
pub open spec fn content_type_of(m: MediaType) -> Seq<char> {
    match m {
        MediaType::Html => "text/html; charset=utf-8"@,
        MediaType::Xml => "application/xml; charset=utf-8"@,
        MediaType::Json => "application/json; charset=utf-8"@,
        MediaType::Text => "text/plain; charset=utf-8"@,
    }
}

/// The extension that `MediaType::suffix` returns.
pub open spec fn suffix_of(m: MediaType) -> Seq<char> {
    match m {
        MediaType::Html => seq!['.', 'h', 't', 'm', 'l'],
        MediaType::Xml => seq!['.', 'x', 'm', 'l'],
        MediaType::Json => seq!['.', 'j', 's', 'o', 'n'],
        MediaType::Text => seq!['.', 't', 'x', 't'],
    }
}

/// Each media type's suffix selects that media type again.
pub proof fn law_suffix_selects_media_type(m: MediaType, stem: Seq<char>)
    ensures
        media_of_id(stem + suffix_of(m)) == m,
{
    let id = stem + suffix_of(m);
    let n = id.len();
    assert(id.subrange(n - suffix_of(m).len(), n as int) =~= suffix_of(m));
    match m {
        MediaType::Html => {},
        MediaType::Xml => {
            assert(id.subrange(n - 5, n as int) != seq!['.', 'h', 't', 'm', 'l'] || n < 5) by {
                if n >= 5 {
                    assert(id.subrange(n - 5, n as int)[4] == 'l');
                    assert(id.subrange(n - 5, n as int)[3] == id[n - 2]);
                }
            }
            assert(id.subrange(n - 4, n as int)[3] == 'l');
        },
        MediaType::Json => {
            assert(id.subrange(n - 5, n as int)[4] == 'n');
            assert(id.subrange(n - 4, n as int)[3] == 'n');
        },
        MediaType::Text => {
            assert(id.subrange(n - 4, n as int)[3] == 't');
            if n >= 5 {
                assert(id.subrange(n - 5, n as int)[4] == 't');
            }
        },
    }
}

// ---------------------------------------------------------------------------
// Accept headers
// ---------------------------------------------------------------------------

/// What one media range of an `Accept` header asks for.
#[derive(Debug, Clone, Copy, PartialEq, Eq, Structural)]
pub enum AcceptChoice {
    /// A media type that templates can be rendered as.
    Media(MediaType),
    /// `*/*` or `text/*`: whatever the template is.
    Wildcard,
    /// Anything else.
    Unsupported,
}

/// The media type that a media range names.
pub open spec fn accept_choice_of(range: Seq<char>) -> AcceptChoice {
    if range == "text/html"@ || range == "application/xhtml+xml"@ {
        AcceptChoice::Media(MediaType::Html)
    } else if range == "application/json"@ {
        AcceptChoice::Media(MediaType::Json)
    } else if range == "application/xml"@ || range == "text/xml"@ {
        AcceptChoice::Media(MediaType::Xml)
    } else if range == "text/plain"@ {
        AcceptChoice::Media(MediaType::Text)
    } else if range == "*/*"@ || range == "text/*"@ {
        AcceptChoice::Wildcard
    } else {
        AcceptChoice::Unsupported
    }
}

/// What the media range `range` (its parameters removed) asks for.
pub fn accept_choice(range: &str) -> (r: AcceptChoice)
    ensures
        r == accept_choice_of(range@),
{
    if crate::text::str_eq(range, "text/html") || crate::text::str_eq(range, "application/xhtml+xml") {
        AcceptChoice::Media(MediaType::Html)
    } else if crate::text::str_eq(range, "application/json") {
        AcceptChoice::Media(MediaType::Json)
    } else if crate::text::str_eq(range, "application/xml") || crate::text::str_eq(range, "text/xml") {
        AcceptChoice::Media(MediaType::Xml)
    } else if crate::text::str_eq(range, "text/plain") {
        AcceptChoice::Media(MediaType::Text)
    } else if crate::text::str_eq(range, "*/*") || crate::text::str_eq(range, "text/*") {
        AcceptChoice::Wildcard
    } else {
        AcceptChoice::Unsupported
    }
}

/// A language range of an `Accept-Language` header that can select a
/// locale: not empty and not `*`.
pub fn names_a_language(range: &str) -> (r: bool)
    ensures
        r == (range@.len() > 0 && range@ != "*"@),
{
    proof {
        reveal_strlit("");
        if range@.len() == 0 {
            assert(range@ =~= ""@);
        }
    }
    !crate::text::str_eq(range, "") && !crate::text::str_eq(range, "*")
}

} // verus!
