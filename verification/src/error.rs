//! Rendering errors with source locations and render stacks.

use vstd::prelude::*;

use crate::compiler::ast::Template;
use crate::compiler::diagnostic::{
    char_index_at, char_index_at_byte, column_after, line_after, line_and_column, Diagnostic,
};
use crate::compiler::span::Span;
use crate::escape::{decimal, format_integer};
use crate::text::{byte_at, chars_of, fits, push_str, str_byte_len, utf8_len};

verus! {

/// The category of a rendering failure.
#[derive(Debug, Clone, Copy, PartialEq, Eq, Structural)]
#[non_exhaustive]
pub enum ErrorCode {
    Parse,
    MissingTemplate,
    NotAcceptable,
    DuplicateTemplate,
    MissingValue,
    Type,
    Arithmetic,
    UnknownSection,
    IncludeCycle,
    OutputLimit,
    Loader,
    Extension,
}

/// A rendering failure, located in a template where that is known.
#[derive(Debug)]
pub struct RenderError {
    pub code: ErrorCode,
    pub message: String,
    pub template: Option<String>,
    pub span: Option<Span>,
    pub line: Option<u32>,
    pub column: Option<u32>,
    pub render_stack: Vec<String>,
    /// Text of the underlying cause, where there is one.
    pub source: Option<String>,
}

impl RenderError {
    /// An error with a code and message and no location.
    pub fn new(code: ErrorCode, message: String) -> (e: RenderError)
        ensures
            e.code == code,
            e.message@ == message@,
            e.template is None,
            e.span is None,
            e.line is None,
            e.column is None,
            e.render_stack@.len() == 0,
            e.source is None,
    {
        RenderError {
            code,
            message,
            template: None,
            span: None,
            line: None,
            column: None,
            render_stack: Vec::new(),
            source: None,
        }
    }

    /// Attaches the description of the underlying cause.
    pub fn with_source(self, source: String) -> (e: RenderError)
        ensures
            e.source == Some(source),
            e.code == self.code,
            e.message == self.message,
            e.template == self.template,
            e.span == self.span,
            e.line == self.line,
            e.column == self.column,
            e.render_stack == self.render_stack,
    {
        let mut e = self;
        e.source = Some(source);
        e
    }
}


/// `b` is the byte offset of a character of `s`, or of its end.
pub open spec fn is_char_boundary(s: Seq<char>, b: int) -> bool {
    exists|k: int| 0 <= k <= s.len() && #[trigger] byte_at(s, k) == b
}

/// A count as a `u32`, when it fits.
pub open spec fn as_u32(n: int) -> Option<u32> {
    if 0 <= n <= u32::MAX {
        Some(n as u32)
    } else {
        None
    }
}

fn to_u32(n: usize) -> (r: Option<u32>)
    ensures
        r == as_u32(n as int),
{
    if n <= 0xffff_ffff {
        Some(n as u32)
    } else {
        None
    }
}

/// The position where `span` starts in `source`, clamped to its end, as the
/// number of characters before it.
pub open spec fn start_index(source: Seq<char>, span: Span) -> int {
    let b = if span.start <= utf8_len(source) {
        span.start as int
    } else {
        utf8_len(source) as int
    };
    char_index_at(source, b)
}

/// One diagnostic as text: `name:line:column: code: message`.
pub open spec fn diagnostic_text(d: Diagnostic) -> Seq<char> {
    d.source_name@ + ":"@ + decimal(d.line as int) + ":"@ + decimal(d.column as int) + ": "@ + d.code@
        + ": "@ + d.message@
}

/// The texts of diagnostics, one per line.
pub open spec fn diagnostics_text(ds: Seq<Diagnostic>) -> Seq<char>
    decreases ds.len(),
{
    if ds.len() == 0 {
        Seq::empty()
    } else if ds.len() == 1 {
        diagnostic_text(ds[0])
    } else {
        diagnostics_text(ds.drop_last()) + "\n"@ + diagnostic_text(ds.last())
    }
}

/// The text of a rendering error: its location when known, its message,
/// and the templates being rendered.
pub open spec fn error_text(e: RenderError) -> Seq<char> {
    let location = match (e.template, e.line, e.column) {
        (Some(t), Some(l), Some(c)) => t@ + ":"@ + decimal(l as int) + ":"@ + decimal(c as int) + ": "@,
        _ => Seq::empty(),
    };
    let stack = if e.render_stack@.len() == 0 {
        Seq::empty()
    } else {
        " (render stack: "@ + joined(e.render_stack@, " -> "@) + ")"@
    };
    location + e.message@ + stack
}

/// Strings joined with a separator.
pub open spec fn joined(parts: Seq<String>, sep: Seq<char>) -> Seq<char>
    decreases parts.len(),
{
    if parts.len() == 0 {
        Seq::empty()
    } else if parts.len() == 1 {
        parts[0]@
    } else {
        joined(parts.drop_last(), sep) + sep + parts.last()@
    }
}

impl Diagnostic {
    /// The diagnostic as text: `name:line:column: code: message`.
    pub fn text(&self) -> (r: String)
        ensures
            r@ == diagnostic_text(*self),
    {
        let mut r = String::new();
        push_str(&mut r, self.source_name.as_str());
        push_str(&mut r, ":");
        push_str(&mut r, format_integer(self.line as i128).as_str());
        push_str(&mut r, ":");
        push_str(&mut r, format_integer(self.column as i128).as_str());
        push_str(&mut r, ": ");
        push_str(&mut r, self.code);
        push_str(&mut r, ": ");
        push_str(&mut r, self.message.as_str());
        proof {
            assert(r@ =~= diagnostic_text(*self));
        }
        r
    }
}

impl RenderError {
    /// Locates the error at `span` of `template`: the template's name, the
    /// span, and the one-based line and character column where it starts.
    pub fn at(self, template: &Template, span: Span) -> (e: RenderError)
        requires
            fits(template.source@),
            is_char_boundary(
                template.source@,
                if span.start <= utf8_len(template.source@) {
                    span.start as int
                } else {
                    utf8_len(template.source@) as int
                },
            ),
        ensures
            e.code == self.code,
            e.message == self.message,
            e.render_stack == self.render_stack,
            e.source == self.source,
            e.template matches Some(t) && t@ == template.name@,
            e.span == Some(span),
            e.line == as_u32(line_after(template.source@.take(start_index(template.source@, span))) as int),
            e.column == as_u32(column_after(template.source@.take(start_index(template.source@, span))) as int),
    {
        let src = chars_of(template.source.as_str());
        let len = str_byte_len(template.source.as_str());
        let b = if span.start <= len {
            span.start
        } else {
            len
        };
        let k = char_index_at_byte(&src, b);
        let (line, column) = line_and_column(&src, k);
        let mut e = self;
        e.template = Some(template.name.clone());
        e.span = Some(span);
        e.line = to_u32(line);
        e.column = to_u32(column);
        e
    }

    /// The error that reports a template's syntax errors: code `Parse`, the
    /// diagnostics one per line, located at the first of them.
    pub fn from_diagnostics(diagnostics: Vec<Diagnostic>) -> (e: RenderError)
        ensures
            e.code == ErrorCode::Parse,
            e.message@ == diagnostics_text(diagnostics@),
            diagnostics@.len() == 0 ==> e.template is None && e.span is None && e.line is None
                && e.column is None,
            diagnostics@.len() > 0 ==> {
                let first = diagnostics@[0];
                &&& e.template matches Some(t) && t@ == first.source_name@
                &&& e.span == Some(first.span)
                &&& e.line == as_u32(first.line as int)
                &&& e.column == as_u32(first.column as int)
            },
            e.render_stack@.len() == 0,
            e.source is None,
    {
        let mut message = String::new();
        let mut i: usize = 0;
        proof {
            assert(diagnostics@.take(0) =~= Seq::<Diagnostic>::empty());
        }
        while i < diagnostics.len()
            invariant
                i <= diagnostics@.len(),
                message@ == diagnostics_text(diagnostics@.take(i as int)),
            decreases diagnostics@.len() - i,
        {
            proof {
                assert(diagnostics@.take(i + 1).drop_last() =~= diagnostics@.take(i as int));
                assert(diagnostics@.take(i + 1).last() == diagnostics@[i as int]);
            }
            if i > 0 {
                push_str(&mut message, "\n");
            }
            let t = diagnostics[i].text();
            push_str(&mut message, t.as_str());
            proof {
                if i == 0 {
                    assert(message@ =~= diagnostics_text(diagnostics@.take(1)));
                } else {
                    assert(message@ =~= diagnostics_text(diagnostics@.take(i + 1)));
                }
            }
            i = i + 1;
        }
        proof {
            assert(diagnostics@.take(diagnostics@.len() as int) =~= diagnostics@);
        }
        let mut e = RenderError::new(ErrorCode::Parse, message);
        if diagnostics.len() > 0 {
            let first = &diagnostics[0];
            e.template = Some(first.source_name.clone());
            e.span = Some(first.span);
            e.line = to_u32(first.line);
            e.column = to_u32(first.column);
        }
        e
    }

    /// The error as text: `template:line:column: ` when located, then the
    /// message, then ` (render stack: a -> b)` when templates were being rendered.
    pub fn text(&self) -> (r: String)
        ensures
            r@ == error_text(*self),
    {
        let mut r = String::new();
        match (&self.template, self.line, self.column) {
            (Some(t), Some(l), Some(c)) => {
                push_str(&mut r, t.as_str());
                push_str(&mut r, ":");
                push_str(&mut r, format_integer(l as i128).as_str());
                push_str(&mut r, ":");
                push_str(&mut r, format_integer(c as i128).as_str());
                push_str(&mut r, ": ");
            },
            _ => {},
        }
        push_str(&mut r, self.message.as_str());
        if self.render_stack.len() > 0 {
            push_str(&mut r, " (render stack: ");
            let mut i: usize = 0;
            let ghost before = r@;
            proof {
                assert(self.render_stack@.take(0) =~= Seq::<String>::empty());
            }
            while i < self.render_stack.len()
                invariant
                    i <= self.render_stack@.len(),
                    r@ == before + joined(self.render_stack@.take(i as int), " -> "@),
                decreases self.render_stack@.len() - i,
            {
                proof {
                    assert(self.render_stack@.take(i + 1).drop_last() =~= self.render_stack@.take(i as int));
                }
                if i > 0 {
                    push_str(&mut r, " -> ");
                }
                push_str(&mut r, self.render_stack[i].as_str());
                proof {
                    if i == 0 {
                        assert(r@ =~= before + joined(self.render_stack@.take(1), " -> "@));
                    } else {
                        assert(r@ =~= before + joined(self.render_stack@.take(i + 1), " -> "@));
                    }
                }
                i = i + 1;
            }
            proof {
                assert(self.render_stack@.take(self.render_stack@.len() as int) =~= self.render_stack@);
            }
            push_str(&mut r, ")");
        }
        proof {
            assert(r@ =~= error_text(*self));
        }
        r
    }
}

} // verus!
