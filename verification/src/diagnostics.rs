//! Diagnostics: a severity, a headline message, the offending span, and an
//! optional label and suggested fix.

use vstd::prelude::*;
use vstd::string::StringSliceAdditionalSpecFns;
use vstd::utf8::is_char_boundary;

use annotate_snippets::{Renderer, Snippet};

use crate::syntax::Loc;
use crate::text::push_str;

verus! {

/// Severity of a diagnostic.
#[derive(Debug, Clone, Copy, PartialEq, Eq, Structural)]
pub enum Level {
    Error,
    Warning,
    Note,
}

pub open spec fn level_text(level: Level) -> Seq<char> {
    match level {
        Level::Error => "error"@,
        Level::Warning => "warning"@,
        Level::Note => "note"@,
    }
}

/// The wire name of a severity.
pub fn level_str(level: Level) -> (r: &'static str)
    ensures
        r@ == level_text(level),
{
    match level {
        Level::Error => "error",
        Level::Warning => "warning",
        Level::Note => "note",
    }
}

/// A single diagnostic: a headline message, where it points, and an
/// optional label for the span and concrete fix.
#[derive(Debug, Clone)]
pub struct Diagnostic {
    pub level: Level,
    pub message: String,
    pub span: Loc,
    pub label: Option<String>,
    pub suggestion: Option<String>,
}

/// A diagnostic as plain values.
pub struct DiagnosticV {
    pub level: Level,
    pub message: Seq<char>,
    pub span: Loc,
    pub label: Option<Seq<char>>,
    pub suggestion: Option<Seq<char>>,
}

pub open spec fn opt_text(o: Option<String>) -> Option<Seq<char>> {
    match o {
        Some(s) => Some(s@),
        None => None,
    }
}

impl View for Diagnostic {
    type V = DiagnosticV;

    open spec fn view(&self) -> DiagnosticV {
        DiagnosticV {
            level: self.level,
            message: self.message@,
            span: self.span,
            label: opt_text(self.label),
            suggestion: opt_text(self.suggestion),
        }
    }
}

/// The view of a labelled error at `span`.
pub open spec fn error_at(message: Seq<char>, span: Loc, label: Seq<char>) -> DiagnosticV {
    DiagnosticV { level: Level::Error, message, span, label: Some(label), suggestion: None }
}

impl Diagnostic {
    /// A diagnostic with no label and no suggestion.
    pub fn new(level: Level, message: String, span: Loc) -> (r: Diagnostic)
        ensures
            r@ == (DiagnosticV { level, message: message@, span, label: None, suggestion: None }),
    {
        Diagnostic { level, message, span, label: None, suggestion: None }
    }

    /// The same diagnostic, labelled.
    pub fn with_label(self, label: String) -> (r: Diagnostic)
        ensures
            r@ == (DiagnosticV { label: Some(label@), ..self@ }),
    {
        Diagnostic { label: Some(label), ..self }
    }

    /// The same diagnostic, with a suggested fix.
    pub fn with_suggestion(self, suggestion: String) -> (r: Diagnostic)
        ensures
            r@ == (DiagnosticV { suggestion: Some(suggestion@), ..self@ }),
    {
        Diagnostic { suggestion: Some(suggestion), ..self }
    }
}

/// A labelled error at `span`.
pub fn error(message: String, span: Loc, label: &str) -> (r: Diagnostic)
    ensures
        r@ == error_at(message@, span, label@),
{
    Diagnostic::new(Level::Error, message, span).with_label(String::from_str(label))
}

/// The text `annotate-snippets` renders for one annotated snippet: the
/// headline `level: message`, the `--> origin:line:col` pointer, and the
/// source lines around the byte range `start..end` with that range
/// underlined and labelled. It depends on these values alone.
pub uninterp spec fn snippet_text(
    source: Seq<char>,
    origin: Seq<char>,
    level: Level,
    message: Seq<char>,
    start: usize,
    end: usize,
    label: Seq<char>,
) -> Seq<char>;

/// Whether `span` names a byte range of `source` that starts and ends on
/// character boundaries.
pub open spec fn span_fits(source: &str, span: Loc) -> bool {
    &&& span.start <= span.end
    &&& is_char_boundary(source.spec_bytes(), span.start as int)
    &&& is_char_boundary(source.spec_bytes(), span.end as int)
}

/// What [`Diagnostic::render`] gives: the annotated snippet (labelled with
/// the diagnostic's label, or `here`), then a `help:` line for a
/// suggestion.
pub open spec fn rendered(d: DiagnosticV, source: Seq<char>, origin: Seq<char>) -> Seq<char> {
    let label = match d.label {
        Some(l) => l,
        None => "here"@,
    };
    let body = snippet_text(source, origin, d.level, d.message, d.span.start, d.span.end, label);
    match d.suggestion {
        Some(s) => body + "\nhelp: "@ + s + "\n"@,
        None => body,
    }
}

/// Renders one annotated snippet with `annotate-snippets`: `Snippet::source`
/// from line 1, with `origin` and folding, one annotation on
/// `start..end` at `level` with `label`, titled `message`, through
/// `Renderer::plain`. The crate panics on a range that leaves the source
/// or splits a character, so those are excluded; what the rendered text
/// holds is given by name only.
#[verifier::external_body]
fn render_snippet(
    source: &str,
    origin: &str,
    level: Level,
    message: &str,
    start: usize,
    end: usize,
    label: &str,
) -> (r: String)
    requires
        start <= end,
        is_char_boundary(source.spec_bytes(), start as int),
        is_char_boundary(source.spec_bytes(), end as int),
    ensures
        r@ == snippet_text(source@, origin@, level, message@, start, end, label@),
{
    let level = match level {
        Level::Error => annotate_snippets::Level::Error,
        Level::Warning => annotate_snippets::Level::Warning,
        Level::Note => annotate_snippets::Level::Note,
    };
    let snippet = Snippet::source(source).line_start(1).origin(origin).fold(true);
    let snippet = snippet.annotation(level.span(start..end).label(label));
    Renderer::plain().render(level.title(message).snippet(snippet)).to_string()
}

impl Diagnostic {
    /// Renders this diagnostic against `source`, the full text of the file
    /// its span was parsed from, in rustc's source-caret style, with a
    /// `help:` line for the suggestion.
    pub fn render(&self, source: &str, origin: &str) -> (r: String)
        requires
            span_fits(source, self.span),
        ensures
            r@ == rendered(self@, source@, origin@),
    {
        let label: &str = match &self.label {
            Some(l) => l.as_str(),
            None => "here",
        };
        let mut out = render_snippet(
            source,
            origin,
            self.level,
            self.message.as_str(),
            self.span.start,
            self.span.end,
            label,
        );
        match &self.suggestion {
            Some(s) => {
                push_str(&mut out, "\nhelp: ");
                push_str(&mut out, s.as_str());
                push_str(&mut out, "\n");
            },
            None => {},
        }
        out
    }
}

/// Names of the five analyses, in the order `cargo mvl check` runs them.
pub const TOOL_ORDER: [&'static str; 5] = ["limit", "total", "refine", "effect", "ifc"];

} // verus!
