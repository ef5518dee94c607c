//! Errors of the parser, with the place in the source that they are about.
use vstd::prelude::*;
use std::ops::Range;
use crate::ast::copy_span;

verus! {

/// How serious a diagnostic is.
#[derive(Debug, Clone, Copy, PartialEq, Eq, Structural)]
pub enum Severity {
    Bug,
    Error,
    Warning,
    Note,
    Help,
}

/// A parse error with its source location.
#[derive(Debug)]
pub struct ParseError {
    pub message: String,
    pub span: Range<usize>,
    pub file_id: usize,
    pub severity: Severity,
    pub notes: Vec<String>,
}

impl ParseError {
    /// An error with no notes.
    pub fn error(message: String, span: Range<usize>, file_id: usize) -> (e: ParseError)
        ensures
            e.message == message,
            e.span == span,
            e.file_id == file_id,
            e.severity == Severity::Error,
            e.notes@.len() == 0,
    {
        ParseError { message, span, file_id, severity: Severity::Error, notes: Vec::new() }
    }

    /// A warning with no notes.
    pub fn warning(message: String, span: Range<usize>, file_id: usize) -> (e: ParseError)
        ensures
            e.message == message,
            e.span == span,
            e.file_id == file_id,
            e.severity == Severity::Warning,
            e.notes@.len() == 0,
    {
        ParseError { message, span, file_id, severity: Severity::Warning, notes: Vec::new() }
    }

    /// The same diagnostic with one more note at the end.
    pub fn with_note(self, note: String) -> (e: ParseError)
        ensures
            e.message == self.message,
            e.span == self.span,
            e.file_id == self.file_id,
            e.severity == self.severity,
            e.notes@ == self.notes@.push(note),
    {
        let mut e = self;
        e.notes.push(note);
        e
    }
}

/// An error, where there is one, is an error (not a warning) of the file `file_id`.
pub open spec fn error_from<T>(r: Result<T, ParseError>, file_id: usize) -> bool {
    r matches Err(e) ==> e.file_id == file_id && e.severity == Severity::Error
}

/// Every diagnostic is an error (not a warning) of the file `file_id`.
pub open spec fn errors_from(es: Seq<ParseError>, file_id: usize) -> bool {
    forall|k: int| 0 <= k < es.len() ==> (#[trigger] es[k]).file_id == file_id && es[k].severity == Severity::Error
}

/// Where the expressions being parsed come from: the span of their list item and the file.
pub struct ParseContext {
    pub span: Range<usize>,
    pub file_id: usize,
}

/// An error at the context's span.
pub fn error_in(cx: &ParseContext, message: &str) -> (e: ParseError)
    ensures
        e.message@ == message@,
        e.span == cx.span,
        e.file_id == cx.file_id,
        e.severity == Severity::Error,
        e.notes@.len() == 0,
{
    ParseError::error(message.to_owned(), copy_span(&cx.span), cx.file_id)
}

} // verus!
