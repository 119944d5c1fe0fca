//! The errors that compiling a rule can report.
use vstd::prelude::*;

verus! {

/// What went wrong with a rule's text.
#[derive(Clone, Copy, Debug, PartialEq, Eq, Structural)]
pub enum SsrErrorKind {
    /// No `==>>`, or more than one.
    Delimiter,
    /// The lexer could not read the text.
    Tokenize,
    /// A `$` not followed by a name.
    PlaceholderSyntax,
    /// A placeholder name used twice in one pattern or template.
    DuplicatePlaceholder,
    /// The pattern is none of the accepted kinds of syntax.
    InvalidPattern,
    /// The template is none of the accepted kinds of syntax.
    InvalidTemplate,
    /// The template names placeholders that the pattern does not define.
    UndefinedPlaceholder,
}

/// An error in a rule: its kind, a message for people, and the placeholder names
/// it concerns (the repeated one, or the undefined ones in order).
#[derive(Debug)]
pub struct SsrError {
    pub kind: SsrErrorKind,
    pub message: String,
    pub names: Vec<String>,
}

impl SsrError {
    pub fn new(kind: SsrErrorKind, message: String, names: Vec<String>) -> (e: SsrError)
        ensures
            e.kind == kind,
            e.message@ == message@,
            e.names@ == names@,
    {
        SsrError { kind, message, names }
    }

    /// An error that concerns no placeholder name.
    pub fn plain(kind: SsrErrorKind, message: &str) -> (e: SsrError)
        ensures
            e.kind == kind,
            e.message@ == message@,
            e.names@.len() == 0,
    {
        SsrError::new(kind, message.to_owned(), Vec::new())
    }
}

} // verus!
