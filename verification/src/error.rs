//! Error values reported by parsing, object insertion, and reference
//! resolution.

use vstd::prelude::*;

verus! {

/// Errors that can occur while parsing source text or processing the
/// resulting objects. Every error is fatal to the operation that raised it.
#[derive(Debug)]
pub enum Error {
    /// Reading a file failed; the payload is a human-readable message.
    Io(String),
    /// A directive on the given line is malformed.
    Parse { line: usize, message: String },
    /// A definition names a type that was never declared.
    UndeclaredType(String, usize),
    /// A reference names a type that was never declared, found at resolution
    /// time: type name, identifier, line.
    InvalidType(String, String, usize),
    /// Two objects share the same type name and identifier: type name,
    /// identifier, line of the second definition.
    DuplicateDefinition(String, String, usize),
    /// Importing the named file failed, wrapping the underlying cause.
    Import(String, Box<Error>),
    /// A file imports itself, directly or through other imports.
    CyclicImport(String),
    /// A macro declaration's pattern is not a valid regular expression.
    InvalidMacroPattern(String),
}

/// Mathematical image of an [`Error`]: the same shape over character
/// sequences.
#[verifier::ext_equal]
pub enum ErrorModel {
    Io(Seq<char>),
    Parse { line: usize, message: Seq<char> },
    UndeclaredType(Seq<char>, usize),
    InvalidType(Seq<char>, Seq<char>, usize),
    DuplicateDefinition(Seq<char>, Seq<char>, usize),
    Import(Seq<char>, Box<ErrorModel>),
    CyclicImport(Seq<char>),
    InvalidMacroPattern(Seq<char>),
}

/// The model of an error value.
pub open spec fn error_model(e: &Error) -> ErrorModel
    decreases e,
{
    match e {
        Error::Io(m) => ErrorModel::Io(m@),
        Error::Parse { line, message } => ErrorModel::Parse { line: *line, message: message@ },
        Error::UndeclaredType(t, l) => ErrorModel::UndeclaredType(t@, *l),
        Error::InvalidType(t, i, l) => ErrorModel::InvalidType(t@, i@, *l),
        Error::DuplicateDefinition(t, i, l) => ErrorModel::DuplicateDefinition(t@, i@, *l),
        Error::Import(p, inner) => ErrorModel::Import(p@, Box::new(error_model(inner))),
        Error::CyclicImport(p) => ErrorModel::CyclicImport(p@),
        Error::InvalidMacroPattern(p) => ErrorModel::InvalidMacroPattern(p@),
    }
}

impl View for Error {
    type V = ErrorModel;

    open spec fn view(&self) -> ErrorModel {
        error_model(self)
    }
}

} // verus!
