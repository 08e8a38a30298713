//! Errors reported by the parsers.
use vstd::prelude::*;

verus! {

/// Whether a failure lets a caller try another production at the same place.
#[derive(Clone, Copy, Debug, PartialEq, Eq, Structural)]
pub enum Severity {
    /// The production's leading token did not match; nothing was consumed.
    Recoverable,
    /// An opening delimiter matched and the body after it is malformed.
    Fatal,
}

/// The coarse reason for a failure.
#[derive(Clone, Copy, Debug, PartialEq, Eq, Structural)]
pub enum ErrorKind {
    /// A character that no rule accepts at this position (or the end of input).
    UnexpectedCharacter,
    /// No number starts at this position.
    InvalidNumber,
    /// The input ended inside a string.
    UnterminatedString,
    /// A backslash in a string is not followed by a recognised escape.
    InvalidEscape,
    /// The input ended before an array was closed.
    UnterminatedArray,
    /// The input ended before an object was closed.
    UnterminatedObject,
}

/// A parse failure: its severity, its reason and the byte offset, counted
/// from the start of the input handed to the parser, where it was detected.
#[derive(Clone, Copy, Debug, PartialEq, Eq, Structural)]
pub struct ParseError {
    pub severity: Severity,
    pub kind: ErrorKind,
    pub position: usize,
}

/// A recoverable failure at `position`.
pub open spec fn no_match(kind: ErrorKind, position: int) -> ParseError {
    ParseError { severity: Severity::Recoverable, kind, position: position as usize }
}

/// A fatal failure at `position`.
pub open spec fn failure(kind: ErrorKind, position: int) -> ParseError {
    ParseError { severity: Severity::Fatal, kind, position: position as usize }
}

impl ParseError {
    /// True for a failure after which no other production may be tried.
    pub fn is_fatal(&self) -> (r: bool)
        ensures
            r == (self.severity == Severity::Fatal),
    {
        match self.severity {
            Severity::Fatal => true,
            Severity::Recoverable => false,
        }
    }
}

} // verus!
