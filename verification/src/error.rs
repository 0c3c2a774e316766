//! Error types for the INI document library.
//!
//! `ParseError` carries the 1-based line number at which malformed input was
//! found.  `Error` wraps either a parse failure or an I/O failure reported by
//! a caller that reads or writes streams.

use vstd::prelude::*;

verus! {

/// Declares `std::io::Error` so that the `Io` variant below can carry it.
/// The library only stores such a value; it never inspects it.
#[verifier::external_type_specification]
#[verifier::external_body]
pub struct ExIoError(std::io::Error);

/// Either an I/O failure (produced by callers that read or write streams)
/// or a parse failure with its line number.
#[derive(Debug)]
pub enum Error {
    /// Standard I/O errors
    Io(std::io::Error),
    /// Parsing errors
    Parse(ParseError),
}

/// A typed parse failure; the payload is the 1-based line number at which
/// the offending line was found.
#[derive(Debug, Clone, Copy, PartialEq, Eq, Structural)]
pub enum ParseError {
    /// A line starts with `[` but does not end with `]`
    IncorrectSection(usize),
    /// A non-blank line that is neither a section header nor an assignment
    IncorrectSyntax(usize),
    /// An assignment line whose key trims to nothing
    EmptyKey(usize),
}

impl From<ParseError> for Error {
    fn from(error: ParseError) -> (r: Self) {
        Error::Parse(error)
    }
}

impl vstd::std_specs::convert::FromSpecImpl<ParseError> for Error {
    open spec fn obeys_from_spec() -> bool {
        true
    }

    open spec fn from_spec(error: ParseError) -> Self {
        Error::Parse(error)
    }
}

} // verus!
