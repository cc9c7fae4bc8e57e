//! The errors a parser reports.

use vstd::prelude::*;

verus! {

/// An I/O error passes through the parser without being looked into.
#[verifier::external_type_specification]
#[verifier::external_body]
pub struct ExIoError(std::io::Error);

/// Error returned by the parser.
#[derive(Debug)]
pub struct ParseError {
    /// The line in which the error occurred, without its line break. This is
    /// `None` for I/O errors.
    pub line: Option<Vec<u8>>,
    /// Error detail.
    pub kind: ParseErrorKind,
}

/// Error detail for [`ParseError`].
#[derive(Debug)]
pub enum ParseErrorKind {
    /// Key contains invalid UTF-8.
    KeyInvalidUtf8,
    /// Timestamp (key `ts`) is invalid.
    InvalidTimestamp,
    /// Log level (key `lvl`) is not valid.
    InvalidLevel,
    /// File and line number from where the message originated (key `file`)
    /// is invalid.
    InvalidFile,
    /// A value contains invalid UTF-8.
    InvalidValue,
    /// Reading the input failed.
    Io(std::io::Error),
}

/// What a [`ParseError`] says, with the line as a sequence of bytes.
pub struct ErrorView {
    pub line: Option<Seq<u8>>,
    pub kind: ParseErrorKind,
}

impl View for ParseError {
    type V = ErrorView;

    open spec fn view(&self) -> ErrorView {
        ErrorView {
            line: match self.line {
                Some(line) => Some(line@),
                None => None,
            },
            kind: self.kind,
        }
    }
}

} // verus!
