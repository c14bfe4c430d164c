use vstd::prelude::*;

verus! {

/// Types of errors that can occur while parsing
#[derive(Debug, PartialEq, Eq, Clone, Copy, Structural)]
pub enum ParseErrorKind {
    /// The input ended while a token, a value or a closing brace was still expected
    UnexpectedEof,
    /// A character was encountered that is invalid in that context
    InvalidCharacter,
}

/// Error type for errors encountered in parsing
#[derive(Debug, PartialEq, Eq, Clone, Copy, Structural)]
pub struct ParseError {
    /// The type of parsing error that occurred
    pub kind: ParseErrorKind,
}

impl ParseError {
    /// Says in words what went wrong.
    pub fn message(&self) -> (text: String)
        ensures
            text@ == match self.kind {
                ParseErrorKind::UnexpectedEof => "unexpected eof"@,
                ParseErrorKind::InvalidCharacter => "invalid character"@,
            },
    {
        match self.kind {
            ParseErrorKind::UnexpectedEof => "unexpected eof".to_owned(),
            ParseErrorKind::InvalidCharacter => "invalid character".to_owned(),
        }
    }
}

} // verus!
