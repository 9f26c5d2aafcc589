//! The ways in which matching a line, or binding what was captured, can fail.

use vstd::prelude::*;

verus! {

/// Why a line could not be matched or its captures could not be bound.
#[derive(Clone, Copy, Debug, PartialEq, Eq, Structural)]
pub enum MatchError {
    /// The template holds two placeholder markers with no literal text between them.
    InvalidPattern,
    /// A literal fragment of the template does not occur in the rest of the input.
    FragmentNotFound,
    /// More slots were asked for than the match produced captures.
    TooManyVariables,
    /// The text of a capture is not a value of the type of its slot.
    ConversionError,
}

impl MatchError {
    /// The diagnostic text of each kind of failure.
    pub open spec fn message_text(self) -> Seq<char> {
        match self {
            MatchError::InvalidPattern => "Invalid pattern, found consecutive captures {}{}."@,
            MatchError::FragmentNotFound => "Could not match pattern to string."@,
            MatchError::TooManyVariables => "Too many variables"@,
            MatchError::ConversionError => "Incorrect type for captured variable"@,
        }
    }

    /// The diagnostic text that names this kind of failure.
    pub fn message(&self) -> (text: &'static str)
        ensures
            text@ == self.message_text(),
    {
        match self {
            MatchError::InvalidPattern => "Invalid pattern, found consecutive captures {}{}.",
            MatchError::FragmentNotFound => "Could not match pattern to string.",
            MatchError::TooManyVariables => "Too many variables",
            MatchError::ConversionError => "Incorrect type for captured variable",
        }
    }
}

} // verus!
