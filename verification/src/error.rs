//! The flat failure taxonomy of the engine.
//!
//! Every fallible operation reports exactly one of these kinds and aborts the
//! run that produced it; there are no retries and no partial recovery.
//! Parse-time kinds (`ParseError`, `TrailingInput`) are distinguished from
//! evaluation-time kinds so a caller can tell a bad flow definition from a bad
//! runtime condition.

use vstd::prelude::*;

verus! {

/// One failure of the engine, carrying a human-readable detail string.
#[derive(Debug, Clone, PartialEq, Eq)]
pub enum Error {
    /// An operation was applied to values whose dynamic types do not support it.
    TypeError(String),
    /// A `$name` access found no binding for `name`.
    UndefinedVariable(String),
    /// Expression source text that the grammar does not match.
    ParseError(String),
    /// The grammar matched a strict prefix; the payload is the leftover text.
    TrailingInput(String),
    /// The prompt capability could not be constructed.
    FailedToCreatePrompt(String),
    /// The prompt capability started but did not yield a usable value.
    FailedToRunPrompt(String),
    /// A condition selected a branch key that its branch table does not hold.
    MissingBranch(String),
    /// A transition named a node id absent from the graph.
    InvalidTransition(String),
    /// An array or string index was outside the valid range.
    IndexOutOfBounds(String),
}

/// Mathematical mirror of [`Error`]: the same kinds over character sequences.
pub enum SpecError {
    TypeError(Seq<char>),
    UndefinedVariable(Seq<char>),
    ParseError(Seq<char>),
    TrailingInput(Seq<char>),
    FailedToCreatePrompt(Seq<char>),
    FailedToRunPrompt(Seq<char>),
    MissingBranch(Seq<char>),
    InvalidTransition(Seq<char>),
    IndexOutOfBounds(Seq<char>),
}

impl View for Error {
    type V = SpecError;

    open spec fn view(&self) -> SpecError {
        match self {
            Error::TypeError(s) => SpecError::TypeError(s@),
            Error::UndefinedVariable(s) => SpecError::UndefinedVariable(s@),
            Error::ParseError(s) => SpecError::ParseError(s@),
            Error::TrailingInput(s) => SpecError::TrailingInput(s@),
            Error::FailedToCreatePrompt(s) => SpecError::FailedToCreatePrompt(s@),
            Error::FailedToRunPrompt(s) => SpecError::FailedToRunPrompt(s@),
            Error::MissingBranch(s) => SpecError::MissingBranch(s@),
            Error::InvalidTransition(s) => SpecError::InvalidTransition(s@),
            Error::IndexOutOfBounds(s) => SpecError::IndexOutOfBounds(s@),
        }
    }
}

impl SpecError {
    /// The full message of the failure, prefix included.
    pub open spec fn message_seq(self) -> Seq<char> {
        match self {
            SpecError::TypeError(s) => "Type error: "@ + s,
            SpecError::UndefinedVariable(s) => "Undefined variable: "@ + s,
            SpecError::ParseError(s) => "Parse error: "@ + s,
            SpecError::TrailingInput(s) => "Unexpected trailing input: "@ + s,
            SpecError::FailedToCreatePrompt(s) => "Failed to create prompt: "@ + s,
            SpecError::FailedToRunPrompt(s) => "Failed to run prompt: "@ + s,
            SpecError::MissingBranch(s) => "Missing branch: "@ + s,
            SpecError::InvalidTransition(s) => "Invalid transition: "@ + s,
            SpecError::IndexOutOfBounds(s) => "Index out of bounds: "@ + s,
        }
    }
}

impl Error {
    /// The full message of the failure, as shown to a user.
    pub fn message(&self) -> (r: String)
        ensures
            r@ == self@.message_seq(),
    {
        match self {
            Error::TypeError(s) => String::from_str("Type error: ").concat(s.as_str()),
            Error::UndefinedVariable(s) => String::from_str("Undefined variable: ").concat(
                s.as_str(),
            ),
            Error::ParseError(s) => String::from_str("Parse error: ").concat(s.as_str()),
            Error::TrailingInput(s) => String::from_str("Unexpected trailing input: ").concat(
                s.as_str(),
            ),
            Error::FailedToCreatePrompt(s) => String::from_str("Failed to create prompt: ").concat(
                s.as_str(),
            ),
            Error::FailedToRunPrompt(s) => String::from_str("Failed to run prompt: ").concat(
                s.as_str(),
            ),
            Error::MissingBranch(s) => String::from_str("Missing branch: ").concat(s.as_str()),
            Error::InvalidTransition(s) => String::from_str("Invalid transition: ").concat(
                s.as_str(),
            ),
            Error::IndexOutOfBounds(s) => String::from_str("Index out of bounds: ").concat(
                s.as_str(),
            ),
        }
    }
}

} // verus!
