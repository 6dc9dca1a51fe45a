//! Errors that the library's own logic reports.
use vstd::prelude::*;

use crate::interaction::FieldSelection;

verus! {

/// Why an operation of the library failed.
#[derive(Debug, PartialEq, Eq)]
pub enum ToroError {
    /// A task line or description that the todo.txt grammar does not accept; holds the text.
    SyntaxError(String),
    /// A date that could not be read; holds the text.
    DateInputError(String),
    /// A date computation left the representable range.
    DateOverflowError,
    /// A value that is not valid for the field it was given for.
    InvalidValue(String, FieldSelection),
    /// A line of the fuzzy finder's answer that does not start with a number.
    InvalidFzfResponse,
    /// A task was expected to name a project and does not.
    ProjectNotFound,
    /// The user ended the input.
    EofError,
    /// The system clock reads a time for which there is no date (before 1970,
    /// or past the dates chrono holds).
    ClockError,
    /// A priority that is neither a capital letter nor `-`; holds the first valid priority.
    InvalidPriorityError(char),
}

} // verus!
