use vstd::prelude::*;

verus! {

/// What can go wrong while a command runs. Every error is recoverable: the
/// run stops and the state is kept, without rolling back operands already
/// taken. A command that finds too few operands fails before it takes any,
/// except that an indexed command takes its index first; a command that
/// rejects an operand's kind has taken that operand and those before it.
#[derive(Debug, Clone, Copy, PartialEq, Eq, Structural)]
pub enum Error {
    EmptyStack,
    OutOfBounds,
    InvalidAssignArg,
    InvalidIncludeArg,
    InvalidApplyArg,
    InvalidSplitArg,
    InvalidGetArg,
    InvalidMoveArg,
    InvalidGrabArg,
    NoBlockStarted,
}

/// The message that each error shows a person.
pub open spec fn error_text(e: Error) -> Seq<char> {
    match e {
        Error::EmptyStack => "Error, empty stack"@,
        Error::OutOfBounds => "Error, out of bounds"@,
        Error::InvalidAssignArg => "Error, can only assign value to a variable name"@,
        Error::InvalidIncludeArg => "Error, include can only take a string"@,
        Error::InvalidApplyArg => "Error, can only execute blocks"@,
        Error::InvalidSplitArg => "Error, split takes a number and a block or string"@,
        Error::InvalidGetArg => "Error, get takes a number and a block or string"@,
        Error::InvalidMoveArg => "Error, move takes a number and one other value"@,
        Error::InvalidGrabArg => "Error, can only take number as grab argument"@,
        Error::NoBlockStarted => "Error, cannot end a block when none has been started"@,
    }
}

impl Error {
    /// A message for a person.
    pub fn message(&self) -> (r: &'static str)
        ensures
            r@ == error_text(*self),
    {
        proof {
            reveal_strlit("Error, empty stack");
            reveal_strlit("Error, out of bounds");
            reveal_strlit("Error, can only assign value to a variable name");
            reveal_strlit("Error, include can only take a string");
            reveal_strlit("Error, can only execute blocks");
            reveal_strlit("Error, split takes a number and a block or string");
            reveal_strlit("Error, get takes a number and a block or string");
            reveal_strlit("Error, move takes a number and one other value");
            reveal_strlit("Error, can only take number as grab argument");
            reveal_strlit("Error, cannot end a block when none has been started");
        }
        match self {
            Error::EmptyStack => "Error, empty stack",
            Error::OutOfBounds => "Error, out of bounds",
            Error::InvalidAssignArg => "Error, can only assign value to a variable name",
            Error::InvalidIncludeArg => "Error, include can only take a string",
            Error::InvalidApplyArg => "Error, can only execute blocks",
            Error::InvalidSplitArg => "Error, split takes a number and a block or string",
            Error::InvalidGetArg => "Error, get takes a number and a block or string",
            Error::InvalidMoveArg => "Error, move takes a number and one other value",
            Error::InvalidGrabArg => "Error, can only take number as grab argument",
            Error::NoBlockStarted => "Error, cannot end a block when none has been started",
        }
    }
}

} // verus!
