//! Outcome codes of the commands of the spreadsheet.
use vstd::prelude::*;

verus! {

/// Represents the outcome of a command.
#[derive(Debug, Clone, Copy, PartialEq, Eq, Structural)]
pub enum StatusCode {
    /// Command executed successfully.
    Success,
    /// Invalid command syntax or format.
    InvalidCmd,
    /// Overflow error occurred.
    Overflow,
    /// Invalid cell reference detected.
    InvalidCell,
    /// The specified range is invalid.
    InvalidRange,
    /// Cyclic dependency detected in processing.
    CyclicDep,
    /// No operation available to undo.
    NothingToUndo,
    /// No operation available to redo.
    NothingToRedo,
    /// The command exceeds the valid sheet boundaries.
    OutOfBounds,
    /// The provided value is not valid.
    InvalidValue,
    /// An internal error has occurred.
    InternalError,
}


impl StatusCode {
    /// The message shown for the code. Every code but `InternalError` has one.
    pub fn message(self) -> (r: &'static str)
        requires
            self != StatusCode::InternalError,
        ensures
            r@ == status_text(self),
    {
        proof {
            reveal_strlit("ok");
            reveal_strlit("invalid command");
            reveal_strlit("overflow occurred");
            reveal_strlit("invalid cell");
            reveal_strlit("invalid range");
            reveal_strlit("cyclic dependency found");
            reveal_strlit("Nothing to undo");
            reveal_strlit("Nothing to redo");
            reveal_strlit("scrolling out of sheet");
            reveal_strlit("invalid value");
        }
        match self {
            StatusCode::Success => "ok",
            StatusCode::InvalidCmd => "invalid command",
            StatusCode::Overflow => "overflow occurred",
            StatusCode::InvalidCell => "invalid cell",
            StatusCode::InvalidRange => "invalid range",
            StatusCode::CyclicDep => "cyclic dependency found",
            StatusCode::NothingToUndo => "Nothing to undo",
            StatusCode::NothingToRedo => "Nothing to redo",
            StatusCode::OutOfBounds => "scrolling out of sheet",
            _ => "invalid value",
        }
    }
}

/// The message of each code (none for `InternalError`).
pub open spec fn status_text(c: StatusCode) -> Seq<char> {
    match c {
        StatusCode::Success => "ok"@,
        StatusCode::InvalidCmd => "invalid command"@,
        StatusCode::Overflow => "overflow occurred"@,
        StatusCode::InvalidCell => "invalid cell"@,
        StatusCode::InvalidRange => "invalid range"@,
        StatusCode::CyclicDep => "cyclic dependency found"@,
        StatusCode::NothingToUndo => "Nothing to undo"@,
        StatusCode::NothingToRedo => "Nothing to redo"@,
        StatusCode::OutOfBounds => "scrolling out of sheet"@,
        StatusCode::InvalidValue => "invalid value"@,
        StatusCode::InternalError => Seq::empty(),
    }
}

} // verus!
