//! The kinds of error that assembling a program can meet.
use vstd::prelude::*;

verus! {

/// The name of the intermediate build file.
pub const BUILD_FILE_NAME: &'static str = "build";

/// What went wrong with a program.
#[derive(Clone, Copy, Debug, PartialEq, Eq, Structural)]
pub enum CustomError {
    Instruction,
    Label,
    Directive,
    MalformedLine,
    NotEnoughMemory,
}

/// Errors met, each with the line where it was met.
pub struct ErrorLog {
    errs: Vec<(CustomError, usize)>,
}

} // verus!
