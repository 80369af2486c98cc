use vstd::prelude::*;

use std::collections::HashMap;

verus! {

/// A term with its count, as persisted.
pub struct Term {
    pub term: String,
    pub count: u32,
}

/// An ordered list of counted terms, as persisted.
pub struct TermList {
    pub terms: Vec<Term>,
}

/// A mapping from terms to counts, as persisted.
pub struct TermMap {
    pub terms: HashMap<String, u32>,
}

/// The step of a truncating file write that has just been carried out.
#[derive(Debug, Clone, Copy, PartialEq, Eq, Structural)]
pub enum WriteStep {
    /// The file was opened for writing, created if missing and truncated.
    Opened,
    /// The whole buffer was handed to the file.
    Written,
}

/// What a truncating file write does next.
#[derive(Debug, PartialEq, Eq)]
pub enum WriteAction<E> {
    /// Write the whole buffer into the opened file.
    WriteAll,
    /// Stop, with this result.
    Finish(Result<(), E>),
}

/// Decides how a truncating write of a buffer goes on once `step` has ended with `outcome`:
/// the buffer is written only into a file that opened, a failed open ends the write with its
/// error, and the write's own outcome is the final result.
pub fn write_file_truncate<E>(step: WriteStep, outcome: Result<(), E>) -> (r: WriteAction<E>)
    ensures
        step == WriteStep::Opened && outcome is Ok ==> r == WriteAction::<E>::WriteAll,
        step == WriteStep::Opened && outcome is Err ==> r == WriteAction::<E>::Finish(outcome),
        step == WriteStep::Written ==> r == WriteAction::<E>::Finish(outcome),
{
    match step {
        WriteStep::Opened => match outcome {
            Ok(()) => WriteAction::WriteAll,
            Err(e) => WriteAction::Finish(Err(e)),
        },
        WriteStep::Written => WriteAction::Finish(outcome),
    }
}

} // verus!
