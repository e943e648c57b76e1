//! What the library hands back where a call may need bytes that only the
//! caller can read.

use crate::error::BlockError;
use vstd::prelude::*;

verus! {

/// The outcome of one step of a lookup or of a search.
#[derive(Debug, PartialEq, Eq)]
pub enum Step<T> {
    /// The work is finished, with this result.
    Done(T),
    /// The caller reads `len` bytes at `offset`, or as many as the file holds
    /// there, and hands them to the next step.
    Read { offset: u64, len: usize },
    /// The work has failed.
    Failed(BlockError),
}

impl<T: View> View for Step<T> {
    type V = Step<T::V>;

    open spec fn view(&self) -> Step<T::V> {
        match *self {
            Step::Done(t) => Step::Done(t@),
            Step::Read { offset, len } => Step::Read { offset, len },
            Step::Failed(e) => Step::Failed(e),
        }
    }
}

} // verus!
