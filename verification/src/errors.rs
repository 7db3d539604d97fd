//! The single recoverable failure of the alignment engine.

use vstd::prelude::*;

verus! {

/// Raised when a sequence taking part in an alignment is empty: the
/// dynamic-programming recurrence is undefined with a zero-sized
/// dimension.
#[derive(Clone, Copy, PartialEq, Eq, Structural, Debug)]
pub enum AlignError {
    InvalidInput,
}

impl AlignError {
    /// Descriptive text of the failure, for the caller to surface.
    pub fn message(&self) -> (m: String)
        ensures
            m@ == "alignment requires non-empty sequences"@,
    {
        String::from_str("alignment requires non-empty sequences")
    }
}

} // verus!
