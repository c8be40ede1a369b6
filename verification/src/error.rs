//! Failures that building the model can report.

use vstd::prelude::*;

verus! {

/// Why a relation index or the whole model could not be built.
#[derive(Debug, Clone, Copy, PartialEq, Eq, Structural)]
pub enum ModelError {
    /// A foreign key or a relation edge designates an entry that its target
    /// store does not hold.
    DanglingReference,
    /// No chain of declared relations leads from the one kind to the other.
    UnreachablePair,
}

} // verus!
