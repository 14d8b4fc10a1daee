//! The errors that the library reports.
use vstd::prelude::*;

verus! {

/// Why an argument was refused.
#[derive(Clone, Copy, Debug, PartialEq, Eq, Structural)]
pub enum ProofError {
    /// Paired vectors do not have the lengths that the operation needs.
    LengthMismatch,
}

} // verus!
