//! What the operations of the tree can fail with.

use vstd::prelude::*;

verus! {

/// Why an operation on the tree, or the check of a proof, failed.
#[derive(Clone, Copy, Debug, PartialEq, Eq, Structural)]
pub enum Error {
    /// The commitment is not witnessed by the tree.
    NotFound,
    /// The tier that the operation extends holds as many items as fit.
    CapacityExceeded,
    /// The root that the proof leads to is not the expected one.
    ProofVerificationFailed,
}

impl Error {
    /// A short text for the error.
    pub fn message(&self) -> (text: &'static str)
        ensures
            text@ == match self {
                Error::NotFound => "commitment not found"@,
                Error::CapacityExceeded => "capacity exceeded"@,
                Error::ProofVerificationFailed => "proof verification failed"@,
            },
    {
        match self {
            Error::NotFound => "commitment not found",
            Error::CapacityExceeded => "capacity exceeded",
            Error::ProofVerificationFailed => "proof verification failed",
        }
    }
}

} // verus!
