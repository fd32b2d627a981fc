//! Failures reported by root and proof construction.

use vstd::prelude::*;

verus! {

/// Why a root or a proof could not be computed.
#[derive(Debug, Clone, Copy, PartialEq, Eq, Structural)]
pub enum MerkleError {
    /// The leaf sequence is too short for the request.
    InvalidInput,
    /// The target leaf does not occur in the leaf sequence.
    LeafNotFound,
}

} // verus!
