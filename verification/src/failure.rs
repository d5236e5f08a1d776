//! The ways in which a step of a refresh can fail.

use vstd::prelude::*;

verus! {

/// Why a fetch or an upsert came to nothing. A failure ends the branch that it
/// happened in and nothing else.
#[derive(Clone, Copy, Debug, PartialEq, Eq, Structural)]
pub enum Failure {
    /// The request did not get through, or the server refused it.
    Transport,
    /// The response did not have the expected shape.
    Decode,
    /// A node was to be put under a parent that has no node yet.
    PrecursorMissing,
}

} // verus!
