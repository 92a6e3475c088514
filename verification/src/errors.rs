//! Error taxonomy of the read path.

use vstd::prelude::*;

verus! {

/// Failures surfaced by the read path.
///
/// Exhaustion of an iterator is not an error: it is a normal terminal state,
/// reported by `peek` returning `None`.
#[derive(Clone, Copy, PartialEq, Eq, Structural, Debug)]
pub enum Error {
    /// A buffer handed to `Block::decode` does not obey the block wire
    /// layout: it is shorter than the two-byte footer, or the footer claims
    /// more offsets than the buffer can hold.
    MalformedBlock,
    /// An underlying source of a merge failed to advance; the failure is
    /// propagated to the caller rather than swallowed.
    SourceFailure,
}

impl Error {
    /// A short human-readable description of the error.
    pub fn message(&self) -> (r: &'static str)
        ensures
            (*self is MalformedBlock) ==> r@ == "malformed block"@,
            (*self is SourceFailure) ==> r@ == "source failed to advance"@,
    {
        match self {
            Error::MalformedBlock => "malformed block",
            Error::SourceFailure => "source failed to advance",
        }
    }
}

} // verus!
