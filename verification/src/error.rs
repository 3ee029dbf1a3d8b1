//! The error taxonomy of the rules engine: a rejected move, a violated
//! internal invariant, or a failure reported by an input/output collaborator.

use vstd::prelude::*;

verus! {

#[derive(Clone, Copy, Debug, PartialEq, Eq, Structural)]
pub enum GoError {
    /// The requested move targets an occupied or out-of-bounds cell; the
    /// game state is left unchanged.
    InvalidMove,
    /// An operation was asked to break an internal invariant (for example,
    /// initializing liberties twice for one position); the operation stops
    /// without mutating state.
    InternalInvariant,
    /// An input/output collaborator failed; surfaced unchanged to the caller.
    Io,
}

} // verus!
