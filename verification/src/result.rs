//! What the engine answers to one key.
use vstd::prelude::*;

verus! {

/// The engine's answer to one key.
#[derive(Debug, Clone, Copy, PartialEq, Eq, Structural)]
pub enum EngineInputResult {
    /// The key was accepted; the reading is not complete yet.
    Accepted,
    /// The key was accepted and completed the reading.
    Completed,
    /// The key was rejected.
    Rejected,
    /// The reading was already complete, so no key is accepted.
    AlreadyCompleted,
}

} // verus!
