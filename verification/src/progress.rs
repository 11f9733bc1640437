//! What the game reports of the question being typed.
use vstd::prelude::*;

verus! {

/// The progress on the current question: reading characters typed for certain and at best,
/// the guide, and the keys typed so far.
#[derive(Debug, Clone, PartialEq)]
pub struct Progress {
    pub completed_chars: usize,
    pub total_chars: usize,
    pub guide: String,
    pub typed_romaji: String,
    pub typed_romaji_count: usize,
}

} // verus!
