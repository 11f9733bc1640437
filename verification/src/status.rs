//! The phase of a game.
use vstd::prelude::*;

verus! {

/// The phase of a game: not started, being played, every question done, or out of time.
#[derive(Debug, Clone, Copy, PartialEq, Eq, Structural)]
pub enum Status {
    Ready,
    Playing,
    Completed,
    TimeUp,
}

} // verus!
