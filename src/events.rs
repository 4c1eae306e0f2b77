use vstd::prelude::*;

verus! {

/// Emitted when the play area has been evaluated.
#[derive(Clone, Debug)]
pub struct ScoreCalculatedEvent {
    pub base: u32,
    pub multiplier: u32,
    pub total: u32,
    pub pattern_name: String,
}

/// Emitted when a sub-round ends: whether its target was reached.
#[derive(Clone, Copy, Debug, PartialEq, Eq, Structural)]
pub struct RoundEndedEvent {
    pub passed: bool,
}

} // verus!
