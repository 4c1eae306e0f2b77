use vstd::prelude::*;

use crate::board::Session;
use crate::resources::initial_state;

verus! {

/// Top-level screen of a session.
#[derive(Clone, Copy, Debug, PartialEq, Eq, Hash, Structural)]
pub enum AppState {
    Menu,
    Playing,
    GameOver,
}

/// Phase of a sub-round while playing.
#[derive(Clone, Copy, Debug, PartialEq, Eq, Hash, Structural)]
pub enum PlayPhase {
    Selecting,
    Scoring,
    RoundResult,
}

/// The game's rule components taken together.
pub struct RedCenterPluginGroup;

impl RedCenterPluginGroup {
    /// Assembles the components into a session at the menu: the starting
    /// record and no tiles.
    pub fn build(self) -> (r: Session)
        ensures
            r.wf(),
            r.is_cleared(),
            r.state == initial_state(),
            r.app_state == AppState::Menu,
            r.phase == PlayPhase::Selecting,
    {
        Session::new()
    }
}

} // verus!
