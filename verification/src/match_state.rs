//! Per-team state tracked over the course of a match.

use vstd::prelude::*;

verus! {

/// One team's standing: its roster, who is still alive, and whether its
/// bed has been destroyed (after which its players stop respawning).
#[derive(Clone, Debug, Default)]
pub struct TeamState {
    pub players: Vec<String>,
    pub players_alive: Vec<String>,
    pub bed_destroyed: bool,
}

impl TeamState {
    pub fn new() -> (r: TeamState)
        ensures
            r.players@.len() == 0,
            r.players_alive@.len() == 0,
            !r.bed_destroyed,
    {
        TeamState { players: Vec::new(), players_alive: Vec::new(), bed_destroyed: false }
    }

    /// A team is out of the match once its bed is gone and nobody on it
    /// is left alive.
    pub fn is_eliminated(&self) -> (r: bool)
        ensures
            r == (self.bed_destroyed && self.players_alive@.len() == 0),
    {
        self.bed_destroyed && self.players_alive.len() == 0
    }
}

} // verus!
