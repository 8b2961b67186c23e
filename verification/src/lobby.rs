//! Pre-match lobby state: who is waiting, and which team each waiting
//! player has picked.

use vstd::prelude::*;
use std::collections::HashMap;

verus! {

/// The players in the lobby: player name to chosen team, and how many
/// players have not picked a team yet (the match can start at zero).
#[derive(Debug, Default)]
pub struct LobbyPlayerState {
    pub players: HashMap<String, String>,
    pub without_team: u16,
}

impl LobbyPlayerState {
    pub fn new() -> (r: LobbyPlayerState)
        ensures
            r.without_team == 0u16,
    {
        LobbyPlayerState { players: HashMap::new(), without_team: 0 }
    }
}

} // verus!
