//! Player-facing chat commands of the lobby.

use vstd::prelude::*;

verus! {

/// A parsed lobby command.
#[derive(Debug, Clone)]
pub enum BedwarsCommand {
    /// Join the named team.
    TeamJoin { team_name: String },
}

} // verus!
