use crate::board::Team;
use vstd::prelude::*;

verus! {

/// How this instance takes part in a game.
#[derive(Copy, Clone, PartialEq, Eq, Structural, Debug)]
pub enum Player {
    /// Both sides play on this instance.
    Local,
    /// This instance hosts a networked game and plays white.
    Server,
    /// This instance joins a hosted game and plays black.
    Client,
}

impl Player {
    /// The side that this instance plays in a networked game.
    pub fn local_team(&self) -> (r: Team)
        ensures
            *self is Client ==> r == Team::Black,
            !(*self is Client) ==> r == Team::White,
    {
        match self {
            Player::Client => Team::Black,
            _ => Team::White,
        }
    }
}

} // verus!
