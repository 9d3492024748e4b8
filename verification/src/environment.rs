//! The state of a round of the game.

use vstd::prelude::*;

verus! {

/// The mode of a round.
pub enum GameMode {
    Deathmatch,
    Points,
    Assassin,
    Juggernaut,
    Rebound,
    Charge,
    Marksman,
    Shoccer,
    Vortex,
    Unknown,
}

/// The wind of a round: its side and its strength.
pub enum Wind {
    Left(u8),
    Right(u8),
}

/// What a round is played under.
pub struct Environment {
    pub mode: GameMode,
    pub wind: Wind,
}

} // verus!
