//! The two players and the outcome of a finished game.

use vstd::prelude::*;

verus! {

/// One of the two sides. `P1` moves first and the sides alternate every ply.
#[derive(Copy, Clone, Eq, PartialEq, Debug, Hash, Structural)]
pub enum Player {
    P1,
    P2,
}

/// How a finished game ended.
#[derive(Copy, Clone, Eq, PartialEq, Debug, Hash, Structural)]
pub enum GameResult {
    Win(Player),
    Draw,
}

/// What a board cell holds: nothing, or the disc of one player.
pub type Disc = Option<Player>;

/// The opponent of `p`.
pub open spec fn other(p: Player) -> Player {
    match p {
        Player::P1 => Player::P2,
        Player::P2 => Player::P1,
    }
}

/// The player who moves after `p`.
pub fn next_turn(p: Player) -> (q: Player)
    ensures
        q == other(p),
{
    match p {
        Player::P1 => Player::P2,
        Player::P2 => Player::P1,
    }
}

} // verus!
