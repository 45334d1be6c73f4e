//! Positions reached by random play, for trying the library out.

use vstd::prelude::*;
use crate::bindings::{draw_between, draw_index, seeded_rng};
use crate::board::{
    get_legal, lemma_after, lemma_after_keeps_shape, lemma_legal_moves, play, GameState, Position,
};
use crate::geometry::GameGlobals;
use crate::lines::result;
use crate::padded::lemma_empty_board;

verus! {

/// Whether a state can come up in a game that is still on: the board is well
/// formed, no disc floats, the player to move fits the number of discs, and
/// there is no result yet.
pub open spec fn in_play(p: Position) -> bool {
    &&& p.wf()
    &&& p.gravity()
    &&& p.turn_by_parity()
    &&& p.result() is None
}

/// `n` positions, each reached from the empty board by random legal moves.
///
/// The number of moves of each position is drawn from `1..depth` by a
/// generator with the seed 1; the position with the number `i` is then played
/// by a generator with the seed `i`.
pub fn get_random_positions(depth: i32, n: usize, game_globals: &GameGlobals) -> (positions: Vec<
    GameState,
>)
    requires
        game_globals.wf(),
        game_globals.dims().0 > 0,
        game_globals.dims().1 > 0,
        n > 0 ==> depth > 1,
    ensures
        positions@.len() == n,
        forall|i: int|
            0 <= i < n ==> in_play((#[trigger] positions@[i])@) && positions@[i]@.rows
                == game_globals.dims().0 && positions@[i]@.cols == game_globals.dims().1
                && positions@[i]@.discs() < depth,
{
    let mut rng = seeded_rng(1);
    let mut positions: Vec<GameState> = Vec::new();
    let mut i: usize = 0;
    while i < n
        invariant
            game_globals.wf(),
            game_globals.dims().0 > 0,
            game_globals.dims().1 > 0,
            n > 0 ==> depth > 1,
            i <= n,
            positions@.len() == i,
            forall|k: int|
                0 <= k < i ==> in_play((#[trigger] positions@[k])@) && positions@[k]@.rows
                    == game_globals.dims().0 && positions@[k]@.cols == game_globals.dims().1
                    && positions@[k]@.discs() < depth,
        decreases n - i,
    {
        let moves = draw_between(&mut rng, 1, depth);
        positions.push(get_random_position(moves, i, game_globals));
        i = i + 1;
    }
    positions
}

/// A position reached from the empty board by at most `depth` random legal
/// moves of a generator with the given seed. Play stops before the move that
/// would end the game.
pub fn get_random_position(depth: i32, seed: usize, game_globals: &GameGlobals) -> (gs: GameState)
    requires
        game_globals.wf(),
        game_globals.dims().0 > 0,
        game_globals.dims().1 > 0,
    ensures
        in_play(gs@),
        gs@.rows == game_globals.dims().0,
        gs@.cols == game_globals.dims().1,
        gs@.discs() <= depth || gs@.discs() == 0,
{
    let mut rng = seeded_rng(seed as u64);
    let mut gs = GameState::new(game_globals);
    proof {
        game_globals.lemma_size();
        lemma_empty_board(game_globals.dims().0, game_globals.dims().1);
    }
    let mut played: i32 = 0;
    while played < depth
        invariant
            game_globals.wf(),
            in_play(gs@),
            gs@.rows == game_globals.dims().0,
            gs@.cols == game_globals.dims().1,
            0 <= played,
            played <= depth || played == 0,
            gs@.discs() == played,
        decreases depth - played,
    {
        let moves = get_legal(&gs);
        proof {
            lemma_legal_moves(gs@);
        }
        let picked = moves[draw_index(&mut rng, moves.len())];
        proof {
            lemma_after_keeps_shape(gs@, picked);
            lemma_after(gs@, picked);
        }
        let next_gs = play(picked, &gs).unwrap();
        if result(&next_gs).is_some() {
            return gs;
        }
        gs = next_gs;
        played = played + 1;
    }
    gs
}

} // verus!
