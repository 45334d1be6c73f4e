//! The rules and the evaluation of the game under one roof: the board and its
//! moves, the result and the full evaluation, the geometry of the board and
//! the incremental evaluation.

pub mod test_utils;

pub use crate::board::{get_legal, is_full, placed_discs, play, GameState, Move, Position};
pub use crate::geometry::GameGlobals;
pub use crate::incremental::{fast_eval, fast_num_wins, fast_result};
pub use crate::lines::{eval, num_wins, result};
pub use crate::padded::{Padded, PaddedGameState};
pub use crate::player::{next_turn, Disc, GameResult, Player};
pub use crate::score::Score;
