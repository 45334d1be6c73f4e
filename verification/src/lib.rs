//! Connect-Four on a configurable grid: rules, evaluation and adversarial search.
//!
//! The library is verified with Verus. Every function states what it returns
//! over a mathematical model of the game, a [`board::Position`], and the
//! proofs relate the fast paths of the search to their plain definitions:
//!
//! - `board`, `player`, `score`: the board, its moves and the values that a
//!   position can have;
//! - `lines`: four in a line, the result of a game and the full evaluation;
//! - `geometry`, `incremental`: the rays of every cell and the evaluation of a
//!   move along them, which agrees with the full evaluation;
//! - `padded`, `symmetry`: what the search keeps beside a state, and the
//!   mirror image of a board;
//! - `ordering`, `table`, `search`: move ordering, the transposition table
//!   and the search with alpha-beta bounds;
//! - `soundness`: the search against the exhaustive minimax walk;
//! - `bindings`: the calls into other crates, which are taken on trust;
//! - `game_logic`, `game`: the above by the names under which players and the
//!   game loop use them.

pub mod bindings;
pub mod board;
pub mod game;
pub mod game_logic;
pub mod geometry;
pub mod incremental;
pub mod lines;
pub mod ordering;
pub mod padded;
pub mod player;
pub mod score;
pub mod search;
pub mod soundness;
pub mod symmetry;
pub mod table;
