//! A game state together with what the search keeps up to date from move to
//! move: the evaluation, the number of discs and a count of how far the board
//! is from being its own mirror image.

use vstd::prelude::*;
use vstd::set_lib::lemma_len_subset;
use crate::bindings::is_odd;
use crate::board::{
    cells_before, lemma_after, lemma_cells_before, lemma_discs_bound, placed_discs, play,
    GameState, Move, Position, MAX_CELLS,
};
use crate::geometry::GameGlobals;
use crate::incremental::{fast_eval, lemma_fast_matches_full};
use crate::lines::{eval, Axis};
use crate::player::{other, Player};
use crate::score::Score;

verus! {

/// The mathematical content of a padded game state.
pub struct Padded {
    /// The position.
    pub pos: Position,
    /// The evaluation kept for the position.
    pub eval: Score,
    /// The number of discs kept for the position.
    pub placed: nat,
    /// The running count of cells that differ from their mirror image.
    pub asymmetry: int,
}

impl Position {
    /// The column that the left-right mirror swaps with column `c`.
    pub open spec fn mirror(self, c: int) -> int {
        self.cols - 1 - c
    }

    /// The cells of the left half of the board that hold something else than
    /// their mirror image. The middle column of a board of odd width belongs to
    /// neither half.
    pub open spec fn mismatched(self) -> Set<(int, int)> {
        Set::new(
            |a: (int, int)|
                self.in_bounds(a.0, a.1) && a.1 < self.cols / 2 && self.at(a.0, a.1) != self.at(
                    a.0,
                    self.mirror(a.1),
                ),
        )
    }

    /// The cells of the left half that hold a disc while their mirror image
    /// holds a disc of the other player.
    pub open spec fn contested(self) -> Set<(int, int)> {
        Set::new(
            |a: (int, int)|
                self.in_bounds(a.0, a.1) && a.1 < self.cols / 2 && self.at(a.0, a.1) is Some
                    && self.at(a.0, self.mirror(a.1)) is Some && self.at(a.0, a.1) != self.at(
                    a.0,
                    self.mirror(a.1),
                ),
        )
    }

    /// The board is its own left-right mirror image.
    pub open spec fn mirror_symmetric(self) -> bool {
        forall|r: int, c: int|
            self.in_bounds(r, c) ==> #[trigger] self.at(r, c) == self.at(r, self.mirror(c))
    }

    /// By how much the move `m` changes the running count of asymmetry: not at
    /// all in the middle column of a board of odd width; down by one where the
    /// mirror image of the cell holds a disc of the mover; up by one otherwise.
    pub open spec fn asymmetry_diff(self, m: Move) -> int {
        if self.cols % 2 == 1 && m.col == self.cols / 2 {
            0
        } else if self.at(m.row as int, self.mirror(m.col as int)) == Some(self.turn) {
            -1
        } else {
            1
        }
    }
}

impl Padded {
    /// The kept values are right: the evaluation is that of the position, the
    /// number of discs is that of the board, and the running count of
    /// asymmetry lies between the number of mismatched cells and that number
    /// plus the number of contested cells.
    pub open spec fn wf(self) -> bool {
        &&& self.pos.wf()
        &&& self.eval == self.pos.eval()
        &&& self.placed == self.pos.discs()
        &&& self.pos.mismatched().len() <= self.asymmetry <= self.pos.mismatched().len()
            + self.pos.contested().len()
    }

    /// The padded state after the move `m`.
    pub open spec fn next(self, m: Move) -> Padded {
        Padded {
            pos: self.pos.after(m),
            eval: self.fast_eval(m),
            placed: self.placed + 1,
            asymmetry: self.asymmetry + self.pos.asymmetry_diff(m),
        }
    }
}

/// A game state with its evaluation, its number of discs and its running count
/// of asymmetry.
#[derive(Debug)]
pub struct PaddedGameState {
    pub gs: GameState,
    pub eval: Score,
    pub placed: usize,
    pub unsymmetrical_count: i32,
}

impl View for PaddedGameState {
    type V = Padded;

    open spec fn view(&self) -> Padded {
        Padded {
            pos: self.gs@,
            eval: self.eval,
            placed: self.placed as nat,
            asymmetry: self.unsymmetrical_count as int,
        }
    }
}

/// The cells of the left half of the board form a finite set, and so do the
/// mismatched and the contested cells, which are no more than the cells of the
/// board.
pub proof fn lemma_mismatched_bound(p: Position)
    requires
        p.wf(),
    ensures
        p.mismatched().finite(),
        p.contested().finite(),
        p.contested().len() <= p.mismatched().len() <= p.rows * p.cols,
{
    let all = cells_before(p.cols, p.rows as int, 0);
    lemma_cells_before(p.cols, p.rows as int, 0);
    assert(p.mismatched().subset_of(all));
    lemma_len_subset(p.mismatched(), all);
    assert(p.contested().subset_of(p.mismatched()));
    lemma_len_subset(p.contested(), p.mismatched());
}

/// The board is its own mirror image exactly when no cell is mismatched.
pub proof fn lemma_symmetric_iff_no_mismatch(p: Position)
    requires
        p.wf(),
    ensures
        p.mirror_symmetric() <==> p.mismatched().len() == 0,
{
    lemma_mismatched_bound(p);
    if p.mirror_symmetric() {
        assert(p.mismatched() =~= Set::empty());
    }
    if p.mismatched().len() == 0 {
        p.mismatched().lemma_len0_is_empty();
        assert forall|r: int, c: int| p.in_bounds(r, c) implies #[trigger] p.at(r, c) == p.at(
            r,
            p.mirror(c),
        ) by {
            if c < p.cols / 2 {
                assert(!p.mismatched().contains((r, c)));
            } else if p.mirror(c) < p.cols / 2 {
                assert(!p.mismatched().contains((r, p.mirror(c))));
            }
        }
    }
}

/// A running count of zero means that the board is its own mirror image, and
/// the other way round.
pub proof fn lemma_symmetry_counter(s: Padded)
    requires
        s.wf(),
    ensures
        s.asymmetry == 0 <==> s.pos.mirror_symmetric(),
{
    lemma_mismatched_bound(s.pos);
    lemma_symmetric_iff_no_mismatch(s.pos);
}

/// How one move changes the mismatched and the contested cells.
pub proof fn lemma_asymmetry_step(p: Position, m: Move)
    requires
        p.wf(),
        p.in_bounds(m.row as int, m.col as int),
        p.at(m.row as int, m.col as int) is None,
    ensures
        ({
            let q = p.after(m);
            let there = p.at(m.row as int, p.mirror(m.col as int));
            if p.cols % 2 == 1 && m.col == p.cols / 2 {
                q.mismatched().len() == p.mismatched().len() && q.contested().len()
                    == p.contested().len()
            } else if there == Some(p.turn) {
                q.mismatched().len() == p.mismatched().len() - 1 && q.contested().len()
                    == p.contested().len()
            } else if there is None {
                q.mismatched().len() == p.mismatched().len() + 1 && q.contested().len()
                    == p.contested().len()
            } else {
                q.mismatched().len() == p.mismatched().len() && q.contested().len()
                    == p.contested().len() + 1
            }
        }),
{
    let q = p.after(m);
    let r = m.row as int;
    let c = m.col as int;
    let there = p.at(r, p.mirror(c));
    lemma_after(p, m);
    lemma_mismatched_bound(p);
    lemma_mismatched_bound(q);
    // The cell of the left half whose pair the move touches.
    let key = if c < p.cols / 2 {
        (r, c)
    } else {
        (r, p.mirror(c))
    };
    if p.cols % 2 == 1 && m.col == p.cols / 2 {
        assert(q.mismatched() =~= p.mismatched());
        assert(q.contested() =~= p.contested());
    } else {
        assert(p.in_bounds(key.0, key.1) && key.1 < p.cols / 2);
        assert(p.in_bounds(r, p.mirror(c)));
        assert(q.at(r, p.mirror(c)) == there);
        if there == Some(p.turn) {
            assert(p.mismatched().contains(key));
            assert(q.mismatched() =~= p.mismatched().remove(key));
            assert(q.contested() =~= p.contested());
        } else if there is None {
            assert(!p.mismatched().contains(key));
            assert(q.mismatched() =~= p.mismatched().insert(key));
            assert(q.contested() =~= p.contested());
        } else {
            assert(!p.contested().contains(key));
            assert(q.mismatched() =~= p.mismatched());
            assert(q.contested() =~= p.contested().insert(key));
        }
    }
}

impl Padded {
    /// The padded state after the moves, made one after the other.
    pub open spec fn after_all(self, moves: Seq<Move>) -> Padded
        decreases moves.len(),
    {
        if moves.len() == 0 {
            self
        } else {
            self.after_all(moves.drop_last()).next(moves.last())
        }
    }

    /// Whether the moves can be played one after the other: each is made
    /// while the game has no result yet and is accepted where it lands.
    pub open spec fn playable(self, moves: Seq<Move>) -> bool
        decreases moves.len(),
    {
        moves.len() == 0 || {
            let before = self.after_all(moves.drop_last());
            &&& self.playable(moves.drop_last())
            &&& before.pos.result() is None
            &&& before.pos.accepts(moves.last())
        }
    }

    /// Whether no move lands opposite a disc of the opponent: the mirror
    /// image of the cell of each move, unless the move is in the middle
    /// column of a board of odd width, is empty or holds a disc of the mover.
    pub open spec fn unopposed(self, moves: Seq<Move>) -> bool
        decreases moves.len(),
    {
        moves.len() == 0 || {
            let before = self.after_all(moves.drop_last()).pos;
            let m = moves.last();
            &&& self.unopposed(moves.drop_last())
            &&& ((before.cols % 2 == 1 && m.col == before.cols / 2) || before.at(
                m.row as int,
                before.mirror(m.col as int),
            ) != Some(other(before.turn)))
        }
    }
}

/// The running count of asymmetry is zero exactly on mirrored boards, after
/// any sequence of moves.
///
/// Starting from a padded state whose kept values are right, the kept values
/// are right after every playable sequence of moves, and the running count is
/// zero exactly when the board is its own left-right mirror image.
pub proof fn lemma_counter_after_moves(s: Padded, moves: Seq<Move>)
    requires
        s.wf(),
        s.playable(moves),
    ensures
        s.after_all(moves).wf(),
        s.after_all(moves).asymmetry == 0 <==> s.after_all(moves).pos.mirror_symmetric(),
    decreases moves.len(),
{
    if moves.len() > 0 {
        lemma_counter_after_moves(s, moves.drop_last());
        lemma_fast_matches_full(s.after_all(moves.drop_last()), moves.last());
    }
    lemma_symmetry_counter(s.after_all(moves));
}

/// The running count of asymmetry is the number of mismatched cells, as long
/// as no move lands opposite a disc of the opponent.
///
/// Starting from a padded state whose running count is the number of cells
/// of the left half that differ from their mirror image, the count is that
/// number again after every playable sequence of moves none of which lands
/// opposite a disc of the opponent.
pub proof fn lemma_counter_exact(s: Padded, moves: Seq<Move>)
    requires
        s.wf(),
        s.asymmetry == s.pos.mismatched().len(),
        s.playable(moves),
        s.unopposed(moves),
    ensures
        s.after_all(moves).asymmetry == s.after_all(moves).pos.mismatched().len(),
    decreases moves.len(),
{
    if moves.len() > 0 {
        let before = s.after_all(moves.drop_last());
        let m = moves.last();
        lemma_counter_exact(s, moves.drop_last());
        lemma_counter_after_moves(s, moves.drop_last());
        lemma_asymmetry_step(before.pos, m);
        assert(s.after_all(moves) == before.next(m));
        assert(before.asymmetry == before.pos.mismatched().len());
        let there = before.pos.at(m.row as int, before.pos.mirror(m.col as int));
        if !(before.pos.cols % 2 == 1 && m.col == before.pos.cols / 2) {
            assert(there != Some(other(before.pos.turn)));
            if there is Some && there != Some(before.pos.turn) {
                assert(there->0 == other(before.pos.turn));
            }
        }
    }
}

/// What the running count of asymmetry is in a game played from the empty
/// board: the number of mismatched cells plus the number of contested cells.
///
/// The sum holds on the empty board, where it is zero, and every playable move
/// keeps it: a move opposite an empty cell or opposite a disc of the mover
/// changes the mismatched cells and the count alike, and a move opposite a
/// disc of the opponent adds a contested cell and one to the count.
pub proof fn lemma_counter_formula(s: Padded, moves: Seq<Move>)
    requires
        s.wf(),
        s.asymmetry == s.pos.mismatched().len() + s.pos.contested().len(),
        s.playable(moves),
    ensures
        s.after_all(moves).asymmetry == s.after_all(moves).pos.mismatched().len()
            + s.after_all(moves).pos.contested().len(),
    decreases moves.len(),
{
    if moves.len() > 0 {
        let before = s.after_all(moves.drop_last());
        let m = moves.last();
        lemma_counter_formula(s, moves.drop_last());
        lemma_counter_after_moves(s, moves.drop_last());
        lemma_asymmetry_step(before.pos, m);
        assert(s.after_all(moves) == before.next(m));
    }
}

/// On the empty board every line is open to both players, nobody has four in
/// a line, and the board is its own mirror image.
pub proof fn lemma_empty_board(rows: nat, cols: nat)
    requires
        rows * cols <= MAX_CELLS,
    ensures
        Position::empty(rows, cols).wf(),
        Position::empty(rows, cols).eval() == Score::Finite(0),
        Position::empty(rows, cols).discs() == 0,
        Position::empty(rows, cols).mismatched().len() == 0,
        Position::empty(rows, cols).contested().len() == 0,
        Position::empty(rows, cols).gravity(),
        Position::empty(rows, cols).turn_by_parity(),
        rows > 0 && cols > 0 ==> Position::empty(rows, cols).result() is None,
{
    let p = Position::empty(rows, cols);
    assert(p.wf());
    if rows > 0 && cols > 0 {
        assert(p.in_bounds(0, 0));
        assert(p.at(0, 0) is None);
    }
    assert(crate::board::occupied_cells(p.grid) =~= Set::empty());
    assert(p.mismatched() =~= Set::empty());
    assert(p.contested() =~= Set::empty());
    assert(!p.has_four(Player::P1));
    assert(!p.has_four(Player::P2));
    assert forall|axis: Axis| #[trigger]
        p.windows(Player::P1, true, axis) == p.windows(Player::P2, true, axis) by {
        assert(p.windows(Player::P1, true, axis) =~= p.windows(Player::P2, true, axis));
    }
    assert(p.windows(Player::P1, true, Axis::Horizontal) == p.windows(Player::P2, true, Axis::Horizontal));
    assert(p.windows(Player::P1, true, Axis::Vertical) == p.windows(Player::P2, true, Axis::Vertical));
    assert(p.windows(Player::P1, true, Axis::Diagonal) == p.windows(Player::P2, true, Axis::Diagonal));
    assert(p.windows(Player::P1, true, Axis::AntiDiagonal) == p.windows(Player::P2, true, Axis::AntiDiagonal));
}

impl PaddedGameState {
    /// The empty board of the size that `game_globals` was built for.
    pub fn new(game_globals: &GameGlobals) -> (padded: PaddedGameState)
        requires
            game_globals.wf(),
        ensures
            padded@.wf(),
            padded@.pos == Position::empty(game_globals.dims().0, game_globals.dims().1),
            padded@.asymmetry == 0,
    {
        proof {
            game_globals.lemma_size();
            lemma_empty_board(game_globals.dims().0, game_globals.dims().1);
        }
        PaddedGameState {
            gs: GameState::new(game_globals),
            eval: Score::Finite(0),
            placed: 0,
            unsymmetrical_count: 0,
        }
    }

    /// The board that the raw cell codes describe, with what belongs to it.
    pub fn new_from_board(raw_board: Vec<Vec<i8>>) -> (padded: PaddedGameState)
        requires
            raw_board@.len() > 0,
            forall|r: int|
                0 <= r < raw_board@.len() ==> (#[trigger] raw_board@[r])@.len()
                    == raw_board@[0]@.len(),
            raw_board@.len() * raw_board@[0]@.len() <= MAX_CELLS,
        ensures
            padded@.wf(),
            padded@.pos.rows == raw_board@.len(),
            padded@.pos.cols == raw_board@[0]@.len(),
            forall|r: int, c: int|
                padded@.pos.in_bounds(r, c) ==> #[trigger] padded@.pos.at(r, c)
                    == crate::board::decode(raw_board@[r]@[c]),
            padded@.pos.turn_by_parity(),
            padded@.asymmetry == padded@.pos.mismatched().len(),
    {
        let gs = GameState::new_from_board(raw_board);
        Self::new_from_game_state(&gs)
    }

    /// The given state with what belongs to it, each computed from the board.
    pub fn new_from_game_state(gs_ref: &GameState) -> (padded: PaddedGameState)
        requires
            gs_ref@.wf(),
        ensures
            padded@.wf(),
            padded@.pos == gs_ref@,
            padded@.asymmetry == gs_ref@.mismatched().len(),
    {
        let eval = eval(gs_ref);
        let placed = placed_discs(gs_ref);
        let unsymmetrical_count = Self::get_unsymmetrical_count(gs_ref);
        PaddedGameState { gs: gs_ref.copy(), eval, placed, unsymmetrical_count }
    }

    /// The state after the move `mov`, with what belongs to it brought up to
    /// date: the evaluation from the rays of the move's cell, one disc more,
    /// and the running count of asymmetry moved by one or left alone.
    ///
    /// While the game has no result yet the kept values stay right.
    pub fn next(old_gs: &PaddedGameState, mov: Move, game_globals: &GameGlobals) -> (padded:
        PaddedGameState)
        requires
            old_gs@.wf(),
            old_gs@.pos.accepts(mov),
            game_globals.wf(),
            game_globals.dims() == (old_gs@.pos.rows, old_gs@.pos.cols),
        ensures
            padded@ == old_gs@.next(mov),
            padded@.pos.wf(),
            old_gs@.pos.result() is None ==> padded@.wf(),
    {
        proof {
            if old_gs@.pos.result() is None {
                lemma_fast_matches_full(old_gs@, mov);
            }
            lemma_discs_bound(old_gs@.pos);
            lemma_mismatched_bound(old_gs@.pos);
            assert(2 * (old_gs@.pos.rows * old_gs@.pos.cols) < i32::MAX);
        }
        let eval = fast_eval(old_gs, mov, game_globals);
        let diff = Self::get_unsymmetrical_count_diff(&old_gs.gs, mov);
        PaddedGameState {
            gs: play(mov, &old_gs.gs).unwrap(),
            eval,
            placed: old_gs.placed + 1,
            unsymmetrical_count: old_gs.unsymmetrical_count + diff,
        }
    }

    /// The number of cells of the left half of the board that hold something
    /// else than their mirror image.
    fn get_unsymmetrical_count(gs: &GameState) -> (count: i32)
        requires
            gs@.wf(),
        ensures
            count == gs@.mismatched().len(),
    {
        let ghost pos = gs@;
        let ghost mis = pos.mismatched();
        let rows = gs.rows();
        let cols = gs.cols();
        let half = cols / 2;
        let mut count: i32 = 0;
        let mut row: usize = 0;
        proof {
            lemma_mismatched_bound(pos);
            assert(mis.intersect(cells_before(pos.cols, 0, 0)) =~= Set::empty());
        }
        while row < rows
            invariant
                pos == gs@,
                pos.wf(),
                mis == pos.mismatched(),
                mis.finite(),
                mis.len() <= MAX_CELLS,
                rows == pos.rows,
                cols == pos.cols,
                half == cols / 2,
                row <= rows,
                count == mis.intersect(cells_before(pos.cols, row as int, 0)).len(),
            decreases rows - row,
        {
            let mut col: usize = 0;
            while col < half
                invariant
                    pos == gs@,
                    pos.wf(),
                    mis == pos.mismatched(),
                    mis.finite(),
                    mis.len() <= MAX_CELLS,
                    rows == pos.rows,
                    cols == pos.cols,
                    half == cols / 2,
                    row < rows,
                    col <= half,
                    count == mis.intersect(cells_before(pos.cols, row as int, col as int)).len(),
                decreases half - col,
            {
                let here = gs.cell(row, col);
                let there = gs.cell(row, cols - col - 1);
                let equal = match (here, there) {
                    (None, None) => true,
                    (Some(Player::P1), Some(Player::P1)) => true,
                    (Some(Player::P2), Some(Player::P2)) => true,
                    _ => false,
                };
                proof {
                    let before = mis.intersect(cells_before(pos.cols, row as int, col as int));
                    let after = mis.intersect(cells_before(pos.cols, row as int, col + 1));
                    lemma_len_subset(before, mis);
                    lemma_len_subset(after, mis);
                    if equal {
                        assert(after =~= before);
                    } else {
                        assert(after =~= before.insert((row as int, col as int)));
                    }
                }
                if !equal {
                    count = count + 1;
                }
                col = col + 1;
            }
            proof {
                assert(mis.intersect(cells_before(pos.cols, row as int, half as int))
                    =~= mis.intersect(cells_before(pos.cols, row + 1, 0)));
            }
            row = row + 1;
        }
        proof {
            assert(mis.intersect(cells_before(pos.cols, rows as int, 0)) =~= mis);
        }
        count
    }

    /// By how much the move `mov` changes the running count of asymmetry.
    fn get_unsymmetrical_count_diff(gs: &GameState, mov: Move) -> (diff: i32)
        requires
            gs@.wf(),
            gs@.in_bounds(mov.row as int, mov.col as int),
        ensures
            diff == gs@.asymmetry_diff(mov),
    {
        let cols = gs.cols();
        if is_odd(cols) && mov.col == cols / 2 {
            0
        } else {
            match (gs.cell(mov.row, cols - mov.col - 1), gs.turn()) {
                (Some(Player::P1), Player::P1) => -1,
                (Some(Player::P2), Player::P2) => -1,
                _ => 1,
            }
        }
    }

    /// Whether the running count of asymmetry is zero, which for a state whose
    /// kept values are right means that the board is its own mirror image.
    pub fn is_symmetrical(&self) -> (symmetrical: bool)
        ensures
            symmetrical == (self@.asymmetry == 0),
            self@.wf() ==> symmetrical == self@.pos.mirror_symmetric(),
    {
        proof {
            if self@.wf() {
                lemma_symmetry_counter(self@);
            }
        }
        self.unsymmetrical_count == 0
    }
}

} // verus!
