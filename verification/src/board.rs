//! The board, moves, and the rules for placing a disc.

use vstd::prelude::*;
use crate::bindings::is_even;
use crate::geometry::GameGlobals;
use crate::player::{next_turn, other, Disc, Player};

verus! {

/// The largest board, in cells, that the library handles. Line counts of such a
/// board, and their differences, fit the 32-bit evaluation with room to spare.
pub const MAX_CELLS: usize = 0x1000_0000;

/// A target cell. Row 0 is the top of the board; the floor is the last row.
#[derive(Copy, Clone, Debug, PartialEq, Eq, Hash, Structural)]
pub struct Move {
    pub row: usize,
    pub col: usize,
}

/// The mathematical content of a game state: whose turn it is and what every
/// cell of the `rows` x `cols` grid holds.
pub struct Position {
    pub turn: Player,
    pub rows: nat,
    pub cols: nat,
    pub grid: Seq<Seq<Disc>>,
}

/// The cells of `grid` that hold a disc, as (row, column) pairs.
pub open spec fn occupied_cells(grid: Seq<Seq<Disc>>) -> Set<(int, int)> {
    Set::new(
        |a: (int, int)|
            0 <= a.0 < grid.len() && 0 <= a.1 < grid[a.0].len() && grid[a.0][a.1] is Some,
    )
}

/// The cells of a grid with `cols` columns that come before (`r`, `c`) in
/// row-major order.
pub open spec fn cells_before(cols: nat, r: int, c: int) -> Set<(int, int)> {
    Set::new(|a: (int, int)| 0 <= a.0 && 0 <= a.1 < cols && (a.0 < r || (a.0 == r && a.1 < c)))
}

/// What a raw cell code stands for: 1 and 2 are the two players' discs, every
/// other code is an empty cell.
pub open spec fn decode(code: i8) -> Disc {
    if code == 1 {
        Some(Player::P1)
    } else if code == 2 {
        Some(Player::P2)
    } else {
        None
    }
}

impl Position {
    /// The grid is `rows` x `cols` and no larger than `MAX_CELLS`.
    pub open spec fn wf(self) -> bool {
        &&& self.grid.len() == self.rows
        &&& forall|r: int| 0 <= r < self.rows ==> (#[trigger] self.grid[r]).len() == self.cols
        &&& self.rows * self.cols <= MAX_CELLS
    }

    /// The empty board with the first player to move.
    pub open spec fn empty(rows: nat, cols: nat) -> Position {
        Position {
            turn: Player::P1,
            rows,
            cols,
            grid: Seq::new(rows, |r: int| Seq::new(cols, |c: int| None)),
        }
    }

    pub open spec fn in_bounds(self, r: int, c: int) -> bool {
        0 <= r < self.rows && 0 <= c < self.cols
    }

    /// What the cell holds. Meaningful for cells in bounds.
    pub open spec fn at(self, r: int, c: int) -> Disc {
        self.grid[r][c]
    }

    /// Whether a disc may be placed at `m`: the cell is on the board and empty,
    /// and it rests on the floor or on another disc.
    pub open spec fn accepts(self, m: Move) -> bool {
        &&& self.in_bounds(m.row as int, m.col as int)
        &&& self.at(m.row as int, m.col as int) is None
        &&& (m.row + 1 == self.rows || self.at(m.row + 1, m.col as int) is Some)
    }

    /// The position after the player to move places a disc at `m`.
    pub open spec fn after(self, m: Move) -> Position {
        Position {
            turn: other(self.turn),
            rows: self.rows,
            cols: self.cols,
            grid: self.grid.update(
                m.row as int,
                self.grid[m.row as int].update(m.col as int, Some(self.turn)),
            ),
        }
    }

    /// The number of discs on the board.
    pub open spec fn discs(self) -> nat {
        occupied_cells(self.grid).len()
    }

    /// No cell is empty.
    pub open spec fn full(self) -> bool {
        forall|r: int, c: int| self.in_bounds(r, c) ==> (#[trigger] self.at(r, c)) is Some
    }

    /// No disc floats: below every disc lies the floor or another disc.
    pub open spec fn gravity(self) -> bool {
        forall|r: int, c: int|
            self.in_bounds(r, c) && r + 1 < self.rows && (#[trigger] self.at(r, c)) is Some
                ==> self.at(r + 1, c) is Some
    }

    /// The player to move is the first player exactly when the number of discs
    /// is even.
    pub open spec fn turn_by_parity(self) -> bool {
        self.turn == if self.discs() % 2 == 0 {
            Player::P1
        } else {
            Player::P2
        }
    }

    /// The lowest empty row of column `c` among rows `0..=r`, or -1 if they are
    /// all occupied.
    pub open spec fn lowest_empty_from(self, c: int, r: int) -> int
        decreases r + 1,
    {
        if r < 0 {
            -1
        } else if self.at(r, c) is None {
            r
        } else {
            self.lowest_empty_from(c, r - 1)
        }
    }

    /// The cell where a disc dropped into column `c` comes to rest, if the
    /// column has room.
    pub open spec fn landing(self, c: int) -> Option<Move> {
        let r = self.lowest_empty_from(c, self.rows - 1);
        if r >= 0 {
            Some(Move { row: r as usize, col: c as usize })
        } else {
            None
        }
    }

    /// The landing cells of the columns `0..k` that have room, by ascending
    /// column.
    pub open spec fn legal_upto(self, k: int) -> Seq<Move>
        decreases k,
    {
        if k <= 0 {
            Seq::empty()
        } else {
            match self.landing(k - 1) {
                Some(m) => self.legal_upto(k - 1).push(m),
                None => self.legal_upto(k - 1),
            }
        }
    }

    /// One move per column that has room, by ascending column.
    pub open spec fn legal_moves(self) -> Seq<Move> {
        self.legal_upto(self.cols as int)
    }

    /// Whether `m` is one of the legal moves.
    pub open spec fn offers(self, m: Move) -> bool {
        exists|i: int| 0 <= i < self.legal_moves().len() && #[trigger] self.legal_moves()[i] == m
    }
}

/// `cells_before` is finite and `r * cols + c` cells large.
pub proof fn lemma_cells_before(cols: nat, r: int, c: int)
    requires
        0 <= r,
        0 <= c <= cols,
    ensures
        cells_before(cols, r, c).finite(),
        cells_before(cols, r, c).len() == r * cols + c,
    decreases r, c,
{
    if c > 0 {
        lemma_cells_before(cols, r, c - 1);
        assert(!cells_before(cols, r, c - 1).contains((r, c - 1)));
        assert(cells_before(cols, r, c) =~= cells_before(cols, r, c - 1).insert((r, c - 1)));
    } else if r > 0 {
        lemma_cells_before(cols, r - 1, cols as int);
        assert(cells_before(cols, r, 0) =~= cells_before(cols, r - 1, cols as int));
        assert((r - 1) * cols + cols == r * cols) by (nonlinear_arith);
    } else {
        assert(cells_before(cols, 0, 0) =~= Set::empty());
        assert(r * cols == 0) by (nonlinear_arith)
            requires
                r == 0,
        ;
    }
}

/// A well-formed position has finitely many discs, at most one per cell, and it
/// is full exactly when it has one per cell.
pub proof fn lemma_discs_bound(p: Position)
    requires
        p.wf(),
    ensures
        occupied_cells(p.grid).finite(),
        p.discs() <= p.rows * p.cols,
        p.full() <==> p.discs() == p.rows * p.cols,
{
    let all = cells_before(p.cols, p.rows as int, 0);
    let occ = occupied_cells(p.grid);
    lemma_cells_before(p.cols, p.rows as int, 0);
    assert(occ.subset_of(all));
    vstd::set_lib::lemma_len_subset(occ, all);
    if p.full() {
        assert forall|a: (int, int)| all.contains(a) implies occ.contains(a) by {
            assert(p.at(a.0, a.1) is Some);
        }
        assert(occ =~= all);
    }
    if p.discs() == p.rows * p.cols {
        vstd::set_lib::lemma_subset_equality(occ, all);
        assert forall|r: int, c: int| p.in_bounds(r, c) implies (#[trigger] p.at(r, c)) is Some by {
            assert(all.contains((r, c)));
        }
    }
}

/// Placing a disc on an empty cell keeps the position well formed and adds one
/// disc.
pub proof fn lemma_after(p: Position, m: Move)
    requires
        p.wf(),
        p.in_bounds(m.row as int, m.col as int),
        p.at(m.row as int, m.col as int) is None,
    ensures
        p.after(m).wf(),
        p.after(m).discs() == p.discs() + 1,
        p.after(m).at(m.row as int, m.col as int) == Some(p.turn),
        forall|r: int, c: int|
            p.in_bounds(r, c) && (r != m.row || c != m.col) ==> #[trigger] p.after(m).at(r, c)
                == p.at(r, c),
{
    let q = p.after(m);
    lemma_discs_bound(p);
    assert forall|r: int| 0 <= r < q.rows implies (#[trigger] q.grid[r]).len() == q.cols by {
        assert(p.grid[r].len() == p.cols);
    }
    assert(occupied_cells(q.grid) =~= occupied_cells(p.grid).insert((m.row as int, m.col as int)))
        by {
        assert forall|a: (int, int)|
            occupied_cells(q.grid).contains(a) <==> occupied_cells(p.grid).insert(
                (m.row as int, m.col as int),
            ).contains(a) by {
            if 0 <= a.0 < p.rows {
                assert(p.grid[a.0].len() == p.cols);
            }
        }
    }
}

/// The lowest empty row of a column is an empty cell with only discs below
/// it, if the column has an empty cell at all.
pub proof fn lemma_lowest_empty(p: Position, c: int, r: int)
    requires
        p.wf(),
        0 <= c < p.cols,
        -1 <= r < p.rows,
    ensures
        -1 <= p.lowest_empty_from(c, r) <= r,
        p.lowest_empty_from(c, r) >= 0 ==> p.at(p.lowest_empty_from(c, r), c) is None,
        forall|i: int| p.lowest_empty_from(c, r) < i <= r ==> (#[trigger] p.at(i, c)) is Some,
    decreases r + 1,
{
    if r >= 0 && p.at(r, c) is Some {
        lemma_lowest_empty(p, c, r - 1);
    }
}

/// The landing cell of a column is a cell that the position accepts; a column
/// has none exactly when it is full.
pub proof fn lemma_landing(p: Position, c: int)
    requires
        p.wf(),
        0 <= c < p.cols,
    ensures
        p.landing(c) matches Some(m) ==> m.col == c && p.accepts(m),
        p.landing(c) is None <==> forall|r: int| 0 <= r < p.rows ==> (#[trigger] p.at(r, c)) is Some,
{
    lemma_lowest_empty(p, c, p.rows - 1);
    assert(p.rows <= p.rows * p.cols) by (nonlinear_arith)
        requires
            p.cols >= 1,
    ;
    let low = p.lowest_empty_from(c, p.rows - 1);
    if low >= 0 {
        assert(p.at(low, c) is None);
        assert(p.cols <= p.rows * p.cols) by (nonlinear_arith)
            requires
                p.rows >= 1,
        ;
    }
}

/// The moves of the columns `0..k`: each is the landing cell of its column,
/// the columns ascend, and no column with room is left out.
pub proof fn lemma_legal_upto(p: Position, k: int)
    requires
        p.wf(),
        0 <= k <= p.cols,
    ensures
        p.legal_upto(k).len() <= k,
        forall|i: int|
            0 <= i < p.legal_upto(k).len() ==> (#[trigger] p.legal_upto(k)[i]).col < k
                && p.landing(p.legal_upto(k)[i].col as int) == Some(p.legal_upto(k)[i])
                && p.accepts(p.legal_upto(k)[i]),
        forall|i: int, j: int|
            0 <= i < j < p.legal_upto(k).len() ==> (#[trigger] p.legal_upto(k)[i]).col < (
            #[trigger] p.legal_upto(k)[j]).col,
        forall|c: int|
            0 <= c < k && p.landing(c) is Some ==> exists|i: int|
                0 <= i < p.legal_upto(k).len() && #[trigger] p.legal_upto(k)[i] == p.landing(
                    c,
                )->0,
    decreases k,
{
    if k > 0 {
        lemma_legal_upto(p, k - 1);
        lemma_landing(p, k - 1);
        let prev = p.legal_upto(k - 1);
        let all = p.legal_upto(k);
        assert forall|c: int| 0 <= c < k && p.landing(c) is Some implies exists|i: int|
            0 <= i < all.len() && #[trigger] all[i] == p.landing(c)->0 by {
            if c < k - 1 {
                let i = choose|i: int| 0 <= i < prev.len() && #[trigger] prev[i] == p.landing(c)->0;
                assert(all[i] == prev[i]);
            } else {
                assert(all[all.len() - 1] == p.landing(c)->0);
            }
        }
    }
}

/// Every legal move is accepted.
///
/// The moves that `get_legal` returns are cells that `play` accepts; they
/// stand by ascending column, one for each column that is not full, and there
/// is none exactly when the board is full.
pub proof fn lemma_legal_moves(p: Position)
    requires
        p.wf(),
    ensures
        p.legal_moves().len() <= p.cols,
        forall|i: int|
            0 <= i < p.legal_moves().len() ==> p.accepts(#[trigger] p.legal_moves()[i])
                && p.landing(p.legal_moves()[i].col as int) == Some(p.legal_moves()[i]),
        forall|i: int, j: int|
            0 <= i < j < p.legal_moves().len() ==> (#[trigger] p.legal_moves()[i]).col < (
            #[trigger] p.legal_moves()[j]).col,
        forall|c: int|
            0 <= c < p.cols && p.landing(c) is Some ==> exists|i: int|
                0 <= i < p.legal_moves().len() && #[trigger] p.legal_moves()[i] == p.landing(
                    c,
                )->0,
        p.legal_moves().len() == 0 <==> p.full(),
{
    lemma_legal_upto(p, p.cols as int);
    let moves = p.legal_moves();
    if moves.len() > 0 {
        assert(p.accepts(moves[0]));
        assert(p.at(moves[0].row as int, moves[0].col as int) is None);
    }
    if !p.full() {
        let (r, c) = choose|r: int, c: int| p.in_bounds(r, c) && !((#[trigger] p.at(r, c)) is Some);
        lemma_landing(p, c);
        assert(p.landing(c) is Some);
    }
    if p.full() {
        if moves.len() > 0 {
            assert(p.accepts(moves[0]));
            assert(p.at(moves[0].row as int, moves[0].col as int) is Some);
        }
    }
}

/// The moves of the first columns stand first among the moves of more columns.
pub proof fn lemma_legal_prefix(p: Position, k: int, k2: int)
    requires
        p.wf(),
        0 <= k <= k2 <= p.cols,
    ensures
        p.legal_upto(k).len() <= p.legal_upto(k2).len(),
        forall|i: int|
            0 <= i < p.legal_upto(k).len() ==> #[trigger] p.legal_upto(k2)[i] == p.legal_upto(k)[i],
    decreases k2 - k,
{
    if k < k2 {
        lemma_legal_prefix(p, k, k2 - 1);
    }
}

/// The move of a column with room stands at the place that the number of
/// columns with room before it gives.
pub proof fn lemma_legal_place(p: Position, c: int)
    requires
        p.wf(),
        0 <= c < p.cols,
    ensures
        p.legal_upto(c + 1).len() == p.legal_upto(c).len() + if p.landing(c) is Some {
            1int
        } else {
            0
        },
        p.legal_upto(c).len() <= p.legal_moves().len(),
        p.landing(c) matches Some(m) ==> p.legal_upto(c).len() < p.legal_moves().len()
            && p.legal_moves()[p.legal_upto(c).len() as int] == m,
{
    lemma_legal_prefix(p, c, p.cols as int);
    lemma_legal_prefix(p, c + 1, p.cols as int);
    if p.landing(c) is Some {
        let at = p.legal_upto(c).len() as int;
        assert(p.legal_upto(c + 1)[at] == p.landing(c)->0);
    }
}

/// A move that the position accepts keeps discs from floating, and keeps the
/// player to move in step with the number of discs.
pub proof fn lemma_after_keeps_shape(p: Position, m: Move)
    requires
        p.wf(),
        p.accepts(m),
    ensures
        p.gravity() ==> p.after(m).gravity(),
        p.turn_by_parity() ==> p.after(m).turn_by_parity(),
{
    lemma_after(p, m);
    let q = p.after(m);
    if p.gravity() {
        assert forall|r: int, c: int|
            q.in_bounds(r, c) && r + 1 < q.rows && (#[trigger] q.at(r, c)) is Some implies q.at(
            r + 1,
            c,
        ) is Some by {
            if r == m.row && c == m.col {
                assert(p.at(r + 1, c) is Some);
                assert(q.at(r + 1, c) == p.at(r + 1, c));
            } else {
                assert(q.at(r, c) == p.at(r, c));
                assert(p.at(r, c) is Some);
                assert(p.at(r + 1, c) is Some);
                if r + 1 == m.row && c == m.col {
                } else {
                    assert(q.at(r + 1, c) == p.at(r + 1, c));
                }
            }
        }
    }
}

/// A board and the player to move.
///
/// A state is created empty, or from raw cell codes, and new states are derived
/// from it by `play`; no state is ever changed.
#[derive(Clone, Debug, PartialEq, Eq, Hash)]
pub struct GameState {
    turn: Player,
    board: Vec<Vec<Disc>>,
    rows: usize,
    cols: usize,
}

/// The grid that nested vectors stand for.
pub open spec fn grid_of(board: Seq<Vec<Disc>>) -> Seq<Seq<Disc>> {
    Seq::new(board.len(), |r: int| board[r]@)
}

impl View for GameState {
    type V = Position;

    closed spec fn view(&self) -> Position {
        Position {
            turn: self.turn,
            rows: self.rows as nat,
            cols: self.cols as nat,
            grid: grid_of(self.board@),
        }
    }
}

/// The number of discs in `board`.
fn placed_discs_board(board: &Vec<Vec<Disc>>, cols: usize) -> (n: usize)
    requires
        forall|r: int| 0 <= r < board@.len() ==> (#[trigger] board@[r])@.len() == cols,
        board@.len() * cols <= MAX_CELLS,
    ensures
        n == occupied_cells(grid_of(board@)).len(),
        occupied_cells(grid_of(board@)).finite(),
{
    let ghost grid = grid_of(board@);
    let ghost occ = occupied_cells(grid);
    let rows = board.len();
    let mut n: usize = 0;
    let mut r: usize = 0;
    proof {
        lemma_cells_before(cols as nat, 0, 0);
        assert(occ.intersect(cells_before(cols as nat, 0, 0)) =~= Set::empty());
    }
    while r < rows
        invariant
            rows == board@.len(),
            grid == grid_of(board@),
            occ == occupied_cells(grid),
            forall|i: int| 0 <= i < board@.len() ==> (#[trigger] board@[i])@.len() == cols,
            rows * cols <= MAX_CELLS,
            r <= rows,
            n == occ.intersect(cells_before(cols as nat, r as int, 0)).len(),
            n <= r * cols,
        decreases rows - r,
    {
        let mut c: usize = 0;
        while c < cols
            invariant
                rows == board@.len(),
                grid == grid_of(board@),
                occ == occupied_cells(grid),
                forall|i: int| 0 <= i < board@.len() ==> (#[trigger] board@[i])@.len() == cols,
                rows * cols <= MAX_CELLS,
                r < rows,
                c <= cols,
                n == occ.intersect(cells_before(cols as nat, r as int, c as int)).len(),
                n <= r * cols + c,
            decreases cols - c,
        {
            proof {
                lemma_cells_before(cols as nat, r as int, c as int);
                let before = occ.intersect(cells_before(cols as nat, r as int, c as int));
                let next = occ.intersect(cells_before(cols as nat, r as int, c + 1));
                assert(grid[r as int] == board@[r as int]@);
                if grid[r as int][c as int] is Some {
                    assert(next =~= before.insert((r as int, c as int)));
                } else {
                    assert(next =~= before);
                }
                assert((r + 1) * cols <= rows * cols) by (nonlinear_arith)
                    requires
                        r < rows,
                ;
                assert((r + 1) * cols == r * cols + cols) by (nonlinear_arith);
            }
            if board[r][c].is_some() {
                n = n + 1;
            }
            c = c + 1;
        }
        proof {
            assert(occ.intersect(cells_before(cols as nat, r as int, cols as int))
                =~= occ.intersect(cells_before(cols as nat, r + 1, 0)));
            assert((r + 1) * cols == r * cols + cols) by (nonlinear_arith);
        }
        r = r + 1;
    }
    proof {
        lemma_cells_before(cols as nat, rows as int, 0);
        assert(occ.intersect(cells_before(cols as nat, rows as int, 0)) =~= occ);
    }
    n
}

/// A copy of `board` with `disc` at (`row`, `col`).
fn with_disc(board: &Vec<Vec<Disc>>, cols: usize, row: usize, col: usize, disc: Disc) -> (out: Vec<
    Vec<Disc>,
>)
    requires
        forall|r: int| 0 <= r < board@.len() ==> (#[trigger] board@[r])@.len() == cols,
        row < board@.len(),
        col < cols,
    ensures
        grid_of(out@) == grid_of(board@).update(
            row as int,
            grid_of(board@)[row as int].update(col as int, disc),
        ),
{
    let ghost want = grid_of(board@).update(
        row as int,
        grid_of(board@)[row as int].update(col as int, disc),
    );
    let mut out: Vec<Vec<Disc>> = Vec::new();
    let mut r: usize = 0;
    while r < board.len()
        invariant
            forall|i: int| 0 <= i < board@.len() ==> (#[trigger] board@[i])@.len() == cols,
            row < board@.len(),
            col < cols,
            want == grid_of(board@).update(
                row as int,
                grid_of(board@)[row as int].update(col as int, disc),
            ),
            r <= board@.len(),
            out@.len() == r,
            forall|i: int| 0 <= i < r ==> (#[trigger] out@[i])@ == want[i],
        decreases board@.len() - r,
    {
        let mut line: Vec<Disc> = Vec::new();
        let mut c: usize = 0;
        while c < cols
            invariant
                forall|i: int| 0 <= i < board@.len() ==> (#[trigger] board@[i])@.len() == cols,
                row < board@.len(),
                col < cols,
                want == grid_of(board@).update(
                    row as int,
                    grid_of(board@)[row as int].update(col as int, disc),
                ),
                r < board@.len(),
                c <= cols,
                line@.len() == c,
                forall|j: int| 0 <= j < c ==> #[trigger] line@[j] == want[r as int][j],
            decreases cols - c,
        {
            if r == row && c == col {
                line.push(disc);
            } else {
                line.push(board[r][c]);
            }
            c = c + 1;
        }
        assert(line@ =~= want[r as int]);
        out.push(line);
        r = r + 1;
    }
    assert(grid_of(out@) =~= want);
    out
}

impl GameState {
    /// How the fields of a well-formed state relate to its view.
    proof fn lemma_view(&self)
        requires
            self@.wf(),
        ensures
            self.board@.len() == self.rows,
            self.rows == self@.rows,
            self.cols == self@.cols,
            self.turn == self@.turn,
            forall|r: int|
                0 <= r < self.rows ==> (#[trigger] self.board@[r])@ == self@.grid[r]
                    && self.board@[r]@.len() == self.cols,
    {
        assert forall|r: int| 0 <= r < self.rows implies (#[trigger] self.board@[r])@
            == self@.grid[r] && self.board@[r]@.len() == self.cols by {
            assert(self@.grid[r].len() == self.cols);
        }
    }

    /// The empty board of the size that `game_globals` was built for, with the
    /// first player to move.
    pub fn new(game_globals: &GameGlobals) -> (gs: GameState)
        requires
            game_globals.wf(),
        ensures
            gs@ == Position::empty(game_globals.dims().0, game_globals.dims().1),
            gs@.wf(),
    {
        proof {
            game_globals.lemma_size();
        }
        GameState::empty(game_globals.rows(), game_globals.cols())
    }

    /// The empty `rows` x `cols` board, with the first player to move.
    pub fn empty(rows: usize, cols: usize) -> (gs: GameState)
        requires
            rows * cols <= MAX_CELLS,
        ensures
            gs@ == Position::empty(rows as nat, cols as nat),
            gs@.wf(),
    {
        let mut board: Vec<Vec<Disc>> = Vec::new();
        let mut r: usize = 0;
        while r < rows
            invariant
                r <= rows,
                board@.len() == r,
                forall|i: int| 0 <= i < r ==> (#[trigger] board@[i])@ == Seq::new(cols as nat, |c: int| None::<Player>),
            decreases rows - r,
        {
            let mut line: Vec<Disc> = Vec::new();
            let mut c: usize = 0;
            while c < cols
                invariant
                    c <= cols,
                    line@.len() == c,
                    forall|j: int| 0 <= j < c ==> #[trigger] line@[j] == None::<Player>,
                decreases cols - c,
            {
                line.push(None);
                c = c + 1;
            }
            assert(line@ =~= Seq::new(cols as nat, |c: int| None::<Player>));
            board.push(line);
            r = r + 1;
        }
        let gs = GameState { turn: Player::P1, board, rows, cols };
        assert(gs@.grid =~= Position::empty(rows as nat, cols as nat).grid);
        gs
    }

    /// The board that the raw cell codes describe: 1 and 2 are discs of the
    /// first and second player, anything else is an empty cell. The player to
    /// move follows from the number of discs.
    pub fn new_from_board(raw_board: Vec<Vec<i8>>) -> (gs: GameState)
        requires
            raw_board@.len() > 0,
            forall|r: int|
                0 <= r < raw_board@.len() ==> (#[trigger] raw_board@[r])@.len()
                    == raw_board@[0]@.len(),
            raw_board@.len() * raw_board@[0]@.len() <= MAX_CELLS,
        ensures
            gs@.wf(),
            gs@.rows == raw_board@.len(),
            gs@.cols == raw_board@[0]@.len(),
            forall|r: int, c: int|
                gs@.in_bounds(r, c) ==> #[trigger] gs@.at(r, c) == decode(raw_board@[r]@[c]),
            gs@.turn_by_parity(),
    {
        let rows = raw_board.len();
        let cols = raw_board[0].len();
        let mut board: Vec<Vec<Disc>> = Vec::new();
        let mut r: usize = 0;
        while r < rows
            invariant
                rows == raw_board@.len(),
                cols == raw_board@[0]@.len(),
                forall|i: int|
                    0 <= i < raw_board@.len() ==> (#[trigger] raw_board@[i])@.len() == cols,
                r <= rows,
                board@.len() == r,
                forall|i: int| 0 <= i < r ==> (#[trigger] board@[i])@.len() == cols,
                forall|i: int, j: int|
                    0 <= i < r && 0 <= j < cols ==> (#[trigger] board@[i]@[j]) == decode(
                        raw_board@[i]@[j],
                    ),
            decreases rows - r,
        {
            let mut line: Vec<Disc> = Vec::new();
            let mut c: usize = 0;
            while c < cols
                invariant
                    forall|i: int|
                        0 <= i < raw_board@.len() ==> (#[trigger] raw_board@[i])@.len() == cols,
                    r < raw_board@.len(),
                    c <= cols,
                    line@.len() == c,
                    forall|j: int|
                        0 <= j < c ==> #[trigger] line@[j] == decode(raw_board@[r as int]@[j]),
                decreases cols - c,
            {
                let code: i8 = raw_board[r][c];
                let disc: Disc = if code == 1 {
                    Some(Player::P1)
                } else if code == 2 {
                    Some(Player::P2)
                } else {
                    None
                };
                line.push(disc);
                c = c + 1;
            }
            board.push(line);
            r = r + 1;
        }
        let placed = placed_discs_board(&board, cols);
        let turn = if is_even(placed) {
            Player::P1
        } else {
            Player::P2
        };
        GameState { turn, board, rows, cols }
    }

    /// A copy of the state.
    pub fn copy(&self) -> (gs: GameState)
        requires
            self@.wf(),
        ensures
            gs@ == self@,
    {
        let mut board: Vec<Vec<Disc>> = Vec::new();
        let mut r: usize = 0;
        proof {
            self.lemma_view();
        }
        while r < self.rows
            invariant
                self@.wf(),
                self.board@.len() == self.rows,
                forall|i: int|
                    0 <= i < self.rows ==> (#[trigger] self.board@[i])@.len() == self.cols,
                r <= self.rows,
                board@.len() == r,
                forall|i: int| 0 <= i < r ==> (#[trigger] board@[i])@ == self.board@[i]@,
            decreases self.rows - r,
        {
            let mut line: Vec<Disc> = Vec::new();
            let mut c: usize = 0;
            while c < self.cols
                invariant
                    self.board@.len() == self.rows,
                    forall|i: int|
                        0 <= i < self.rows ==> (#[trigger] self.board@[i])@.len() == self.cols,
                    r < self.rows,
                    c <= self.cols,
                    line@.len() == c,
                    forall|j: int| 0 <= j < c ==> #[trigger] line@[j] == self.board@[r as int]@[j],
                decreases self.cols - c,
            {
                line.push(self.board[r][c]);
                c = c + 1;
            }
            assert(line@ =~= self.board@[r as int]@);
            board.push(line);
            r = r + 1;
        }
        let gs = GameState { turn: self.turn, board, rows: self.rows, cols: self.cols };
        assert(gs@.grid =~= self@.grid);
        gs
    }

    /// The number of rows.
    pub fn rows(&self) -> (n: usize)
        ensures
            n == self@.rows,
    {
        self.rows
    }

    /// The number of columns.
    pub fn cols(&self) -> (n: usize)
        ensures
            n == self@.cols,
    {
        self.cols
    }

    /// The player to move.
    pub fn turn(&self) -> (p: Player)
        ensures
            p == self@.turn,
    {
        self.turn
    }

    /// What the cell at (`row`, `col`) holds.
    pub fn cell(&self, row: usize, col: usize) -> (d: Disc)
        requires
            self@.wf(),
            self@.in_bounds(row as int, col as int),
        ensures
            d == self@.at(row as int, col as int),
    {
        self.board[row][col]
    }

    /// Whether the two states have the same board and the same player to move.
    pub fn same(&self, other: &GameState) -> (same: bool)
        requires
            self@.wf(),
            other@.wf(),
        ensures
            same == (self@ == other@),
    {
        if self.rows != other.rows || self.cols != other.cols {
            return false;
        }
        let same_turn = match (self.turn, other.turn) {
            (Player::P1, Player::P1) => true,
            (Player::P2, Player::P2) => true,
            _ => false,
        };
        if !same_turn {
            return false;
        }
        let mut r: usize = 0;
        while r < self.rows
            invariant
                self@.wf(),
                other@.wf(),
                self@.rows == other@.rows,
                self@.cols == other@.cols,
                self@.turn == other@.turn,
                r <= self.rows,
                forall|i: int| 0 <= i < r ==> #[trigger] self@.grid[i] == other@.grid[i],
            decreases self.rows - r,
        {
            let mut c: usize = 0;
            while c < self.cols
                invariant
                    self@.wf(),
                    other@.wf(),
                    self@.rows == other@.rows,
                    self@.cols == other@.cols,
                    r < self.rows,
                    c <= self.cols,
                    forall|j: int|
                        0 <= j < c ==> #[trigger] self@.grid[r as int][j] == other@.grid[r as int][j],
                decreases self.cols - c,
            {
                proof {
                    self.lemma_view();
                    other.lemma_view();
                }
                let equal = match (self.board[r][c], other.board[r][c]) {
                    (None, None) => true,
                    (Some(Player::P1), Some(Player::P1)) => true,
                    (Some(Player::P2), Some(Player::P2)) => true,
                    _ => false,
                };
                if !equal {
                    assert(self@.grid[r as int][c as int] != other@.grid[r as int][c as int]);
                    return false;
                }
                c = c + 1;
            }
            assert(self@.grid[r as int] =~= other@.grid[r as int]);
            r = r + 1;
        }
        assert(self@.grid =~= other@.grid);
        true
    }
}

/// Places a disc of the player to move at `mov`.
///
/// Returns the new state, or `None` if the cell is off the board or occupied,
/// or if the disc would float. The given state is left as it is.
pub fn play(mov: Move, gs: &GameState) -> (next: Option<GameState>)
    requires
        gs@.wf(),
    ensures
        next is Some <==> gs@.accepts(mov),
        next matches Some(n) ==> n@ == gs@.after(mov) && n@.wf(),
{
    let Move { row, col } = mov;
    if row >= gs.rows || col >= gs.cols {
        return None;
    }
    assert(gs@.grid[row as int] == gs.board@[row as int]@);
    if gs.board[row][col].is_some() {
        return None;
    }
    if row + 1 < gs.rows {
        assert(gs@.grid[row + 1] == gs.board@[row + 1]@);
        if gs.board[row + 1][col].is_none() {
            return None;
        }
    }
    proof {
        gs.lemma_view();
    }
    let board = with_disc(&gs.board, gs.cols, row, col, Some(gs.turn));
    let next = GameState { turn: next_turn(gs.turn), board, rows: gs.rows, cols: gs.cols };
    proof {
        lemma_after(gs@, mov);
    }
    Some(next)
}

/// The landing cell of column `col`, if the column has room.
fn legal_in_col(gs: &GameState, col: usize) -> (m: Option<Move>)
    requires
        gs@.wf(),
        col < gs@.cols,
    ensures
        m == gs@.landing(col as int),
{
    let mut row: usize = gs.rows;
    while row > 0
        invariant
            gs@.wf(),
            col < gs@.cols,
            row <= gs.rows,
            gs.rows == gs@.rows,
            gs@.lowest_empty_from(col as int, gs@.rows - 1) == gs@.lowest_empty_from(
                col as int,
                row - 1,
            ),
        decreases row,
    {
        row = row - 1;
        assert(gs@.grid[row as int] == gs.board@[row as int]@);
        if gs.board[row][col].is_none() {
            return Some(Move { row, col });
        }
    }
    None
}

/// The moves open to the player to move: the landing cell of every column
/// that has room, by ascending column. Empty when the board is full.
pub fn get_legal(gs: &GameState) -> (moves: Vec<Move>)
    requires
        gs@.wf(),
    ensures
        moves@ == gs@.legal_moves(),
        forall|i: int| 0 <= i < moves@.len() ==> gs@.accepts(#[trigger] moves@[i]),
        moves@.len() == 0 <==> gs@.full(),
{
    proof {
        lemma_legal_moves(gs@);
    }
    let mut moves: Vec<Move> = Vec::new();
    let mut col: usize = 0;
    while col < gs.cols
        invariant
            gs@.wf(),
            gs.cols == gs@.cols,
            col <= gs.cols,
            moves@ == gs@.legal_upto(col as int),
        decreases gs.cols - col,
    {
        match legal_in_col(gs, col) {
            Some(m) => {
                moves.push(m);
            },
            None => {},
        }
        col = col + 1;
    }
    moves
}

/// Whether no cell is empty.
pub fn is_full(gs: &GameState) -> (full: bool)
    requires
        gs@.wf(),
    ensures
        full == gs@.full(),
{
    let mut r: usize = 0;
    while r < gs.rows
        invariant
            gs@.wf(),
            gs.rows == gs@.rows,
            gs.cols == gs@.cols,
            r <= gs.rows,
            forall|i: int, j: int| 0 <= i < r && 0 <= j < gs@.cols ==> (#[trigger] gs@.at(i, j)) is Some,
        decreases gs.rows - r,
    {
        let mut c: usize = 0;
        while c < gs.cols
            invariant
                gs@.wf(),
                gs.rows == gs@.rows,
                gs.cols == gs@.cols,
                r < gs.rows,
                c <= gs.cols,
                forall|i: int, j: int|
                    0 <= i < r && 0 <= j < gs@.cols ==> (#[trigger] gs@.at(i, j)) is Some,
                forall|j: int| 0 <= j < c ==> (#[trigger] gs@.at(r as int, j)) is Some,
            decreases gs.cols - c,
        {
            assert(gs@.grid[r as int] == gs.board@[r as int]@);
            if gs.board[r][c].is_none() {
                assert(gs@.at(r as int, c as int) is None);
                return false;
            }
            c = c + 1;
        }
        r = r + 1;
    }
    true
}

/// The number of discs on the board.
pub fn placed_discs(gs: &GameState) -> (n: usize)
    requires
        gs@.wf(),
    ensures
        n == gs@.discs(),
{
    assert forall|r: int| 0 <= r < gs.board@.len() implies (#[trigger] gs.board@[r])@.len()
        == gs.cols by {
        assert(gs@.grid[r] == gs.board@[r]@);
    }
    placed_discs_board(&gs.board, gs.cols)
}

} // verus!
