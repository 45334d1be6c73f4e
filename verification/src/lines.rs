//! Lines of four: counting them over the whole board, the result of a game
//! and the full evaluation of a position.

use vstd::prelude::*;
use vstd::set_lib::{lemma_len_subset, lemma_set_disjoint_lens};
use crate::board::{cells_before, is_full, lemma_cells_before, GameState, Position};
use crate::player::{other, GameResult, Player};
use crate::score::Score;

verus! {

/// One of the four directions in which four cells can line up.
#[derive(Copy, Clone, Debug, PartialEq, Eq, Structural)]
pub enum Axis {
    /// Along a row, by ascending column.
    Horizontal,
    /// Along a column, by ascending row.
    Vertical,
    /// Down and to the right.
    Diagonal,
    /// Down and to the left.
    AntiDiagonal,
}

/// The cell `k` steps from (`r`, `c`) along `axis`; a negative `k` steps
/// backward.
pub open spec fn along(axis: Axis, r: int, c: int, k: int) -> (int, int) {
    match axis {
        Axis::Horizontal => (r, c + k),
        Axis::Vertical => (r + k, c),
        Axis::Diagonal => (r + k, c + k),
        Axis::AntiDiagonal => (r + k, c - k),
    }
}

/// A number shared by exactly the cells that lie on one line of `axis`.
pub open spec fn line_of(axis: Axis, r: int, c: int) -> int {
    match axis {
        Axis::Horizontal => r,
        Axis::Vertical => c,
        Axis::Diagonal => r - c,
        Axis::AntiDiagonal => r + c,
    }
}

/// A number that grows by one with each step along `axis`.
pub open spec fn place_of(axis: Axis, r: int, c: int) -> int {
    match axis {
        Axis::Horizontal => c,
        _ => r,
    }
}

impl Position {
    /// Whether the cell is on the board and can count toward a line of
    /// `player`: it holds a disc of `player`, or it is empty and empty cells
    /// are allowed.
    pub open spec fn open_to(self, player: Player, allow_empty: bool, r: int, c: int) -> bool {
        self.in_bounds(r, c) && match self.at(r, c) {
            Some(p) => p == player,
            None => allow_empty,
        }
    }

    /// Whether the cell `k` steps from (`r`, `c`) along `axis` is open to
    /// `player`.
    pub open spec fn open_along(
        self,
        player: Player,
        allow_empty: bool,
        axis: Axis,
        r: int,
        c: int,
        k: int,
    ) -> bool {
        self.open_to(player, allow_empty, along(axis, r, c, k).0, along(axis, r, c, k).1)
    }

    /// Whether the four cells that start at (`r`, `c`) and run along `axis` are
    /// all open to `player`.
    pub open spec fn window(
        self,
        player: Player,
        allow_empty: bool,
        axis: Axis,
        r: int,
        c: int,
    ) -> bool {
        &&& self.open_along(player, allow_empty, axis, r, c, 0)
        &&& self.open_along(player, allow_empty, axis, r, c, 1)
        &&& self.open_along(player, allow_empty, axis, r, c, 2)
        &&& self.open_along(player, allow_empty, axis, r, c, 3)
    }

    /// The first cells of the windows along `axis` that are open to `player`.
    pub open spec fn windows(self, player: Player, allow_empty: bool, axis: Axis) -> Set<
        (int, int),
    > {
        Set::new(|a: (int, int)| self.window(player, allow_empty, axis, a.0, a.1))
    }

    /// The windows of `windows` whose line number lies in `lo..hi`.
    pub open spec fn windows_between(
        self,
        player: Player,
        allow_empty: bool,
        axis: Axis,
        lo: int,
        hi: int,
    ) -> Set<(int, int)> {
        Set::new(
            |a: (int, int)|
                self.window(player, allow_empty, axis, a.0, a.1) && lo <= line_of(axis, a.0, a.1)
                    < hi,
        )
    }

    /// The windows on line `line` whose last cell comes before place `bound`.
    pub open spec fn windows_upto(
        self,
        player: Player,
        allow_empty: bool,
        axis: Axis,
        line: int,
        bound: int,
    ) -> Set<(int, int)> {
        Set::new(
            |a: (int, int)|
                self.window(player, allow_empty, axis, a.0, a.1) && line_of(axis, a.0, a.1) == line
                    && place_of(axis, a.0, a.1) + 3 < bound,
        )
    }

    /// The number of windows of four cells, over all four axes, that are open
    /// to `player`. With `allow_empty` these are the lines the player can still
    /// complete; without it, the lines the player has completed.
    pub open spec fn line_count(self, player: Player, allow_empty: bool) -> nat {
        self.windows(player, allow_empty, Axis::Horizontal).len() + self.windows(
            player,
            allow_empty,
            Axis::Vertical,
        ).len() + self.windows(player, allow_empty, Axis::Diagonal).len() + self.windows(
            player,
            allow_empty,
            Axis::AntiDiagonal,
        ).len()
    }

    /// Whether `player` has four discs in a line.
    pub open spec fn has_four(self, player: Player) -> bool {
        exists|axis: Axis, r: int, c: int| self.window(player, false, axis, r, c)
    }

    /// The result of the game, if it is over: a win for a player with four in
    /// a line (the first player is looked at first), else a draw if the board
    /// is full.
    pub open spec fn result(self) -> Option<GameResult> {
        if self.has_four(Player::P1) {
            Some(GameResult::Win(Player::P1))
        } else if self.has_four(Player::P2) {
            Some(GameResult::Win(Player::P2))
        } else if self.full() {
            Some(GameResult::Draw)
        } else {
            None
        }
    }

    /// The evaluation of the position: decided if a player has won, zero for a
    /// draw, and otherwise the lines still open to the first player less those
    /// still open to the second.
    pub open spec fn eval(self) -> Score {
        match self.result() {
            Some(GameResult::Win(Player::P1)) => Score::PosInf,
            Some(GameResult::Win(Player::P2)) => Score::NegInf,
            Some(GameResult::Draw) => Score::Finite(0),
            None => Score::Finite(
                (self.line_count(Player::P1, true) - self.line_count(Player::P2, true)) as i32,
            ),
        }
    }
}

/// Every set of windows is finite and no larger than the board.
pub proof fn lemma_windows_bound(
    p: Position,
    player: Player,
    allow_empty: bool,
    axis: Axis,
    s: Set<(int, int)>,
)
    requires
        p.wf(),
        s.subset_of(p.windows(player, allow_empty, axis)),
    ensures
        s.finite(),
        s.len() <= p.rows * p.cols,
{
    let all = cells_before(p.cols, p.rows as int, 0);
    lemma_cells_before(p.cols, p.rows as int, 0);
    assert forall|a: (int, int)| s.contains(a) implies all.contains(a) by {
        assert(p.windows(player, allow_empty, axis).contains(a));
        assert(p.open_along(player, allow_empty, axis, a.0, a.1, 0));
    }
    lemma_len_subset(s, all);
}

/// The line counts of a well-formed position are no larger than four times the
/// board.
pub proof fn lemma_line_count_bound(p: Position, player: Player, allow_empty: bool)
    requires
        p.wf(),
    ensures
        p.line_count(player, allow_empty) <= 4 * (p.rows * p.cols),
        p.windows(player, allow_empty, Axis::Horizontal).finite(),
        p.windows(player, allow_empty, Axis::Vertical).finite(),
        p.windows(player, allow_empty, Axis::Diagonal).finite(),
        p.windows(player, allow_empty, Axis::AntiDiagonal).finite(),
{
    lemma_windows_bound(p, player, allow_empty, Axis::Horizontal, p.windows(player, allow_empty, Axis::Horizontal));
    lemma_windows_bound(p, player, allow_empty, Axis::Vertical, p.windows(player, allow_empty, Axis::Vertical));
    lemma_windows_bound(p, player, allow_empty, Axis::Diagonal, p.windows(player, allow_empty, Axis::Diagonal));
    lemma_windows_bound(p, player, allow_empty, Axis::AntiDiagonal, p.windows(player, allow_empty, Axis::AntiDiagonal));
}

/// A player has four in a line exactly when the count of completed lines is
/// not zero.
pub proof fn lemma_has_four(p: Position, player: Player)
    requires
        p.wf(),
    ensures
        p.has_four(player) <==> p.line_count(player, false) > 0,
{
    lemma_line_count_bound(p, player, false);
    let h = p.windows(player, false, Axis::Horizontal);
    let v = p.windows(player, false, Axis::Vertical);
    let d = p.windows(player, false, Axis::Diagonal);
    let a = p.windows(player, false, Axis::AntiDiagonal);
    if p.has_four(player) {
        let (axis, r, c) = choose|axis: Axis, r: int, c: int| p.window(player, false, axis, r, c);
        let s = p.windows(player, false, axis);
        assert(s.contains((r, c)));
        assert(s.len() > 0) by {
            if s.len() == 0 {
                s.lemma_len0_is_empty();
            }
        }
    }
    if p.line_count(player, false) > 0 {
        let s = if h.len() > 0 {
            h
        } else if v.len() > 0 {
            v
        } else if d.len() > 0 {
            d
        } else {
            a
        };
        let axis = if h.len() > 0 {
            Axis::Horizontal
        } else if v.len() > 0 {
            Axis::Vertical
        } else if d.len() > 0 {
            Axis::Diagonal
        } else {
            Axis::AntiDiagonal
        };
        assert(s.len() > 0);
        let w = s.choose();
        assert(s.contains(w));
        assert(p.window(player, false, axis, w.0, w.1));
    }
}

impl Position {
    /// The position with every disc handed to the other player.
    pub open spec fn relabeled(self) -> Position {
        Position {
            turn: self.turn,
            rows: self.rows,
            cols: self.cols,
            grid: Seq::new(
                self.rows,
                |r: int|
                    Seq::new(
                        self.cols,
                        |c: int|
                            match self.grid[r][c] {
                                Some(p) => Some(other(p)),
                                None => None,
                            },
                    ),
            ),
        }
    }
}

/// Relabeling the discs negates a finite evaluation.
///
/// What was open to one player is open to the other after all discs have
/// changed hands, so the two counts of open lines change places. A game that
/// nobody has won, in progress or drawn, is in the same state afterwards.
pub proof fn lemma_relabeled_eval(p: Position)
    requires
        p.wf(),
        p.eval() is Finite,
    ensures
        p.relabeled().wf(),
        p.relabeled().result() == p.result(),
        p.relabeled().eval() == p.eval().negated(),
{
    let q = p.relabeled();
    assert(q.wf());
    assert forall|player: Player, allow_empty: bool, r: int, c: int|
        #[trigger] q.open_to(player, allow_empty, r, c) == p.open_to(
            other(player),
            allow_empty,
            r,
            c,
        ) by {}
    assert forall|player: Player, allow_empty: bool, axis: Axis| #[trigger]
        q.windows(player, allow_empty, axis) == p.windows(other(player), allow_empty, axis) by {
        assert(q.windows(player, allow_empty, axis) =~= p.windows(
            other(player),
            allow_empty,
            axis,
        ));
    }
    assert forall|player: Player| #[trigger] q.has_four(player) == p.has_four(other(player)) by {
        if q.has_four(player) {
            let (axis, r, c) = choose|axis: Axis, r: int, c: int|
                q.window(player, false, axis, r, c);
            assert(q.windows(player, false, axis).contains((r, c)));
            assert(p.windows(other(player), false, axis).contains((r, c)));
            assert(p.window(other(player), false, axis, r, c));
        }
        if p.has_four(other(player)) {
            let (axis, r, c) = choose|axis: Axis, r: int, c: int|
                p.window(other(player), false, axis, r, c);
            assert(p.windows(other(player), false, axis).contains((r, c)));
            assert(q.windows(player, false, axis).contains((r, c)));
            assert(q.window(player, false, axis, r, c));
        }
    }
    assert(q.has_four(Player::P1) == p.has_four(Player::P2));
    assert(q.has_four(Player::P2) == p.has_four(Player::P1));
    assert(q.full() == p.full()) by {
        if p.full() {
            assert forall|r: int, c: int| q.in_bounds(r, c) implies (#[trigger] q.at(r, c)) is Some by {
                assert(p.at(r, c) is Some);
            }
        }
        if q.full() {
            assert forall|r: int, c: int| p.in_bounds(r, c) implies (#[trigger] p.at(r, c)) is Some by {
                assert(q.at(r, c) is Some);
            }
        }
    }
    assert(q.windows(Player::P1, true, Axis::Horizontal) == p.windows(Player::P2, true, Axis::Horizontal));
    assert(q.windows(Player::P1, true, Axis::Vertical) == p.windows(Player::P2, true, Axis::Vertical));
    assert(q.windows(Player::P1, true, Axis::Diagonal) == p.windows(Player::P2, true, Axis::Diagonal));
    assert(q.windows(Player::P1, true, Axis::AntiDiagonal) == p.windows(Player::P2, true, Axis::AntiDiagonal));
    assert(q.windows(Player::P2, true, Axis::Horizontal) == p.windows(Player::P1, true, Axis::Horizontal));
    assert(q.windows(Player::P2, true, Axis::Vertical) == p.windows(Player::P1, true, Axis::Vertical));
    assert(q.windows(Player::P2, true, Axis::Diagonal) == p.windows(Player::P1, true, Axis::Diagonal));
    assert(q.windows(Player::P2, true, Axis::AntiDiagonal) == p.windows(Player::P1, true, Axis::AntiDiagonal));
    lemma_line_count_bound(p, Player::P1, true);
    lemma_line_count_bound(p, Player::P2, true);
}

/// Adding the windows of line `hi` to those of the lines `lo..hi`.
proof fn lemma_add_line_above(
    p: Position,
    player: Player,
    allow_empty: bool,
    axis: Axis,
    lo: int,
    hi: int,
    line: Set<(int, int)>,
)
    requires
        p.wf(),
        lo <= hi,
        line == p.windows_between(player, allow_empty, axis, hi, hi + 1),
    ensures
        p.windows_between(player, allow_empty, axis, lo, hi + 1).finite(),
        p.windows_between(player, allow_empty, axis, lo, hi + 1).len() == p.windows_between(
            player,
            allow_empty,
            axis,
            lo,
            hi,
        ).len() + line.len(),
        p.windows_between(player, allow_empty, axis, lo, hi + 1).len() <= p.rows * p.cols,
{
    let below = p.windows_between(player, allow_empty, axis, lo, hi);
    let all = p.windows_between(player, allow_empty, axis, lo, hi + 1);
    lemma_windows_bound(p, player, allow_empty, axis, below);
    lemma_windows_bound(p, player, allow_empty, axis, line);
    lemma_windows_bound(p, player, allow_empty, axis, all);
    assert(below.disjoint(line));
    assert(all =~= below + line);
    lemma_set_disjoint_lens(below, line);
}

/// Adding the windows of line `lo - 1` to those of the lines `lo..hi`.
proof fn lemma_add_line_below(
    p: Position,
    player: Player,
    allow_empty: bool,
    axis: Axis,
    lo: int,
    hi: int,
    line: Set<(int, int)>,
)
    requires
        p.wf(),
        lo <= hi,
        line == p.windows_between(player, allow_empty, axis, lo - 1, lo),
    ensures
        p.windows_between(player, allow_empty, axis, lo - 1, hi).finite(),
        p.windows_between(player, allow_empty, axis, lo - 1, hi).len() == p.windows_between(
            player,
            allow_empty,
            axis,
            lo,
            hi,
        ).len() + line.len(),
        p.windows_between(player, allow_empty, axis, lo - 1, hi).len() <= p.rows * p.cols,
{
    let above = p.windows_between(player, allow_empty, axis, lo, hi);
    let all = p.windows_between(player, allow_empty, axis, lo - 1, hi);
    lemma_windows_bound(p, player, allow_empty, axis, above);
    lemma_windows_bound(p, player, allow_empty, axis, line);
    lemma_windows_bound(p, player, allow_empty, axis, all);
    assert(above.disjoint(line));
    assert(all =~= above + line);
    lemma_set_disjoint_lens(above, line);
}

/// Whether the `len` cells from (`row`, `col`) along `axis` are exactly the
/// cells of the board on that line.
pub open spec fn whole_line(p: Position, axis: Axis, row: int, col: int, len: int) -> bool {
    &&& forall|k: int|
        0 <= k < len ==> p.in_bounds(
            (#[trigger] along(axis, row, col, k)).0,
            along(axis, row, col, k).1,
        )
    &&& forall|r: int, c: int|
        #[trigger] p.in_bounds(r, c) && line_of(axis, r, c) == line_of(axis, row, col) ==> 0
            <= place_of(axis, r, c) - place_of(axis, row, col) < len
}

/// One step of the scan along a line: the window that ends at cell `k` is open
/// exactly when the cell is open and the run before it was three long.
proof fn lemma_scan_step(
    p: Position,
    player: Player,
    allow_empty: bool,
    axis: Axis,
    row: int,
    col: int,
    len: int,
    k: int,
    run: int,
)
    requires
        p.wf(),
        whole_line(p, axis, row, col, len),
        0 <= k < len,
        0 <= run <= 3,
        run <= k,
        forall|j: int| 1 <= j <= run ==> #[trigger] p.open_along(player, allow_empty, axis, row, col, k - j),
        run < 3 && run < k ==> !p.open_along(player, allow_empty, axis, row, col, k - run - 1),
    ensures
        ({
            let line = line_of(axis, row, col);
            let start = place_of(axis, row, col);
            let before = p.windows_upto(player, allow_empty, axis, line, start + k);
            let after = p.windows_upto(player, allow_empty, axis, line, start + k + 1);
            let first = along(axis, row, col, k - 3);
            if p.open_along(player, allow_empty, axis, row, col, k) && run == 3 {
                !before.contains(first) && after == before.insert(first)
            } else {
                after == before
            }
        }),
{
    let line = line_of(axis, row, col);
    let start = place_of(axis, row, col);
    let before = p.windows_upto(player, allow_empty, axis, line, start + k);
    let after = p.windows_upto(player, allow_empty, axis, line, start + k + 1);
    let first = along(axis, row, col, k - 3);
    let open = p.open_along(player, allow_empty, axis, row, col, k);
    // A window that closes at cell `k` starts three cells back.
    assert forall|a: (int, int)|
        p.window(player, allow_empty, axis, a.0, a.1) && line_of(axis, a.0, a.1) == line
            && place_of(axis, a.0, a.1) + 3 == start + k implies a == first && k >= 3 by {
        assert(p.open_along(player, allow_empty, axis, a.0, a.1, 0));
        assert(p.in_bounds(a.0, a.1));
    }
    assert(along(axis, first.0, first.1, 0) == along(axis, row, col, k - 3));
    assert(along(axis, first.0, first.1, 1) == along(axis, row, col, k - 2));
    assert(along(axis, first.0, first.1, 2) == along(axis, row, col, k - 1));
    assert(along(axis, first.0, first.1, 3) == along(axis, row, col, k));
    if p.window(player, allow_empty, axis, first.0, first.1) {
        assert(p.open_along(player, allow_empty, axis, first.0, first.1, 0));
        assert(p.open_along(player, allow_empty, axis, first.0, first.1, 1));
        assert(p.open_along(player, allow_empty, axis, first.0, first.1, 2));
        assert(p.open_along(player, allow_empty, axis, first.0, first.1, 3));
        assert(p.in_bounds(first.0, first.1));
        assert(k >= 3);
        assert(p.open_along(player, allow_empty, axis, row, col, k - 3));
        assert(p.open_along(player, allow_empty, axis, row, col, k - 2));
        assert(p.open_along(player, allow_empty, axis, row, col, k - 1));
        assert(open);
        assert(run == 3);
    }
    if open && run == 3 {
        assert(p.open_along(player, allow_empty, axis, row, col, k - 1));
        assert(p.open_along(player, allow_empty, axis, row, col, k - 2));
        assert(p.open_along(player, allow_empty, axis, row, col, k - 3));
        assert(p.window(player, allow_empty, axis, first.0, first.1));
        assert(line_of(axis, first.0, first.1) == line);
        assert(place_of(axis, first.0, first.1) + 3 == start + k);
        assert(after =~= before.insert(first));
        assert(!before.contains(first));
    } else {
        assert(after =~= before);
    }
}

/// Before the first cell of a line no window has closed; after the last cell
/// every window of the line has.
proof fn lemma_scan_ends(
    p: Position,
    player: Player,
    allow_empty: bool,
    axis: Axis,
    row: int,
    col: int,
    len: int,
)
    requires
        p.wf(),
        0 <= len,
        whole_line(p, axis, row, col, len),
    ensures
        p.windows_upto(player, allow_empty, axis, line_of(axis, row, col), place_of(axis, row, col))
            == Set::<(int, int)>::empty(),
        p.windows_upto(
            player,
            allow_empty,
            axis,
            line_of(axis, row, col),
            place_of(axis, row, col) + len,
        ) == p.windows_between(
            player,
            allow_empty,
            axis,
            line_of(axis, row, col),
            line_of(axis, row, col) + 1,
        ),
{
    let line = line_of(axis, row, col);
    let start = place_of(axis, row, col);
    assert(p.windows_upto(player, allow_empty, axis, line, start) =~= Set::empty()) by {
        assert forall|a: (int, int)|
            !(#[trigger] p.windows_upto(player, allow_empty, axis, line, start).contains(a)) by {
            if p.window(player, allow_empty, axis, a.0, a.1) && line_of(axis, a.0, a.1) == line {
                assert(p.open_along(player, allow_empty, axis, a.0, a.1, 0));
                assert(p.in_bounds(a.0, a.1));
            }
        }
    }
    assert(p.windows_upto(player, allow_empty, axis, line, start + len) =~= p.windows_between(
        player,
        allow_empty,
        axis,
        line,
        line + 1,
    )) by {
        assert forall|a: (int, int)| #[trigger]
            p.windows_between(player, allow_empty, axis, line, line + 1).contains(
                a,
            ) implies p.windows_upto(player, allow_empty, axis, line, start + len).contains(a) by {
            assert(p.open_along(player, allow_empty, axis, a.0, a.1, 3));
            let last = along(axis, a.0, a.1, 3);
            assert(p.in_bounds(last.0, last.1));
            assert(line_of(axis, last.0, last.1) == line);
        }
    }
}

/// Counts the open windows on one line of the board.
///
/// The line starts at (`row`, `col`), runs along `axis` and has `len` cells.
/// A counter follows the run of open cells that ends at the current cell; each
/// cell at which the run reaches four closes one window.
fn count_in_line(
    gs: &GameState,
    player: Player,
    possible_wins: bool,
    axis: Axis,
    row: usize,
    col: usize,
    len: usize,
) -> (wins: usize)
    requires
        gs@.wf(),
        whole_line(gs@, axis, row as int, col as int, len as int),
    ensures
        wins == gs@.windows_between(
            player,
            possible_wins,
            axis,
            line_of(axis, row as int, col as int),
            line_of(axis, row as int, col as int) + 1,
        ).len(),
{
    let ghost pos = gs@;
    let ghost line = line_of(axis, row as int, col as int);
    let ghost start = place_of(axis, row as int, col as int);
    let rows = gs.rows();
    let cols = gs.cols();
    let mut wins: usize = 0;
    let mut in_a_row: usize = 0;
    let mut k: usize = 0;
    proof {
        lemma_scan_ends(pos, player, possible_wins, axis, row as int, col as int, len as int);
    }
    while k < len
        invariant
            pos == gs@,
            pos.wf(),
            rows == pos.rows,
            cols == pos.cols,
            line == line_of(axis, row as int, col as int),
            start == place_of(axis, row as int, col as int),
            whole_line(pos, axis, row as int, col as int, len as int),
            k <= len,
            in_a_row <= 3,
            in_a_row <= k,
            forall|j: int|
                1 <= j <= in_a_row ==> #[trigger] pos.open_along(
                    player,
                    possible_wins,
                    axis,
                    row as int,
                    col as int,
                    k - j,
                ),
            in_a_row < 3 && in_a_row < k ==> !pos.open_along(
                player,
                possible_wins,
                axis,
                row as int,
                col as int,
                k - in_a_row - 1,
            ),
            pos.windows_upto(player, possible_wins, axis, line, start + k).finite(),
            wins == pos.windows_upto(player, possible_wins, axis, line, start + k).len(),
            wins <= k,
        decreases len - k,
    {
        let ghost here = along(axis, row as int, col as int, k as int);
        assert(pos.in_bounds(here.0, here.1));
        let (r, c) = match axis {
            Axis::Horizontal => (row, col + k),
            Axis::Vertical => (row + k, col),
            Axis::Diagonal => (row + k, col + k),
            Axis::AntiDiagonal => (row + k, col - k),
        };
        let open = match gs.cell(r, c) {
            Some(p) => p == player,
            None => possible_wins,
        };
        proof {
            lemma_scan_step(
                pos,
                player,
                possible_wins,
                axis,
                row as int,
                col as int,
                len as int,
                k as int,
                in_a_row as int,
            );
        }
        let ghost run = in_a_row;
        if open {
            in_a_row = in_a_row + 1;
        } else {
            in_a_row = 0;
        }
        if in_a_row == 4 {
            wins = wins + 1;
            in_a_row = 3;
        }
        k = k + 1;
        proof {
            assert forall|j: int| 1 <= j <= in_a_row implies #[trigger] pos.open_along(
                player,
                possible_wins,
                axis,
                row as int,
                col as int,
                k - j,
            ) by {
                if j > 1 {
                    assert(pos.open_along(
                        player,
                        possible_wins,
                        axis,
                        row as int,
                        col as int,
                        (k - 1) - (j - 1),
                    ));
                }
            }
        }
    }
    wins
}

/// The smaller of two lengths.
fn shorter(a: usize, b: usize) -> (m: usize)
    ensures
        m == if a <= b {
            a
        } else {
            b
        },
{
    if a <= b {
        a
    } else {
        b
    }
}

/// The number of windows along the rows that are open to `player`.
fn win_in_row(gs: &GameState, player: Player, possible_wins: bool) -> (wins: usize)
    requires
        gs@.wf(),
    ensures
        wins == gs@.windows(player, possible_wins, Axis::Horizontal).len(),
{
    let rows = gs.rows();
    let cols = gs.cols();
    let mut wins: usize = 0;
    let mut row: usize = 0;
    assert(gs@.windows_between(player, possible_wins, Axis::Horizontal, 0, 0) =~= Set::empty());
    while row < rows
        invariant
            gs@.wf(),
            rows == gs@.rows,
            cols == gs@.cols,
            row <= rows,
            wins == gs@.windows_between(player, possible_wins, Axis::Horizontal, 0, row as int).len(),
        decreases rows - row,
    {
        let n = count_in_line(gs, player, possible_wins, Axis::Horizontal, row, 0, cols);
        proof {
            lemma_add_line_above(
                gs@,
                player,
                possible_wins,
                Axis::Horizontal,
                0,
                row as int,
                gs@.windows_between(player, possible_wins, Axis::Horizontal, row as int, row + 1),
            );
        }
        wins = wins + n;
        row = row + 1;
    }
    assert(gs@.windows_between(player, possible_wins, Axis::Horizontal, 0, rows as int)
        =~= gs@.windows(player, possible_wins, Axis::Horizontal)) by {
        assert forall|a: (int, int)|
            #[trigger] gs@.windows(player, possible_wins, Axis::Horizontal).contains(
                a,
            ) implies gs@.windows_between(player, possible_wins, Axis::Horizontal, 0, rows as int).contains(
            a,
        ) by {
            assert(gs@.open_along(player, possible_wins, Axis::Horizontal, a.0, a.1, 0));
        }
    }
    wins
}

/// The number of windows along the columns that are open to `player`.
fn win_in_col(gs: &GameState, player: Player, possible_wins: bool) -> (wins: usize)
    requires
        gs@.wf(),
    ensures
        wins == gs@.windows(player, possible_wins, Axis::Vertical).len(),
{
    let rows = gs.rows();
    let cols = gs.cols();
    let mut wins: usize = 0;
    let mut col: usize = 0;
    assert(gs@.windows_between(player, possible_wins, Axis::Vertical, 0, 0) =~= Set::empty());
    while col < cols
        invariant
            gs@.wf(),
            rows == gs@.rows,
            cols == gs@.cols,
            col <= cols,
            wins == gs@.windows_between(player, possible_wins, Axis::Vertical, 0, col as int).len(),
        decreases cols - col,
    {
        let n = count_in_line(gs, player, possible_wins, Axis::Vertical, 0, col, rows);
        proof {
            lemma_add_line_above(
                gs@,
                player,
                possible_wins,
                Axis::Vertical,
                0,
                col as int,
                gs@.windows_between(player, possible_wins, Axis::Vertical, col as int, col + 1),
            );
        }
        wins = wins + n;
        col = col + 1;
    }
    assert(gs@.windows_between(player, possible_wins, Axis::Vertical, 0, cols as int)
        =~= gs@.windows(player, possible_wins, Axis::Vertical)) by {
        assert forall|a: (int, int)|
            #[trigger] gs@.windows(player, possible_wins, Axis::Vertical).contains(
                a,
            ) implies gs@.windows_between(player, possible_wins, Axis::Vertical, 0, cols as int).contains(
            a,
        ) by {
            assert(gs@.open_along(player, possible_wins, Axis::Vertical, a.0, a.1, 0));
        }
    }
    wins
}

/// The number of windows that run down and to the right and are open to
/// `player`. The lines that start on the left edge come first, then those that
/// start on the top edge.
fn win_in_diag_tl_to_br(gs: &GameState, player: Player, possible_wins: bool) -> (wins: usize)
    requires
        gs@.wf(),
    ensures
        wins == gs@.windows(player, possible_wins, Axis::Diagonal).len(),
{
    let rows = gs.rows();
    let cols = gs.cols();
    if rows < 4 || cols < 4 {
        assert(gs@.windows(player, possible_wins, Axis::Diagonal) =~= Set::empty()) by {
            assert forall|a: (int, int)|
                !(#[trigger] gs@.windows(player, possible_wins, Axis::Diagonal).contains(a)) by {
                if gs@.window(player, possible_wins, Axis::Diagonal, a.0, a.1) {
                    assert(gs@.open_along(player, possible_wins, Axis::Diagonal, a.0, a.1, 0));
                    assert(gs@.open_along(player, possible_wins, Axis::Diagonal, a.0, a.1, 3));
                }
            }
        }
        return 0;
    }
    let mut wins: usize = 0;
    let mut start_row: usize = 0;
    assert(gs@.windows_between(player, possible_wins, Axis::Diagonal, 0, 0) =~= Set::empty());
    while start_row < rows - 3
        invariant
            gs@.wf(),
            rows == gs@.rows,
            cols == gs@.cols,
            rows >= 4,
            cols >= 4,
            start_row <= rows - 3,
            wins == gs@.windows_between(player, possible_wins, Axis::Diagonal, 0, start_row as int).len(),
        decreases rows - start_row,
    {
        let len = shorter(rows - start_row, cols);
        let n = count_in_line(gs, player, possible_wins, Axis::Diagonal, start_row, 0, len);
        proof {
            lemma_add_line_above(
                gs@,
                player,
                possible_wins,
                Axis::Diagonal,
                0,
                start_row as int,
                gs@.windows_between(
                    player,
                    possible_wins,
                    Axis::Diagonal,
                    start_row as int,
                    start_row + 1,
                ),
            );
        }
        wins = wins + n;
        start_row = start_row + 1;
    }
    let mut start_col: usize = 1;
    while start_col < cols - 3
        invariant
            gs@.wf(),
            rows == gs@.rows,
            cols == gs@.cols,
            rows >= 4,
            cols >= 4,
            1 <= start_col <= cols - 3,
            wins == gs@.windows_between(
                player,
                possible_wins,
                Axis::Diagonal,
                1 - start_col,
                rows - 3,
            ).len(),
        decreases cols - start_col,
    {
        let len = shorter(rows, cols - start_col);
        let n = count_in_line(gs, player, possible_wins, Axis::Diagonal, 0, start_col, len);
        proof {
            lemma_add_line_below(
                gs@,
                player,
                possible_wins,
                Axis::Diagonal,
                1 - start_col,
                rows - 3,
                gs@.windows_between(
                    player,
                    possible_wins,
                    Axis::Diagonal,
                    -(start_col as int),
                    1 - start_col,
                ),
            );
        }
        wins = wins + n;
        start_col = start_col + 1;
    }
    assert(gs@.windows_between(player, possible_wins, Axis::Diagonal, 4 - cols, rows - 3)
        =~= gs@.windows(player, possible_wins, Axis::Diagonal)) by {
        assert forall|a: (int, int)|
            #[trigger] gs@.windows(player, possible_wins, Axis::Diagonal).contains(
                a,
            ) implies gs@.windows_between(
            player,
            possible_wins,
            Axis::Diagonal,
            4 - cols,
            rows - 3,
        ).contains(a) by {
            assert(gs@.open_along(player, possible_wins, Axis::Diagonal, a.0, a.1, 0));
            assert(gs@.open_along(player, possible_wins, Axis::Diagonal, a.0, a.1, 3));
        }
    }
    wins
}

/// The number of windows that run down and to the left and are open to
/// `player`. The lines that start on the top edge come first, then those that
/// start on the right edge.
fn win_in_diag_tr_to_bl(gs: &GameState, player: Player, possible_wins: bool) -> (wins: usize)
    requires
        gs@.wf(),
    ensures
        wins == gs@.windows(player, possible_wins, Axis::AntiDiagonal).len(),
{
    let rows = gs.rows();
    let cols = gs.cols();
    if rows < 4 || cols < 4 {
        assert(gs@.windows(player, possible_wins, Axis::AntiDiagonal) =~= Set::empty()) by {
            assert forall|a: (int, int)|
                !(#[trigger] gs@.windows(player, possible_wins, Axis::AntiDiagonal).contains(
                    a,
                )) by {
                if gs@.window(player, possible_wins, Axis::AntiDiagonal, a.0, a.1) {
                    assert(gs@.open_along(player, possible_wins, Axis::AntiDiagonal, a.0, a.1, 0));
                    assert(gs@.open_along(player, possible_wins, Axis::AntiDiagonal, a.0, a.1, 3));
                }
            }
        }
        return 0;
    }
    let mut wins: usize = 0;
    let mut start_col: usize = 3;
    assert(gs@.windows_between(player, possible_wins, Axis::AntiDiagonal, 3, 3) =~= Set::empty());
    while start_col < cols - 1
        invariant
            gs@.wf(),
            rows == gs@.rows,
            cols == gs@.cols,
            rows >= 4,
            cols >= 4,
            3 <= start_col <= cols - 1,
            wins == gs@.windows_between(
                player,
                possible_wins,
                Axis::AntiDiagonal,
                3,
                start_col as int,
            ).len(),
        decreases cols - start_col,
    {
        let len = shorter(rows, start_col + 1);
        let n = count_in_line(gs, player, possible_wins, Axis::AntiDiagonal, 0, start_col, len);
        proof {
            lemma_add_line_above(
                gs@,
                player,
                possible_wins,
                Axis::AntiDiagonal,
                3,
                start_col as int,
                gs@.windows_between(
                    player,
                    possible_wins,
                    Axis::AntiDiagonal,
                    start_col as int,
                    start_col + 1,
                ),
            );
        }
        wins = wins + n;
        start_col = start_col + 1;
    }
    let mut start_row: usize = 0;
    while start_row < rows - 3
        invariant
            gs@.wf(),
            rows == gs@.rows,
            cols == gs@.cols,
            rows >= 4,
            cols >= 4,
            start_row <= rows - 3,
            wins == gs@.windows_between(
                player,
                possible_wins,
                Axis::AntiDiagonal,
                3,
                cols - 1 + start_row,
            ).len(),
        decreases rows - start_row,
    {
        let len = shorter(rows - start_row, cols);
        let n = count_in_line(
            gs,
            player,
            possible_wins,
            Axis::AntiDiagonal,
            start_row,
            cols - 1,
            len,
        );
        proof {
            lemma_add_line_above(
                gs@,
                player,
                possible_wins,
                Axis::AntiDiagonal,
                3,
                cols - 1 + start_row,
                gs@.windows_between(
                    player,
                    possible_wins,
                    Axis::AntiDiagonal,
                    cols - 1 + start_row,
                    cols + start_row,
                ),
            );
        }
        wins = wins + n;
        start_row = start_row + 1;
    }
    assert(gs@.windows_between(player, possible_wins, Axis::AntiDiagonal, 3, cols + rows - 4)
        =~= gs@.windows(player, possible_wins, Axis::AntiDiagonal)) by {
        assert forall|a: (int, int)|
            #[trigger] gs@.windows(player, possible_wins, Axis::AntiDiagonal).contains(
                a,
            ) implies gs@.windows_between(
            player,
            possible_wins,
            Axis::AntiDiagonal,
            3,
            cols + rows - 4,
        ).contains(a) by {
            assert(gs@.open_along(player, possible_wins, Axis::AntiDiagonal, a.0, a.1, 0));
            assert(gs@.open_along(player, possible_wins, Axis::AntiDiagonal, a.0, a.1, 3));
        }
    }
    wins
}

/// The number of windows of four cells, over all four axes, that are open to
/// `player`: with `possible_wins` the lines that the player can still complete,
/// without it the lines that the player has completed.
pub fn num_wins(gs: &GameState, player: Player, possible_wins: bool) -> (wins: i32)
    requires
        gs@.wf(),
    ensures
        wins == gs@.line_count(player, possible_wins),
{
    proof {
        lemma_line_count_bound(gs@, player, possible_wins);
    }
    let in_rows = win_in_row(gs, player, possible_wins);
    let in_cols = win_in_col(gs, player, possible_wins);
    let down_right = win_in_diag_tl_to_br(gs, player, possible_wins);
    let down_left = win_in_diag_tr_to_bl(gs, player, possible_wins);
    let wins = in_rows + in_cols + down_right + down_left;
    wins as i32
}

/// The result of the game, if it is over.
///
/// A player with four in a line has won; the first player is looked at first.
/// Without a winner a full board is a draw, and any other board has no result
/// yet.
pub fn result(gs: &GameState) -> (res: Option<GameResult>)
    requires
        gs@.wf(),
    ensures
        res == gs@.result(),
{
    proof {
        lemma_has_four(gs@, Player::P1);
        lemma_has_four(gs@, Player::P2);
    }
    if num_wins(gs, Player::P1, false) != 0 {
        return Some(GameResult::Win(Player::P1));
    }
    if num_wins(gs, Player::P2, false) != 0 {
        return Some(GameResult::Win(Player::P2));
    }
    if is_full(gs) {
        Some(GameResult::Draw)
    } else {
        None
    }
}

/// The evaluation of a position from scratch: decided if a player has won,
/// zero for a draw, and otherwise the number of lines still open to the first
/// player less the number still open to the second.
pub fn eval(gs: &GameState) -> (score: Score)
    requires
        gs@.wf(),
    ensures
        score == gs@.eval(),
{
    match result(gs) {
        Some(GameResult::Win(Player::P1)) => Score::PosInf,
        Some(GameResult::Win(Player::P2)) => Score::NegInf,
        Some(GameResult::Draw) => Score::Finite(0),
        None => {
            proof {
                lemma_line_count_bound(gs@, Player::P1, true);
                lemma_line_count_bound(gs@, Player::P2, true);
            }
            Score::Finite(num_wins(gs, Player::P1, true) - num_wins(gs, Player::P2, true))
        },
    }
}

} // verus!
