//! Incremental evaluation: the lines that one move makes or breaks, found
//! along the rays of the move's cell without looking at the rest of the board.

use vstd::prelude::*;
use vstd::set_lib::lemma_set_disjoint_lens;
use crate::board::{lemma_after, lemma_discs_bound, GameState, Move, Position, MAX_CELLS};
use crate::geometry::{axis_at, coords, is_axis_pairs, ray, ray_len, ray_step, GameGlobals};
use crate::lines::{
    along, lemma_line_count_bound, lemma_windows_bound, line_of, place_of, Axis,
};
use crate::padded::{lemma_asymmetry_step, lemma_mismatched_bound, Padded, PaddedGameState};
use crate::player::{next_turn, other, GameResult, Player};
use crate::score::Score;

verus! {

/// How many cells of `cells`, from the `k`-th on, are open to `player` before
/// the first that is not.
pub open spec fn run_from(
    p: Position,
    player: Player,
    allow_empty: bool,
    cells: Seq<(int, int)>,
    k: int,
) -> int
    decreases cells.len() - k,
{
    if 0 <= k < cells.len() && p.open_to(player, allow_empty, cells[k].0, cells[k].1) {
        1 + run_from(p, player, allow_empty, cells, k + 1)
    } else {
        0
    }
}

pub open spec fn max0(x: int) -> int {
    if x >= 0 {
        x
    } else {
        0
    }
}

/// What two runs on either side of a cell are worth.
///
/// With `allow_empty` this is the number of windows of four through the cell
/// that the runs cover: a run counts for at most three cells. Without it, it
/// is the combined length of the runs beyond two, which is not zero exactly
/// when the runs and the cell make four in a line.
pub open spec fn gain(backward: int, forward: int, allow_empty: bool) -> int {
    if allow_empty {
        max0(forward + backward - 2) - max0(forward - 3) - max0(backward - 3)
    } else {
        max0(forward + backward - 2)
    }
}

impl Position {
    /// The length of the unbroken run of cells open to `player` that starts
    /// next to (`r`, `c`) and leaves it along `axis`, forward or backward.
    pub open spec fn run(
        self,
        player: Player,
        allow_empty: bool,
        axis: Axis,
        forward: bool,
        r: int,
        c: int,
    ) -> int {
        run_from(
            self,
            player,
            allow_empty,
            ray(self.rows as int, self.cols as int, axis, forward, r, c),
            0,
        )
    }

    /// What the two runs along `axis` on either side of (`r`, `c`) are worth.
    pub open spec fn axis_gain(
        self,
        player: Player,
        allow_empty: bool,
        axis: Axis,
        r: int,
        c: int,
    ) -> int {
        gain(
            self.run(player, allow_empty, axis, false, r, c),
            self.run(player, allow_empty, axis, true, r, c),
            allow_empty,
        )
    }

    /// The gains of the first `i` axes around (`r`, `c`).
    pub open spec fn gains_before(
        self,
        player: Player,
        allow_empty: bool,
        r: int,
        c: int,
        i: int,
    ) -> int {
        (if i > 0 {
            self.axis_gain(player, allow_empty, Axis::Horizontal, r, c)
        } else {
            0
        }) + (if i > 1 {
            self.axis_gain(player, allow_empty, Axis::Vertical, r, c)
        } else {
            0
        }) + (if i > 2 {
            self.axis_gain(player, allow_empty, Axis::Diagonal, r, c)
        } else {
            0
        }) + (if i > 3 {
            self.axis_gain(player, allow_empty, Axis::AntiDiagonal, r, c)
        } else {
            0
        })
    }

    /// The player whose cells the scan around a move follows: the mover when
    /// looking for four in a line, the opponent when counting the open lines
    /// that the move takes away.
    pub open spec fn scanned_player(self, possible_wins: bool) -> Player {
        if possible_wins {
            other(self.turn)
        } else {
            self.turn
        }
    }

    /// What the move `m` changes, read off the rays of its cell.
    ///
    /// Without `possible_wins` the runs are of the mover's discs, and the value
    /// is not zero exactly when the move makes four in a line. With it the runs
    /// are of cells that the mover does not hold, and the value is the number
    /// of windows through the cell that were open to the opponent.
    pub open spec fn fast_wins(self, possible_wins: bool, m: Move) -> int {
        self.gains_before(
            self.scanned_player(possible_wins),
            possible_wins,
            m.row as int,
            m.col as int,
            4,
        )
    }
}

impl Padded {
    /// The result of the game after the move `m`, from the rays of its cell and
    /// the count of discs.
    pub open spec fn fast_result(self, m: Move) -> Option<GameResult> {
        if self.pos.fast_wins(false, m) != 0 {
            Some(GameResult::Win(self.pos.turn))
        } else if self.placed + 1 == self.pos.rows * self.pos.cols {
            Some(GameResult::Draw)
        } else {
            None
        }
    }

    /// The evaluation after the move `m`, from the evaluation before it.
    pub open spec fn fast_eval(self, m: Move) -> Score {
        match self.fast_result(m) {
            Some(GameResult::Win(Player::P1)) => Score::PosInf,
            Some(GameResult::Win(Player::P2)) => Score::NegInf,
            Some(GameResult::Draw) => Score::Finite(0),
            None => {
                let change = self.pos.fast_wins(true, m);
                if self.pos.turn == Player::P1 {
                    self.eval.plus(change)
                } else {
                    self.eval.plus(-change)
                }
            },
        }
    }
}

/// The cells of a ray that leaves a cell of the board are on the board, and
/// the ray is shorter than the board is wide or high.
pub proof fn lemma_ray_in_bounds(p: Position, axis: Axis, forward: bool, r: int, c: int)
    requires
        p.wf(),
        p.in_bounds(r, c),
    ensures
        0 <= ray_len(p.rows as int, p.cols as int, axis, forward, r, c) < MAX_CELLS,
        forall|k: int|
            0 <= k < ray(p.rows as int, p.cols as int, axis, forward, r, c).len() ==> p.in_bounds(
                (#[trigger] ray(p.rows as int, p.cols as int, axis, forward, r, c)[k]).0,
                ray(p.rows as int, p.cols as int, axis, forward, r, c)[k].1,
            ),
{
    assert(p.rows <= p.rows * p.cols && p.cols <= p.rows * p.cols) by (nonlinear_arith)
        requires
            p.rows >= 1,
            p.cols >= 1,
    ;
}

/// A run is no longer than its cells.
pub proof fn lemma_run_bound(
    p: Position,
    player: Player,
    allow_empty: bool,
    cells: Seq<(int, int)>,
    k: int,
)
    requires
        0 <= k <= cells.len(),
    ensures
        0 <= run_from(p, player, allow_empty, cells, k) <= cells.len() - k,
    decreases cells.len() - k,
{
    if k < cells.len() {
        lemma_run_bound(p, player, allow_empty, cells, k + 1);
    }
}

/// Whether the window that starts at (`ar`, `ac`) and runs along `axis` has
/// (`r`, `c`) among its four cells.
pub open spec fn covers(axis: Axis, ar: int, ac: int, r: int, c: int) -> bool {
    line_of(axis, ar, ac) == line_of(axis, r, c) && 0 <= place_of(axis, r, c) - place_of(
        axis,
        ar,
        ac,
    ) <= 3
}

impl Position {
    /// The windows along `axis` that are open to `player` and have (`r`, `c`)
    /// among their cells.
    pub open spec fn windows_through(self, player: Player, axis: Axis, r: int, c: int) -> Set<
        (int, int),
    > {
        Set::new(
            |a: (int, int)|
                self.window(player, true, axis, a.0, a.1) && covers(axis, a.0, a.1, r, c),
        )
    }

    /// Whether the cell `k` steps from (`r`, `c`), forward or backward, is open.
    pub open spec fn open_beyond(
        self,
        player: Player,
        allow_empty: bool,
        axis: Axis,
        forward: bool,
        r: int,
        c: int,
        k: int,
    ) -> bool {
        self.open_along(
            player,
            allow_empty,
            axis,
            r,
            c,
            if forward {
                k
            } else {
                -k
            },
        )
    }
}

/// A run is at least one, two or three long exactly when the nearest one, two
/// or three cells are open.
pub proof fn lemma_run_reaches(
    p: Position,
    player: Player,
    allow_empty: bool,
    axis: Axis,
    forward: bool,
    r: int,
    c: int,
)
    requires
        p.wf(),
        p.in_bounds(r, c),
    ensures
        p.run(player, allow_empty, axis, forward, r, c) >= 0,
        p.run(player, allow_empty, axis, forward, r, c) >= 1 <==> p.open_beyond(
            player,
            allow_empty,
            axis,
            forward,
            r,
            c,
            1,
        ),
        p.run(player, allow_empty, axis, forward, r, c) >= 2 <==> p.open_beyond(
            player,
            allow_empty,
            axis,
            forward,
            r,
            c,
            1,
        ) && p.open_beyond(player, allow_empty, axis, forward, r, c, 2),
        p.run(player, allow_empty, axis, forward, r, c) >= 3 <==> p.open_beyond(
            player,
            allow_empty,
            axis,
            forward,
            r,
            c,
            1,
        ) && p.open_beyond(player, allow_empty, axis, forward, r, c, 2) && p.open_beyond(
            player,
            allow_empty,
            axis,
            forward,
            r,
            c,
            3,
        ),
{
    let cells = ray(p.rows as int, p.cols as int, axis, forward, r, c);
    lemma_ray_in_bounds(p, axis, forward, r, c);
    lemma_run_bound(p, player, allow_empty, cells, 0);
    if cells.len() >= 1 {
        lemma_run_bound(p, player, allow_empty, cells, 1);
        assert(cells[0] == along(axis, r, c, ray_step(forward, 0)));
    }
    if cells.len() >= 2 {
        lemma_run_bound(p, player, allow_empty, cells, 2);
        assert(cells[1] == along(axis, r, c, ray_step(forward, 1)));
    }
    if cells.len() >= 3 {
        lemma_run_bound(p, player, allow_empty, cells, 3);
        assert(cells[2] == along(axis, r, c, ray_step(forward, 2)));
    }
    reveal_with_fuel(run_from, 4);
}

/// The window that starts `j` cells before (`r`, `c`) is open, apart from what
/// (`r`, `c`) itself holds, exactly when the backward run is at least `j` long
/// and the forward run at least `3 - j`.
pub proof fn lemma_window_by_runs(
    p: Position,
    player: Player,
    allow_empty: bool,
    axis: Axis,
    r: int,
    c: int,
)
    requires
        p.wf(),
        p.in_bounds(r, c),
    ensures
        ({
            let b = p.run(player, allow_empty, axis, false, r, c);
            let f = p.run(player, allow_empty, axis, true, r, c);
            &&& b >= 0 && f >= 0
            &&& (f >= 3 <==> p.open_along(player, allow_empty, axis, r, c, 1) && p.open_along(
                player,
                allow_empty,
                axis,
                r,
                c,
                2,
            ) && p.open_along(player, allow_empty, axis, r, c, 3))
            &&& (b >= 1 && f >= 2 <==> p.open_along(player, allow_empty, axis, r, c, -1)
                && p.open_along(player, allow_empty, axis, r, c, 1) && p.open_along(
                player,
                allow_empty,
                axis,
                r,
                c,
                2,
            ))
            &&& (b >= 2 && f >= 1 <==> p.open_along(player, allow_empty, axis, r, c, -2)
                && p.open_along(player, allow_empty, axis, r, c, -1) && p.open_along(
                player,
                allow_empty,
                axis,
                r,
                c,
                1,
            ))
            &&& (b >= 3 <==> p.open_along(player, allow_empty, axis, r, c, -3) && p.open_along(
                player,
                allow_empty,
                axis,
                r,
                c,
                -2,
            ) && p.open_along(player, allow_empty, axis, r, c, -1))
        }),
{
    lemma_run_reaches(p, player, allow_empty, axis, true, r, c);
    lemma_run_reaches(p, player, allow_empty, axis, false, r, c);
}

/// The cells of the window that starts `j` cells before (`r`, `c`).
proof fn lemma_window_cells(axis: Axis, r: int, c: int, j: int)
    ensures
        ({
            let a = along(axis, r, c, -j);
            &&& along(axis, a.0, a.1, 0) == along(axis, r, c, 0 - j)
            &&& along(axis, a.0, a.1, 1) == along(axis, r, c, 1 - j)
            &&& along(axis, a.0, a.1, 2) == along(axis, r, c, 2 - j)
            &&& along(axis, a.0, a.1, 3) == along(axis, r, c, 3 - j)
            &&& along(axis, r, c, 0) == (r, c)
            &&& (0 <= j <= 3 ==> covers(axis, a.0, a.1, r, c))
        }),
{
}

/// A window that has (`r`, `c`) among its cells starts at most three cells
/// before it; a window that has not, holds no cell equal to it.
proof fn lemma_covers(axis: Axis, ar: int, ac: int, r: int, c: int)
    ensures
        covers(axis, ar, ac, r, c) ==> (ar, ac) == along(
            axis,
            r,
            c,
            -(place_of(axis, r, c) - place_of(axis, ar, ac)),
        ),
        !covers(axis, ar, ac, r, c) ==> along(axis, ar, ac, 0) != (r, c) && along(axis, ar, ac, 1)
            != (r, c) && along(axis, ar, ac, 2) != (r, c) && along(axis, ar, ac, 3) != (r, c),
{
}

/// The number of open windows through an empty cell is what the runs on
/// either side of it are worth.
pub proof fn lemma_through_count(p: Position, player: Player, axis: Axis, r: int, c: int)
    requires
        p.wf(),
        p.in_bounds(r, c),
        p.at(r, c) is None,
    ensures
        p.windows_through(player, axis, r, c).finite(),
        p.windows_through(player, axis, r, c).len() == p.axis_gain(player, true, axis, r, c),
{
    let a0 = along(axis, r, c, 0);
    let a1 = along(axis, r, c, -1);
    let a2 = along(axis, r, c, -2);
    let a3 = along(axis, r, c, -3);
    let w0 = p.window(player, true, axis, a0.0, a0.1);
    let w1 = p.window(player, true, axis, a1.0, a1.1);
    let w2 = p.window(player, true, axis, a2.0, a2.1);
    let w3 = p.window(player, true, axis, a3.0, a3.1);
    let b = p.run(player, true, axis, false, r, c);
    let f = p.run(player, true, axis, true, r, c);
    lemma_window_by_runs(p, player, true, axis, r, c);
    lemma_window_cells(axis, r, c, 0);
    lemma_window_cells(axis, r, c, 1);
    lemma_window_cells(axis, r, c, 2);
    lemma_window_cells(axis, r, c, 3);
    assert(p.open_along(player, true, axis, r, c, 0));
    assert(w0 <==> f >= 3);
    assert(w1 <==> b >= 1 && f >= 2);
    assert(w2 <==> b >= 2 && f >= 1);
    assert(w3 <==> b >= 3);
    let e = Set::<(int, int)>::empty();
    let s0 = if w0 {
        e.insert(a0)
    } else {
        e
    };
    let s1 = if w1 {
        s0.insert(a1)
    } else {
        s0
    };
    let s2 = if w2 {
        s1.insert(a2)
    } else {
        s1
    };
    let s3 = if w3 {
        s2.insert(a3)
    } else {
        s2
    };
    assert(a0 != a1 && a0 != a2 && a0 != a3 && a1 != a2 && a1 != a3 && a2 != a3);
    assert(s0.finite() && s0.len() == if w0 { 1int } else { 0 });
    assert(s1.finite() && s1.len() == s0.len() + if w1 { 1int } else { 0 });
    assert(s2.finite() && s2.len() == s1.len() + if w2 { 1int } else { 0 });
    assert(s3.finite() && s3.len() == s2.len() + if w3 { 1int } else { 0 });
    assert(p.windows_through(player, axis, r, c) =~= s3) by {
        assert forall|a: (int, int)| #[trigger]
            p.windows_through(player, axis, r, c).contains(a) implies s3.contains(a) by {
            lemma_covers(axis, a.0, a.1, r, c);
            let j = place_of(axis, r, c) - place_of(axis, a.0, a.1);
            assert(a == along(axis, r, c, -j));
            assert(j == 0 || j == 1 || j == 2 || j == 3);
        }
    }
}

/// What a move does to the open lines along one axis: those of the mover stay
/// as they are, and the opponent loses the windows through the move's cell.
pub proof fn lemma_open_lines_after(p: Position, m: Move, axis: Axis)
    requires
        p.wf(),
        p.in_bounds(m.row as int, m.col as int),
        p.at(m.row as int, m.col as int) is None,
    ensures
        p.after(m).windows(p.turn, true, axis) == p.windows(p.turn, true, axis),
        p.windows(other(p.turn), true, axis).len() == p.after(m).windows(
            other(p.turn),
            true,
            axis,
        ).len() + p.axis_gain(other(p.turn), true, axis, m.row as int, m.col as int),
{
    let q = p.after(m);
    let r = m.row as int;
    let c = m.col as int;
    let mover = p.turn;
    let opp = other(p.turn);
    lemma_after(p, m);
    assert forall|i: int, j: int|
        q.open_to(mover, true, i, j) == p.open_to(mover, true, i, j) && (q.open_to(opp, true, i, j)
            <==> p.open_to(opp, true, i, j) && (i, j) != (r, c)) by {
        if p.in_bounds(i, j) && (i, j) != (r, c) {
            assert(q.at(i, j) == p.at(i, j));
        }
    }
    assert(q.windows(mover, true, axis) =~= p.windows(mover, true, axis));
    let before = p.windows(opp, true, axis);
    let left = q.windows(opp, true, axis);
    let gone = p.windows_through(opp, axis, r, c);
    lemma_windows_bound(p, opp, true, axis, before);
    lemma_windows_bound(q, opp, true, axis, left);
    lemma_through_count(p, opp, axis, r, c);
    assert(before =~= left + gone) by {
        assert forall|a: (int, int)| before.contains(a) <==> (left + gone).contains(a) by {
            lemma_covers(axis, a.0, a.1, r, c);
            if covers(axis, a.0, a.1, r, c) {
                let j = place_of(axis, r, c) - place_of(axis, a.0, a.1);
                lemma_window_cells(axis, r, c, j);
                assert(along(axis, a.0, a.1, j) == (r, c));
                assert(!q.open_along(opp, true, axis, a.0, a.1, j));
            }
        }
    }
    assert(left.disjoint(gone)) by {
        assert forall|a: (int, int)| !(left.contains(a) && gone.contains(a)) by {
            lemma_covers(axis, a.0, a.1, r, c);
            if covers(axis, a.0, a.1, r, c) {
                let j = place_of(axis, r, c) - place_of(axis, a.0, a.1);
                lemma_window_cells(axis, r, c, j);
                assert(along(axis, a.0, a.1, j) == (r, c));
                assert(!q.open_along(opp, true, axis, a.0, a.1, j));
            }
        }
    }
    lemma_set_disjoint_lens(left, gone);
}

/// A move makes four in a line along `axis` exactly when the runs of the
/// mover's discs on either side of its cell are worth something.
pub proof fn lemma_four_through(p: Position, m: Move, axis: Axis)
    requires
        p.wf(),
        p.in_bounds(m.row as int, m.col as int),
        p.at(m.row as int, m.col as int) is None,
    ensures
        p.axis_gain(p.turn, false, axis, m.row as int, m.col as int) >= 0,
        p.axis_gain(p.turn, false, axis, m.row as int, m.col as int) > 0 <==> exists|
            a: (int, int),
        |
            p.after(m).window(p.turn, false, axis, a.0, a.1) && covers(
                axis,
                a.0,
                a.1,
                m.row as int,
                m.col as int,
            ),
{
    let q = p.after(m);
    let r = m.row as int;
    let c = m.col as int;
    let mover = p.turn;
    let b = p.run(mover, false, axis, false, r, c);
    let f = p.run(mover, false, axis, true, r, c);
    lemma_after(p, m);
    lemma_window_by_runs(p, mover, false, axis, r, c);
    assert forall|k: int| k != 0 implies #[trigger] q.open_along(mover, false, axis, r, c, k)
        == p.open_along(mover, false, axis, r, c, k) by {
        let cell = along(axis, r, c, k);
        if p.in_bounds(cell.0, cell.1) {
            assert(q.at(cell.0, cell.1) == p.at(cell.0, cell.1));
        }
    }
    assert(q.open_along(mover, false, axis, r, c, 0));
    lemma_window_cells(axis, r, c, 0);
    lemma_window_cells(axis, r, c, 1);
    lemma_window_cells(axis, r, c, 2);
    lemma_window_cells(axis, r, c, 3);
    let a0 = along(axis, r, c, 0);
    let a1 = along(axis, r, c, -1);
    let a2 = along(axis, r, c, -2);
    let a3 = along(axis, r, c, -3);
    assert(q.window(mover, false, axis, a0.0, a0.1) <==> f >= 3);
    assert(q.window(mover, false, axis, a1.0, a1.1) <==> b >= 1 && f >= 2);
    assert(q.window(mover, false, axis, a2.0, a2.1) <==> b >= 2 && f >= 1);
    assert(q.window(mover, false, axis, a3.0, a3.1) <==> b >= 3);
    if p.axis_gain(mover, false, axis, r, c) > 0 {
        let a = if f >= 3 {
            a0
        } else if b >= 1 && f >= 2 {
            a1
        } else if b >= 2 && f >= 1 {
            a2
        } else {
            a3
        };
        assert(q.window(mover, false, axis, a.0, a.1) && covers(axis, a.0, a.1, r, c));
    }
    if exists|a: (int, int)|
        q.window(mover, false, axis, a.0, a.1) && covers(axis, a.0, a.1, r, c) {
        let a = choose|a: (int, int)|
            q.window(mover, false, axis, a.0, a.1) && covers(axis, a.0, a.1, r, c);
        lemma_covers(axis, a.0, a.1, r, c);
        let j = place_of(axis, r, c) - place_of(axis, a.0, a.1);
        assert(a == along(axis, r, c, -j));
        assert(j == 0 || j == 1 || j == 2 || j == 3);
    }
}

/// After a move on a board without four in a line, the mover has four in a
/// line exactly when the scan of the move's rays says so, and the opponent has
/// not.
pub proof fn lemma_four_after(p: Position, m: Move)
    requires
        p.wf(),
        p.in_bounds(m.row as int, m.col as int),
        p.at(m.row as int, m.col as int) is None,
        !p.has_four(Player::P1),
        !p.has_four(Player::P2),
    ensures
        p.fast_wins(false, m) >= 0,
        p.after(m).has_four(p.turn) <==> p.fast_wins(false, m) != 0,
        !p.after(m).has_four(other(p.turn)),
{
    let q = p.after(m);
    let r = m.row as int;
    let c = m.col as int;
    let mover = p.turn;
    let opp = other(p.turn);
    lemma_after(p, m);
    lemma_four_through(p, m, Axis::Horizontal);
    lemma_four_through(p, m, Axis::Vertical);
    lemma_four_through(p, m, Axis::Diagonal);
    lemma_four_through(p, m, Axis::AntiDiagonal);
    // A window that does not hold the move's cell is as it was.
    assert forall|player: Player, axis: Axis, a: (int, int)|
        !covers(axis, a.0, a.1, r, c) implies #[trigger] q.window(player, false, axis, a.0, a.1)
        == p.window(player, false, axis, a.0, a.1) by {
        lemma_covers(axis, a.0, a.1, r, c);
        assert forall|k: int| 0 <= k <= 3 implies #[trigger] q.open_along(
            player,
            false,
            axis,
            a.0,
            a.1,
            k,
        ) == p.open_along(player, false, axis, a.0, a.1, k) by {
            let cell = along(axis, a.0, a.1, k);
            if p.in_bounds(cell.0, cell.1) {
                assert(q.at(cell.0, cell.1) == p.at(cell.0, cell.1));
            }
        }
    }
    if q.has_four(opp) {
        let (axis, i, j) = choose|axis: Axis, i: int, j: int| q.window(opp, false, axis, i, j);
        lemma_covers(axis, i, j, r, c);
        if covers(axis, i, j, r, c) {
            let k = place_of(axis, r, c) - place_of(axis, i, j);
            lemma_window_cells(axis, r, c, k);
            assert(along(axis, i, j, k) == (r, c));
            assert(!q.open_along(opp, false, axis, i, j, k));
        } else {
            assert(q.window(opp, false, axis, (i, j).0, (i, j).1) == p.window(
                opp,
                false,
                axis,
                (i, j).0,
                (i, j).1,
            ));
            assert(p.has_four(opp));
        }
    }
    if q.has_four(mover) {
        let (axis, i, j) = choose|axis: Axis, i: int, j: int| q.window(mover, false, axis, i, j);
        if covers(axis, i, j, r, c) {
            let a = (i, j);
            assert(q.window(mover, false, axis, a.0, a.1) && covers(axis, a.0, a.1, r, c));
            assert(p.axis_gain(mover, false, axis, r, c) > 0);
        } else {
            assert(q.window(mover, false, axis, (i, j).0, (i, j).1) == p.window(
                mover,
                false,
                axis,
                (i, j).0,
                (i, j).1,
            ));
            assert(p.has_four(mover));
        }
    }
    if p.fast_wins(false, m) != 0 {
        let axis = if p.axis_gain(mover, false, Axis::Horizontal, r, c) > 0 {
            Axis::Horizontal
        } else if p.axis_gain(mover, false, Axis::Vertical, r, c) > 0 {
            Axis::Vertical
        } else if p.axis_gain(mover, false, Axis::Diagonal, r, c) > 0 {
            Axis::Diagonal
        } else {
            Axis::AntiDiagonal
        };
        assert(p.axis_gain(mover, false, axis, r, c) > 0);
        let a = choose|a: (int, int)|
            q.window(mover, false, axis, a.0, a.1) && covers(axis, a.0, a.1, r, c);
        assert(q.window(mover, false, axis, a.0, a.1));
    }
}

/// The incremental evaluator agrees with the full one.
///
/// For a padded state whose kept values are right and whose game has no result
/// yet, and for a move onto an empty cell of the board, the result and the
/// evaluation that the rays of the move's cell give are those of the position
/// after the move, decided games included. The padded state after the move has
/// its kept values right again.
pub proof fn lemma_fast_matches_full(s: Padded, m: Move)
    requires
        s.wf(),
        s.pos.result() is None,
        s.pos.in_bounds(m.row as int, m.col as int),
        s.pos.at(m.row as int, m.col as int) is None,
    ensures
        s.fast_result(m) == s.pos.after(m).result(),
        s.fast_eval(m) == s.pos.after(m).eval(),
        s.next(m).wf(),
{
    let p = s.pos;
    let q = p.after(m);
    let mover = p.turn;
    let opp = other(p.turn);
    lemma_after(p, m);
    lemma_discs_bound(q);
    lemma_four_after(p, m);
    lemma_asymmetry_step(p, m);
    lemma_mismatched_bound(p);
    lemma_mismatched_bound(q);
    lemma_open_lines_after(p, m, Axis::Horizontal);
    lemma_open_lines_after(p, m, Axis::Vertical);
    lemma_open_lines_after(p, m, Axis::Diagonal);
    lemma_open_lines_after(p, m, Axis::AntiDiagonal);
    lemma_line_count_bound(p, Player::P1, true);
    lemma_line_count_bound(p, Player::P2, true);
    lemma_line_count_bound(q, Player::P1, true);
    lemma_line_count_bound(q, Player::P2, true);
    assert(q.line_count(mover, true) == p.line_count(mover, true));
    assert(p.line_count(opp, true) == q.line_count(opp, true) + p.fast_wins(true, m));
    assert(s.fast_result(m) == q.result());
    assert(s.fast_eval(m) == q.eval());
}

/// The length of the unbroken run of open cells at the start of `cells`.
fn run_length(gs: &GameState, player: Player, possible_wins: bool, cells: &Vec<(usize, usize)>) -> (n:
    usize)
    requires
        gs@.wf(),
        forall|k: int|
            0 <= k < cells@.len() ==> gs@.in_bounds(
                (#[trigger] cells@[k]).0 as int,
                cells@[k].1 as int,
            ),
    ensures
        n == run_from(gs@, player, possible_wins, coords(cells@), 0),
        n <= cells@.len(),
{
    let mut n: usize = 0;
    while n < cells.len()
        invariant
            gs@.wf(),
            forall|k: int|
                0 <= k < cells@.len() ==> gs@.in_bounds(
                    (#[trigger] cells@[k]).0 as int,
                    cells@[k].1 as int,
                ),
            n <= cells@.len(),
            run_from(gs@, player, possible_wins, coords(cells@), 0) == n + run_from(
                gs@,
                player,
                possible_wins,
                coords(cells@),
                n as int,
            ),
        decreases cells@.len() - n,
    {
        let (r, c) = cells[n];
        let open = match gs.cell(r, c) {
            Some(p) => p == player,
            None => possible_wins,
        };
        assert(coords(cells@)[n as int] == (r as int, c as int));
        if !open {
            return n;
        }
        n = n + 1;
    }
    n
}

/// What the two runs on either side of a cell are worth.
fn gain_of(backward: usize, forward: usize, possible_wins: bool) -> (g: i64)
    requires
        backward < MAX_CELLS,
        forward < MAX_CELLS,
    ensures
        g == gain(backward as int, forward as int, possible_wins),
        0 <= g <= 0x1FFF_FFFC,
        possible_wins ==> g <= 4,
{
    let b = backward as i64;
    let f = forward as i64;
    let both = if f + b - 2 > 0 {
        f + b - 2
    } else {
        0
    };
    if possible_wins {
        let over_f = if f - 3 > 0 {
            f - 3
        } else {
            0
        };
        let over_b = if b - 3 > 0 {
            b - 3
        } else {
            0
        };
        both - over_f - over_b
    } else {
        both
    }
}

/// What the move `mov` changes, read off the rays of its cell.
///
/// Without `possible_wins` the runs are of the mover's discs: the value is not
/// zero exactly when the move makes four in a line. With it the runs are of
/// cells that the mover does not hold: the value is the number of windows
/// through the cell that were open to the opponent, which is what the move
/// takes from the opponent's count of open lines.
pub fn fast_num_wins(
    pre_gs: &GameState,
    possible_wins: bool,
    mov: Move,
    game_globals: &GameGlobals,
) -> (wins: i32)
    requires
        pre_gs@.wf(),
        game_globals.wf(),
        game_globals.dims() == (pre_gs@.rows, pre_gs@.cols),
        pre_gs@.in_bounds(mov.row as int, mov.col as int),
    ensures
        wins == pre_gs@.fast_wins(possible_wins, mov),
        0 <= wins,
        possible_wins ==> wins <= 16,
{
    let player = if possible_wins {
        next_turn(pre_gs.turn())
    } else {
        pre_gs.turn()
    };
    let limits = game_globals.lookup(mov);
    let ghost pos = pre_gs@;
    let ghost r = mov.row as int;
    let ghost c = mov.col as int;
    let mut wins: i64 = 0;
    let mut i: usize = 0;
    while i < 4
        invariant
            pos == pre_gs@,
            pos.wf(),
            pos.in_bounds(r, c),
            r == mov.row,
            c == mov.col,
            player == pos.scanned_player(possible_wins),
            is_axis_pairs(limits@, pos.rows as int, pos.cols as int, r, c),
            i <= 4,
            wins == pos.gains_before(player, possible_wins, r, c, i as int),
            0 <= wins <= i * 0x1FFF_FFFC,
            possible_wins ==> wins <= 4 * i,
        decreases 4 - i,
    {
        let main_dir = &limits[i];
        proof {
            lemma_ray_in_bounds(pos, axis_at(i as int), true, r, c);
            lemma_ray_in_bounds(pos, axis_at(i as int), false, r, c);
            let fw = ray(pos.rows as int, pos.cols as int, axis_at(i as int), true, r, c);
            let bw = ray(pos.rows as int, pos.cols as int, axis_at(i as int), false, r, c);
            assert forall|k: int| 0 <= k < main_dir@[0]@.len() implies pos.in_bounds(
                (#[trigger] main_dir@[0]@[k]).0 as int,
                main_dir@[0]@[k].1 as int,
            ) by {
                assert(coords(main_dir@[0]@)[k] == fw[k]);
            }
            assert forall|k: int| 0 <= k < main_dir@[1]@.len() implies pos.in_bounds(
                (#[trigger] main_dir@[1]@[k]).0 as int,
                main_dir@[1]@[k].1 as int,
            ) by {
                assert(coords(main_dir@[1]@)[k] == bw[k]);
            }
            assert(coords(main_dir@[0]@).len() == fw.len());
            assert(coords(main_dir@[1]@).len() == bw.len());
        }
        let forward = run_length(pre_gs, player, possible_wins, &main_dir[0]);
        let backward = run_length(pre_gs, player, possible_wins, &main_dir[1]);
        let g = gain_of(backward, forward, possible_wins);
        wins = wins + g;
        i = i + 1;
    }
    wins as i32
}

/// The result of the game after the move `mov`, without a scan of the board:
/// a win for the mover if the move makes four in a line, even where it also
/// fills the board; else a draw if it fills the board; else no result.
pub fn fast_result(padded_gs: &PaddedGameState, mov: Move, game_globals: &GameGlobals) -> (res:
    Option<GameResult>)
    requires
        padded_gs@.wf(),
        game_globals.wf(),
        game_globals.dims() == (padded_gs@.pos.rows, padded_gs@.pos.cols),
        padded_gs@.pos.in_bounds(mov.row as int, mov.col as int),
    ensures
        res == padded_gs@.fast_result(mov),
        padded_gs@.pos.result() is None && padded_gs@.pos.at(mov.row as int, mov.col as int)
            is None ==> res == padded_gs@.pos.after(mov).result(),
{
    proof {
        if padded_gs@.pos.result() is None && padded_gs@.pos.at(mov.row as int, mov.col as int)
            is None {
            lemma_fast_matches_full(padded_gs@, mov);
        }
    }
    let gs = &padded_gs.gs;
    let player = gs.turn();
    if fast_num_wins(gs, false, mov, game_globals) != 0 {
        return Some(GameResult::Win(player));
    }
    proof {
        lemma_discs_bound(gs@);
    }
    if padded_gs.placed + 1 == gs.rows() * gs.cols() {
        Some(GameResult::Draw)
    } else {
        None
    }
}

/// The evaluation after the move `mov`, from the evaluation cached before it
/// and the rays of the move's cell.
pub fn fast_eval(padded_gs: &PaddedGameState, mov: Move, game_globals: &GameGlobals) -> (score:
    Score)
    requires
        padded_gs@.wf(),
        game_globals.wf(),
        game_globals.dims() == (padded_gs@.pos.rows, padded_gs@.pos.cols),
        padded_gs@.pos.in_bounds(mov.row as int, mov.col as int),
    ensures
        score == padded_gs@.fast_eval(mov),
        padded_gs@.pos.result() is None && padded_gs@.pos.at(mov.row as int, mov.col as int)
            is None ==> score == padded_gs@.pos.after(mov).eval(),
{
    proof {
        if padded_gs@.pos.result() is None && padded_gs@.pos.at(mov.row as int, mov.col as int)
            is None {
            lemma_fast_matches_full(padded_gs@, mov);
        }
    }
    match fast_result(padded_gs, mov, game_globals) {
        Some(GameResult::Win(Player::P1)) => Score::PosInf,
        Some(GameResult::Win(Player::P2)) => Score::NegInf,
        Some(GameResult::Draw) => Score::Finite(0),
        None => {
            let gs = &padded_gs.gs;
            let change = fast_num_wins(gs, true, mov, game_globals);
            proof {
                lemma_line_count_bound(gs@, Player::P1, true);
                lemma_line_count_bound(gs@, Player::P2, true);
            }
            match gs.turn() {
                Player::P1 => padded_gs.eval.shifted(change),
                Player::P2 => padded_gs.eval.shifted(-change),
            }
        },
    }
}

} // verus!
