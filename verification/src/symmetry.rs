//! The left-right mirror image of a position, and why a player loses nothing
//! by looking at one half of a mirrored board.

use vstd::prelude::*;
use vstd::relations::injective_on;
use vstd::set_lib::lemma_map_size;
use crate::board::{lemma_landing, lemma_lowest_empty, Move, Position};
use crate::lines::{lemma_line_count_bound, Axis};
use crate::player::Player;

verus! {

impl Position {
    /// The position seen in a mirror that swaps left and right.
    pub open spec fn mirrored(self) -> Position {
        Position {
            turn: self.turn,
            rows: self.rows,
            cols: self.cols,
            grid: Seq::new(
                self.rows,
                |r: int| Seq::new(self.cols, |c: int| self.grid[r][self.cols - 1 - c]),
            ),
        }
    }

    /// The move seen in the mirror.
    pub open spec fn mirror_move(self, m: Move) -> Move {
        Move { row: m.row, col: (self.cols - 1 - m.col) as usize }
    }
}

/// The mirror image of a cell along the window that it starts: the first cell
/// of the same window seen in the mirror. A window along a row is read from
/// its other end; a diagonal becomes an anti-diagonal and the other way round.
pub open spec fn mirror_start(p: Position, axis: Axis, a: (int, int)) -> (int, int) {
    match axis {
        Axis::Horizontal => (a.0, p.cols - 4 - a.1),
        _ => (a.0, p.cols - 1 - a.1),
    }
}

/// The axis along which a window runs when seen in the mirror.
pub open spec fn mirror_axis(axis: Axis) -> Axis {
    match axis {
        Axis::Horizontal => Axis::Horizontal,
        Axis::Vertical => Axis::Vertical,
        Axis::Diagonal => Axis::AntiDiagonal,
        Axis::AntiDiagonal => Axis::Diagonal,
    }
}

/// The mirror image is a position of the same size whose cells are those of
/// the mirrored columns; the mirror image of the mirror image is the position
/// itself; and a board is its own mirror image exactly when the position is.
pub proof fn lemma_mirrored(p: Position)
    requires
        p.wf(),
    ensures
        p.mirrored().wf(),
        forall|r: int, c: int|
            p.in_bounds(r, c) ==> #[trigger] p.mirrored().at(r, c) == p.at(r, p.mirror(c)),
        p.mirrored().mirrored() == p,
        p.mirror_symmetric() <==> p.mirrored() == p,
{
    let q = p.mirrored();
    assert(q.wf());
    assert(q.mirrored().grid =~= p.grid) by {
        assert forall|r: int| 0 <= r < p.rows implies #[trigger] q.mirrored().grid[r]
            =~= p.grid[r] by {
            assert(p.grid[r].len() == p.cols);
        }
    }
    if p.mirror_symmetric() {
        assert(q.grid =~= p.grid) by {
            assert forall|r: int| 0 <= r < p.rows implies #[trigger] q.grid[r] =~= p.grid[r] by {
                assert(p.grid[r].len() == p.cols);
                assert forall|c: int| 0 <= c < p.cols implies q.grid[r][c] == p.grid[r][c] by {
                    assert(p.at(r, c) == p.at(r, p.mirror(c)));
                }
            }
        }
    }
    if q == p {
        assert forall|r: int, c: int| p.in_bounds(r, c) implies #[trigger] p.at(r, c) == p.at(
            r,
            p.mirror(c),
        ) by {
            assert(q.at(r, c) == p.at(r, p.mirror(c)));
        }
    }
}

/// A window is open in the mirror image exactly when its mirror image is open
/// in the position.
pub proof fn lemma_mirrored_window(
    p: Position,
    player: Player,
    allow_empty: bool,
    axis: Axis,
    a: (int, int),
)
    requires
        p.wf(),
    ensures
        p.mirrored().window(player, allow_empty, axis, a.0, a.1) == p.window(
            player,
            allow_empty,
            mirror_axis(axis),
            mirror_start(p, axis, a).0,
            mirror_start(p, axis, a).1,
        ),
{
    lemma_mirrored(p);
    let q = p.mirrored();
    assert forall|r: int, c: int| #[trigger]
        q.open_to(player, allow_empty, r, c) == p.open_to(player, allow_empty, r, p.mirror(c)) by {
        if p.in_bounds(r, c) {
            assert(q.at(r, c) == p.at(r, p.mirror(c)));
        }
    }
}

/// The mirror image has as many open windows along an axis as the position
/// has along the mirrored axis.
pub proof fn lemma_mirrored_windows(p: Position, player: Player, allow_empty: bool, axis: Axis)
    requires
        p.wf(),
    ensures
        p.mirrored().windows(player, allow_empty, axis).len() == p.windows(
            player,
            allow_empty,
            mirror_axis(axis),
        ).len(),
{
    lemma_mirrored(p);
    let q = p.mirrored();
    let x = q.windows(player, allow_empty, axis);
    let y = p.windows(player, allow_empty, mirror_axis(axis));
    let f = |a: (int, int)| mirror_start(p, axis, a);
    lemma_line_count_bound(q, player, allow_empty);
    lemma_line_count_bound(p, player, allow_empty);
    assert(injective_on(f, x));
    assert(x.map(f) =~= y) by {
        assert forall|b: (int, int)| x.map(f).contains(b) <==> y.contains(b) by {
            if x.map(f).contains(b) {
                let a = choose|a: (int, int)| x.contains(a) && f(a) == b;
                lemma_mirrored_window(p, player, allow_empty, axis, a);
            }
            if y.contains(b) {
                let a = mirror_start(p, axis, b);
                assert(f(a) == b);
                lemma_mirrored_window(p, player, allow_empty, axis, a);
                assert(x.contains(a));
            }
        }
    }
    lemma_map_size(x, y, f);
}

/// The mirror image has the same result and the same evaluation.
pub proof fn lemma_mirrored_eval(p: Position)
    requires
        p.wf(),
    ensures
        p.mirrored().wf(),
        p.mirrored().result() == p.result(),
        p.mirrored().eval() == p.eval(),
{
    lemma_mirrored(p);
    let q = p.mirrored();
    assert forall|player: Player| #[trigger] q.has_four(player) == p.has_four(player) by {
        if q.has_four(player) {
            let (axis, r, c) = choose|axis: Axis, r: int, c: int|
                q.window(player, false, axis, r, c);
            lemma_mirrored_window(p, player, false, axis, (r, c));
            let b = mirror_start(p, axis, (r, c));
            assert(p.window(player, false, mirror_axis(axis), b.0, b.1));
        }
        if p.has_four(player) {
            let (axis, r, c) = choose|axis: Axis, r: int, c: int|
                p.window(player, false, axis, r, c);
            let a = mirror_start(p, mirror_axis(axis), (r, c));
            lemma_mirrored_window(p, player, false, mirror_axis(axis), a);
            assert(mirror_axis(mirror_axis(axis)) == axis);
            assert(mirror_start(p, mirror_axis(axis), a) == (r, c));
            assert(q.window(player, false, mirror_axis(axis), a.0, a.1));
        }
    }
    assert(q.has_four(Player::P1) == p.has_four(Player::P1));
    assert(q.has_four(Player::P2) == p.has_four(Player::P2));
    assert(q.full() == p.full()) by {
        if p.full() {
            assert forall|r: int, c: int| q.in_bounds(r, c) implies (#[trigger] q.at(r, c)) is Some by {
                assert(p.at(r, p.mirror(c)) is Some);
            }
        }
        if q.full() {
            assert forall|r: int, c: int| p.in_bounds(r, c) implies (#[trigger] p.at(r, c)) is Some by {
                assert(q.at(r, p.mirror(c)) is Some);
                assert(q.at(r, p.mirror(c)) == p.at(r, p.mirror(p.mirror(c))));
            }
        }
    }
    lemma_mirrored_windows(p, Player::P1, true, Axis::Horizontal);
    lemma_mirrored_windows(p, Player::P1, true, Axis::Vertical);
    lemma_mirrored_windows(p, Player::P1, true, Axis::Diagonal);
    lemma_mirrored_windows(p, Player::P1, true, Axis::AntiDiagonal);
    lemma_mirrored_windows(p, Player::P2, true, Axis::Horizontal);
    lemma_mirrored_windows(p, Player::P2, true, Axis::Vertical);
    lemma_mirrored_windows(p, Player::P2, true, Axis::Diagonal);
    lemma_mirrored_windows(p, Player::P2, true, Axis::AntiDiagonal);
}

/// A move is accepted in the mirror image exactly when its mirror image is
/// accepted in the position, and the two moves lead to mirror images.
pub proof fn lemma_mirrored_move(p: Position, m: Move)
    requires
        p.wf(),
        p.in_bounds(m.row as int, m.col as int),
    ensures
        p.mirror_move(p.mirror_move(m)) == m,
        p.mirrored().accepts(p.mirror_move(m)) == p.accepts(m),
        p.mirrored().after(p.mirror_move(m)) == p.after(m).mirrored(),
{
    lemma_mirrored(p);
    let q = p.mirrored();
    let n = p.mirror_move(m);
    assert(p.cols <= p.rows * p.cols) by (nonlinear_arith)
        requires
            p.rows >= 1,
    ;
    assert(n.col == p.cols - 1 - m.col);
    assert(q.at(n.row as int, n.col as int) == p.at(m.row as int, m.col as int));
    if m.row + 1 < p.rows {
        assert(q.at(n.row + 1, n.col as int) == p.at(m.row + 1, m.col as int));
    }
    assert(q.after(n).grid =~= p.after(m).mirrored().grid) by {
        assert forall|r: int| 0 <= r < p.rows implies #[trigger] q.after(n).grid[r]
            =~= p.after(m).mirrored().grid[r] by {
            assert(p.grid[r].len() == p.cols);
        }
    }
}

/// The landing cell of a column of the mirror image is the mirror image of
/// the landing cell of the mirrored column.
pub proof fn lemma_mirrored_landing(p: Position, c: int)
    requires
        p.wf(),
        0 <= c < p.cols,
    ensures
        p.mirrored().landing(c) == match p.landing(p.mirror(c)) {
            Some(m) => Some(p.mirror_move(m)),
            None => None,
        },
{
    lemma_mirrored(p);
    lemma_mirrored_lowest(p, c, p.rows - 1);
    lemma_landing(p, p.mirror(c));
    lemma_lowest_empty(p, p.mirror(c), p.rows - 1);
    if p.rows >= 1 {
        assert(p.cols <= p.rows * p.cols) by (nonlinear_arith)
            requires
                p.rows >= 1,
        ;
    }
}

proof fn lemma_mirrored_lowest(p: Position, c: int, r: int)
    requires
        p.wf(),
        0 <= c < p.cols,
        -1 <= r < p.rows,
    ensures
        p.mirrored().lowest_empty_from(c, r) == p.lowest_empty_from(p.mirror(c), r),
    decreases r + 1,
{
    lemma_mirrored(p);
    if r >= 0 {
        assert(p.mirrored().at(r, c) == p.at(r, p.mirror(c)));
        lemma_mirrored_lowest(p, c, r - 1);
    }
}

} // verus!
