//! Board geometry: for every cell, the rays of cells that leave it along the
//! four axes, computed once for a board size.

use vstd::prelude::*;
use crate::board::{Move, MAX_CELLS};
use crate::lines::{along, Axis};

verus! {

/// The axes in the order in which the rays of a cell are stored.
pub open spec fn axis_at(i: int) -> Axis {
    if i == 0 {
        Axis::Horizontal
    } else if i == 1 {
        Axis::Vertical
    } else if i == 2 {
        Axis::Diagonal
    } else {
        Axis::AntiDiagonal
    }
}

pub open spec fn min_int(a: int, b: int) -> int {
    if a <= b {
        a
    } else {
        b
    }
}

/// How many cells lie beyond (`r`, `c`) along `axis` before the edge of a
/// `rows` x `cols` board: forward, or backward.
pub open spec fn ray_len(rows: int, cols: int, axis: Axis, forward: bool, r: int, c: int) -> int {
    match axis {
        Axis::Horizontal => if forward {
            cols - 1 - c
        } else {
            c
        },
        Axis::Vertical => if forward {
            rows - 1 - r
        } else {
            r
        },
        Axis::Diagonal => if forward {
            min_int(rows - 1 - r, cols - 1 - c)
        } else {
            min_int(r, c)
        },
        Axis::AntiDiagonal => if forward {
            min_int(rows - 1 - r, c)
        } else {
            min_int(r, cols - 1 - c)
        },
    }
}

/// The step that reaches the `k`-th cell of a ray: rays start next to their
/// cell, and backward rays step against the axis.
pub open spec fn ray_step(forward: bool, k: int) -> int {
    if forward {
        k + 1
    } else {
        -(k + 1)
    }
}

/// The ray that leaves (`r`, `c`) along `axis`, forward or backward: the
/// cells beyond it, nearest first, up to the edge of the board.
pub open spec fn ray(rows: int, cols: int, axis: Axis, forward: bool, r: int, c: int) -> Seq<
    (int, int),
> {
    Seq::new(
        ray_len(rows, cols, axis, forward, r, c) as nat,
        |k: int| along(axis, r, c, ray_step(forward, k)),
    )
}

/// The coordinates that a stored ray holds.
pub open spec fn coords(cells: Seq<(usize, usize)>) -> Seq<(int, int)> {
    Seq::new(cells.len(), |k: int| (cells[k].0 as int, cells[k].1 as int))
}

/// Whether `pairs` holds the rays of (`r`, `c`): for each of the four axes the
/// forward ray and then the backward ray.
pub open spec fn is_axis_pairs(
    pairs: Seq<Vec<Vec<(usize, usize)>>>,
    rows: int,
    cols: int,
    r: int,
    c: int,
) -> bool {
    &&& pairs.len() == 4
    &&& forall|i: int|
        0 <= i < 4 ==> (#[trigger] pairs[i])@.len() == 2 && coords(pairs[i]@[0]@) == ray(
            rows,
            cols,
            axis_at(i),
            true,
            r,
            c,
        ) && coords(pairs[i]@[1]@) == ray(rows, cols, axis_at(i), false, r, c)
}

/// The rays of every cell of a board of one size. Built once and only read
/// afterwards.
#[derive(Debug)]
pub struct GameGlobals {
    rows: usize,
    cols: usize,
    win_tests: Vec<Vec<Vec<Vec<Vec<(usize, usize)>>>>>,
}

/// The axis with the given place in the stored order.
fn axis_of(i: usize) -> (axis: Axis)
    requires
        i < 4,
    ensures
        axis == axis_at(i as int),
{
    if i == 0 {
        Axis::Horizontal
    } else if i == 1 {
        Axis::Vertical
    } else if i == 2 {
        Axis::Diagonal
    } else {
        Axis::AntiDiagonal
    }
}

fn shorter(a: usize, b: usize) -> (m: usize)
    ensures
        m == min_int(a as int, b as int),
{
    if a <= b {
        a
    } else {
        b
    }
}

/// The length of the ray that leaves `mov` along `axis`.
fn ray_length(rows: usize, cols: usize, axis: Axis, forward: bool, mov: Move) -> (len: usize)
    requires
        mov.row < rows,
        mov.col < cols,
    ensures
        len == ray_len(rows as int, cols as int, axis, forward, mov.row as int, mov.col as int),
{
    let down = rows - 1 - mov.row;
    let right = cols - 1 - mov.col;
    match axis {
        Axis::Horizontal => if forward {
            right
        } else {
            mov.col
        },
        Axis::Vertical => if forward {
            down
        } else {
            mov.row
        },
        Axis::Diagonal => if forward {
            shorter(down, right)
        } else {
            shorter(mov.row, mov.col)
        },
        Axis::AntiDiagonal => if forward {
            shorter(down, mov.col)
        } else {
            shorter(mov.row, right)
        },
    }
}

/// The ray that leaves `mov` along `axis`.
fn ray_cells(rows: usize, cols: usize, axis: Axis, forward: bool, mov: Move) -> (cells: Vec<
    (usize, usize),
>)
    requires
        mov.row < rows,
        mov.col < cols,
    ensures
        coords(cells@) == ray(
            rows as int,
            cols as int,
            axis,
            forward,
            mov.row as int,
            mov.col as int,
        ),
{
    let len = ray_length(rows, cols, axis, forward, mov);
    let ghost want = ray(rows as int, cols as int, axis, forward, mov.row as int, mov.col as int);
    let mut cells: Vec<(usize, usize)> = Vec::new();
    let mut k: usize = 0;
    while k < len
        invariant
            mov.row < rows,
            mov.col < cols,
            len == ray_len(rows as int, cols as int, axis, forward, mov.row as int, mov.col as int),
            want == ray(rows as int, cols as int, axis, forward, mov.row as int, mov.col as int),
            k <= len,
            cells@.len() == k,
            forall|j: int|
                0 <= j < k ==> (#[trigger] cells@[j]).0 == want[j].0 && cells@[j].1 == want[j].1,
        decreases len - k,
    {
        let offset = k + 1;
        let cell = match axis {
            Axis::Horizontal => if forward {
                (mov.row, mov.col + offset)
            } else {
                (mov.row, mov.col - offset)
            },
            Axis::Vertical => if forward {
                (mov.row + offset, mov.col)
            } else {
                (mov.row - offset, mov.col)
            },
            Axis::Diagonal => if forward {
                (mov.row + offset, mov.col + offset)
            } else {
                (mov.row - offset, mov.col - offset)
            },
            Axis::AntiDiagonal => if forward {
                (mov.row + offset, mov.col - offset)
            } else {
                (mov.row - offset, mov.col + offset)
            },
        };
        cells.push(cell);
        k = k + 1;
    }
    assert(coords(cells@) =~= want);
    cells
}

impl GameGlobals {
    /// The number of rows and of columns of the board.
    pub closed spec fn dims(&self) -> (nat, nat) {
        (self.rows as nat, self.cols as nat)
    }

    /// Every cell of the board has its rays.
    pub closed spec fn wf(&self) -> bool {
        &&& self.rows * self.cols <= MAX_CELLS
        &&& self.win_tests@.len() == self.rows
        &&& forall|r: int|
            0 <= r < self.rows ==> (#[trigger] self.win_tests@[r])@.len() == self.cols
        &&& forall|r: int, c: int|
            0 <= r < self.rows && 0 <= c < self.cols ==> is_axis_pairs(
                (#[trigger] self.win_tests@[r]@[c])@,
                self.rows as int,
                self.cols as int,
                r,
                c,
            )
    }

    /// The board is no larger than `MAX_CELLS`.
    pub proof fn lemma_size(&self)
        requires
            self.wf(),
        ensures
            self.dims().0 * self.dims().1 <= MAX_CELLS,
    {
    }

    /// The geometry of a `rows` x `cols` board.
    pub fn new(rows: usize, cols: usize) -> (globals: GameGlobals)
        requires
            rows * cols <= MAX_CELLS,
        ensures
            globals.wf(),
            globals.dims() == (rows as nat, cols as nat),
    {
        let win_tests = Self::get_win_tests(rows, cols);
        GameGlobals { rows, cols, win_tests }
    }

    /// The rays of every cell, by row and then by column.
    fn get_win_tests(rows: usize, cols: usize) -> (table: Vec<
        Vec<Vec<Vec<Vec<(usize, usize)>>>>,
    >)
        ensures
            table@.len() == rows,
            forall|r: int| 0 <= r < rows ==> (#[trigger] table@[r])@.len() == cols,
            forall|r: int, c: int|
                0 <= r < rows && 0 <= c < cols ==> is_axis_pairs(
                    (#[trigger] table@[r]@[c])@,
                    rows as int,
                    cols as int,
                    r,
                    c,
                ),
    {
        let mut table: Vec<Vec<Vec<Vec<Vec<(usize, usize)>>>>> = Vec::new();
        let mut row: usize = 0;
        while row < rows
            invariant
                row <= rows,
                table@.len() == row,
                forall|r: int| 0 <= r < row ==> (#[trigger] table@[r])@.len() == cols,
                forall|r: int, c: int|
                    0 <= r < row && 0 <= c < cols ==> is_axis_pairs(
                        (#[trigger] table@[r]@[c])@,
                        rows as int,
                        cols as int,
                        r,
                        c,
                    ),
            decreases rows - row,
        {
            let mut line: Vec<Vec<Vec<Vec<(usize, usize)>>>> = Vec::new();
            let mut col: usize = 0;
            while col < cols
                invariant
                    row < rows,
                    col <= cols,
                    line@.len() == col,
                    forall|c: int|
                        0 <= c < col ==> is_axis_pairs(
                            (#[trigger] line@[c])@,
                            rows as int,
                            cols as int,
                            row as int,
                            c,
                        ),
                decreases cols - col,
            {
                let mov = Move { row, col };
                line.push(Self::get_win_tests_for_move(rows, cols, mov));
                col = col + 1;
            }
            table.push(line);
            row = row + 1;
        }
        table
    }

    /// The rays of one cell: for each of the four axes the ray that leaves the
    /// cell forward and the ray that leaves it backward, each up to the edge
    /// of the board.
    fn get_win_tests_for_move(rows: usize, cols: usize, mov: Move) -> (pairs: Vec<
        Vec<Vec<(usize, usize)>>,
    >)
        requires
            mov.row < rows,
            mov.col < cols,
        ensures
            is_axis_pairs(pairs@, rows as int, cols as int, mov.row as int, mov.col as int),
    {
        let mut win_squares: Vec<Vec<Vec<(usize, usize)>>> = Vec::new();
        let mut i: usize = 0;
        while i < 4
            invariant
                mov.row < rows,
                mov.col < cols,
                i <= 4,
                win_squares@.len() == i,
                forall|j: int|
                    0 <= j < i ==> (#[trigger] win_squares@[j])@.len() == 2 && coords(
                        win_squares@[j]@[0]@,
                    ) == ray(
                        rows as int,
                        cols as int,
                        axis_at(j),
                        true,
                        mov.row as int,
                        mov.col as int,
                    ) && coords(win_squares@[j]@[1]@) == ray(
                        rows as int,
                        cols as int,
                        axis_at(j),
                        false,
                        mov.row as int,
                        mov.col as int,
                    ),
            decreases 4 - i,
        {
            let axis = axis_of(i);
            let mut win_squares_dir: Vec<Vec<(usize, usize)>> = Vec::new();
            win_squares_dir.push(ray_cells(rows, cols, axis, true, mov));
            win_squares_dir.push(ray_cells(rows, cols, axis, false, mov));
            win_squares.push(win_squares_dir);
            i = i + 1;
        }
        win_squares
    }

    /// The number of rows of the board.
    pub fn rows(&self) -> (n: usize)
        ensures
            n == self.dims().0,
    {
        self.rows
    }

    /// The number of columns of the board.
    pub fn cols(&self) -> (n: usize)
        ensures
            n == self.dims().1,
    {
        self.cols
    }

    /// The rays of the cell `mov`: for each of the four axes, in the order
    /// horizontal, vertical, diagonal and anti-diagonal, the forward ray and
    /// the backward ray.
    pub fn lookup(&self, mov: Move) -> (pairs: &Vec<Vec<Vec<(usize, usize)>>>)
        requires
            self.wf(),
            mov.row < self.dims().0,
            mov.col < self.dims().1,
        ensures
            is_axis_pairs(
                pairs@,
                self.dims().0 as int,
                self.dims().1 as int,
                mov.row as int,
                mov.col as int,
            ),
    {
        &self.win_tests[mov.row][mov.col]
    }
}

} // verus!
