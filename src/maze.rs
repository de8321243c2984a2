//! Maze: a recursive backtracker over a half-resolution cell grid.
use rltk::RandomNumberGenerator;
use vstd::arithmetic::div_mod::{lemma_fundamental_div_mod, lemma_fundamental_div_mod_converse};
use vstd::prelude::*;

use crate::connectivity::{exit_candidate, is_distance_map, is_most_distant};
use crate::level::{fallback_exit, finalize_level, is_playable, prepared, prepared_tile};
use crate::map::{col_of, idx_of, row_of, Grid, TileType, MAP_COUNT, MAP_HEIGHT, MAP_WIDTH};
use crate::regions::{generate_voronoi_spawn_regions, regions_partition_floor};
use crate::rng::roll_die;

verus! {

/// One cell of the maze, with the four walls around it.
#[derive(PartialEq, Eq, Structural, Copy, Clone, Debug)]
pub struct Cell {
    pub row: i32,
    pub column: i32,
    pub top: bool,
    pub right: bool,
    pub bottom: bool,
    pub left: bool,
    pub visited: bool,
}

/// `a1` and `b1` are `a0` and `b0` with the wall between them removed where they are
/// side by side or one above the other, and unchanged otherwise.
pub open spec fn walls_removed(a0: Cell, b0: Cell, a1: Cell, b1: Cell) -> bool {
    let x = a0.column - b0.column;
    let y = a0.row - b0.row;
    if x == 1 && y == 0 {
        a1 == (Cell { left: false, ..a0 }) && b1 == (Cell { right: false, ..b0 })
    } else if x == -1 && y == 0 {
        a1 == (Cell { right: false, ..a0 }) && b1 == (Cell { left: false, ..b0 })
    } else if x == 0 && y == 1 {
        a1 == (Cell { top: false, ..a0 }) && b1 == (Cell { bottom: false, ..b0 })
    } else if x == 0 && y == -1 {
        a1 == (Cell { bottom: false, ..a0 }) && b1 == (Cell { top: false, ..b0 })
    } else {
        a1 == a0 && b1 == b0
    }
}

/// The cell keeps the walls that face the edge of a `w` by `h` maze.
pub open spec fn cell_border_ok(w: int, h: int, c: Cell) -> bool {
    &&& (c.column == 0 ==> c.left)
    &&& (c.column == w - 1 ==> c.right)
    &&& (c.row == 0 ==> c.top)
    &&& (c.row == h - 1 ==> c.bottom)
}

/// Every cell keeps the walls that face the edge of the maze.
pub open spec fn border_walls(w: int, h: int, cells: Seq<Cell>) -> bool {
    forall|i: int| 0 <= i < cells.len() ==> cell_border_ok(w, h, #[trigger] cells[i])
}

impl Cell {
    /// An unvisited cell walled on all four sides.
    pub fn new(row: i32, column: i32) -> (r: Cell)
        ensures
            r == (Cell { row, column, top: true, right: true, bottom: true, left: true, visited: false }),
    {
        Cell { row, column, top: true, right: true, bottom: true, left: true, visited: false }
    }

    /// Removes the wall between this cell and `next` where the two are side by side or
    /// one above the other; any other pair is left alone.
    pub fn remove_walls(&mut self, next: &mut Cell)
        requires
            -10000 <= old(self).column <= 10000,
            -10000 <= old(self).row <= 10000,
            -10000 <= old(next).column <= 10000,
            -10000 <= old(next).row <= 10000,
        ensures
            walls_removed(*old(self), *old(next), *final(self), *final(next)),
    {
        let x = self.column - next.column;
        let y = self.row - next.row;
        if x == 1 && y == 0 {
            self.left = false;
            next.right = false;
        } else if x == -1 && y == 0 {
            self.right = false;
            next.left = false;
        } else if x == 0 && y == 1 {
            self.top = false;
            next.bottom = false;
        } else if x == 0 && y == -1 {
            self.bottom = false;
            next.top = false;
        }
    }
}

/// Number of unvisited cells.
pub open spec fn unvisited(cells: Seq<Cell>) -> nat
    decreases cells.len(),
{
    if cells.len() == 0 {
        0
    } else {
        unvisited(cells.drop_last()) + if cells.last().visited {
            0nat
        } else {
            1nat
        }
    }
}

proof fn lemma_unvisited_update(cells: Seq<Cell>, k: int, c: Cell)
    requires
        0 <= k < cells.len(),
    ensures
        unvisited(cells.update(k, c)) as int == unvisited(cells) as int - (if cells[k].visited {
            0int
        } else {
            1int
        }) + (if c.visited {
            0int
        } else {
            1int
        }),
    decreases cells.len(),
{
    if k == cells.len() - 1 {
        assert(cells.update(k, c).drop_last() =~= cells.drop_last());
    } else {
        lemma_unvisited_update(cells.drop_last(), k, c);
        assert(cells.update(k, c).drop_last() =~= cells.drop_last().update(k, c));
    }
}

/// The cell beside cell `i` of a `w` by `h` maze, above (0), right (1), below (2) or
/// left (3) of it, or -1 at the border.
pub open spec fn maze_nb(w: int, h: int, i: int, k: int) -> int {
    let row = i / w;
    let col = i % w;
    if k == 0 {
        if row >= 1 { i - w } else { -1 }
    } else if k == 1 {
        if col + 1 < w { i + 1 } else { -1 }
    } else if k == 2 {
        if row + 1 < h { i + w } else { -1 }
    } else {
        if col >= 1 { i - 1 } else { -1 }
    }
}

/// Every visited cell off the walk's way back, other than the current one, has only
/// visited neighbours.
pub open spec fn dfs_closed(w: int, h: int, cells: Seq<Cell>, current: int, back: Seq<usize>) -> bool {
    forall|v: int, k: int|
        #![trigger cells[v], maze_nb(w, h, v, k)]
        0 <= v < cells.len() && 0 <= k < 4 && cells[v].visited && v != current && !back.contains(
            v as usize,
        ) && maze_nb(w, h, v, k) >= 0 ==> cells[maze_nb(w, h, v, k)].visited
}

/// The maze's cells, row by row, with the walk's position and its way back.
pub struct MazeGrid {
    pub width: i32,
    pub height: i32,
    pub cells: Vec<Cell>,
    pub backtrace: Vec<usize>,
    pub current: usize,
}

impl MazeGrid {
    /// Cells are laid out row by row and the walk's indices name cells.
    pub open spec fn wf(&self) -> bool {
        &&& 1 <= self.width <= 100
        &&& 1 <= self.height <= 100
        &&& self.cells@.len() == self.width * self.height
        &&& forall|i: int|
            #![trigger self.cells@[i]]
            0 <= i < self.cells@.len() ==> self.cells@[i].row == i / (self.width as int)
                && self.cells@[i].column == i % (self.width as int)
        &&& self.current < self.cells@.len()
        &&& forall|k: int| #![trigger self.backtrace@[k]] 0 <= k < self.backtrace@.len() ==> self.backtrace@[k] < self.cells@.len()
    }

    /// A grid of `width` by `height` unvisited, fully walled cells.
    pub fn new(width: i32, height: i32) -> (r: MazeGrid)
        requires
            1 <= width <= 100,
            1 <= height <= 100,
        ensures
            r.wf(),
            r.width == width,
            r.height == height,
            r.current == 0,
            r.backtrace@.len() == 0,
            forall|i: int| #![trigger r.cells@[i]] 0 <= i < r.cells@.len() ==> !r.cells@[i].visited,
            forall|i: int|
                #![trigger r.cells@[i]]
                0 <= i < r.cells@.len() ==> r.cells@[i].top && r.cells@[i].right && r.cells@[i].bottom
                    && r.cells@[i].left,
            walls_symmetric(width as int, height as int, r.cells@),
    {
        let mut cells: Vec<Cell> = Vec::new();
        let mut row: i32 = 0;
        while row < height
            invariant
                1 <= width <= 100,
                1 <= height <= 100,
                0 <= row <= height,
                cells@.len() == row * width,
                forall|i: int|
                    #![trigger cells@[i]]
                    0 <= i < cells@.len() ==> cells@[i].row == i / (width as int) && cells@[i].column
                        == i % (width as int) && !cells@[i].visited && cells@[i].top && cells@[i].right
                        && cells@[i].bottom && cells@[i].left,
            decreases height - row,
        {
            let mut column: i32 = 0;
            while column < width
                invariant
                    1 <= width <= 100,
                    1 <= height <= 100,
                    0 <= row < height,
                    0 <= column <= width,
                    cells@.len() == row * width + column,
                    forall|i: int|
                        #![trigger cells@[i]]
                        0 <= i < cells@.len() ==> cells@[i].row == i / (width as int)
                            && cells@[i].column == i % (width as int) && !cells@[i].visited
                            && cells@[i].top && cells@[i].right && cells@[i].bottom && cells@[i].left,
                decreases width - column,
            {
                proof {
                    vstd::arithmetic::div_mod::lemma_fundamental_div_mod_converse(
                        row * width + column,
                        width as int,
                        row as int,
                        column as int,
                    );
                }
                cells.push(Cell::new(row, column));
                column = column + 1;
            }
            assert(cells@.len() == (row + 1) * width) by (nonlinear_arith)
                requires
                    cells@.len() == row * width + width,
            ;
            row = row + 1;
        }
        assert(row * width == width * height && width * height >= 1) by (nonlinear_arith)
            requires
                row == height,
                width >= 1,
                height >= 1,
        ;
        proof {
            assert forall|i: int|
                0 <= i < cells@.len() && #[trigger] maze_nb(width as int, height as int, i, 1) >= 0 implies cells@[i].right
                    == cells@[maze_nb(width as int, height as int, i, 1)].left by {
                lemma_nb_in_range(width as int, height as int, i, 1);
            }
            assert forall|i: int|
                0 <= i < cells@.len() && #[trigger] maze_nb(width as int, height as int, i, 2) >= 0 implies cells@[i].bottom
                    == cells@[maze_nb(width as int, height as int, i, 2)].top by {
                lemma_nb_in_range(width as int, height as int, i, 2);
            }
        }
        MazeGrid { width, height, cells, backtrace: Vec::new(), current: 0 }
    }

    /// The index of the cell at `(row, column)`, or -1 where it lies off the grid.
    pub fn calculate_index(&self, row: i32, column: i32) -> (r: i32)
        requires
            self.wf(),
            -1 <= row <= 101,
            -1 <= column <= 101,
        ensures
            if row < 0 || column < 0 || column > self.width - 1 || row > self.height - 1 {
                r == -1
            } else {
                r == column + row * self.width && 0 <= r < self.cells@.len()
            },
    {
        if row < 0 || column < 0 || column > self.width - 1 || row > self.height - 1 {
            -1
        } else {
            assert(0 <= column + row * self.width < self.width * self.height) by (nonlinear_arith)
                requires
                    0 <= row < self.height,
                    0 <= column < self.width,
            ;
            assert(row * self.width <= 10000) by (nonlinear_arith)
                requires
                    0 <= row < self.height <= 100,
                    0 <= self.width <= 100,
            ;
            column + row * self.width
        }
    }

    /// The unvisited neighbours of the current cell, in the order above, right,
    /// below, left.
    pub fn get_available_neighbors(&self) -> (r: Vec<usize>)
        requires
            self.wf(),
        ensures
            r@.len() <= 4,
            forall|k: int|
                #![trigger r@[k]]
                0 <= k < r@.len() ==> r@[k] < self.cells@.len() && !self.cells@[r@[k] as int].visited,
            forall|k: int|
                0 <= k < 4 && #[trigger] maze_nb(self.width as int, self.height as int, self.current as int, k) >= 0
                    && !self.cells@[maze_nb(self.width as int, self.height as int, self.current as int, k)].visited
                    ==> r@.contains(maze_nb(self.width as int, self.height as int, self.current as int, k) as usize),
            forall|j: int|
                #![trigger r@[j]]
                0 <= j < r@.len() ==> exists|k: int|
                    0 <= k < 4 && #[trigger] maze_nb(self.width as int, self.height as int, self.current as int, k)
                        == r@[j] as int,
    {
        let mut neighbors: Vec<usize> = Vec::new();
        let current_row = self.cells[self.current].row;
        let current_column = self.cells[self.current].column;
        proof {
            let cur = self.current as int;
            let w = self.width as int;
            vstd::arithmetic::div_mod::lemma_fundamental_div_mod(cur, w);
            vstd::arithmetic::div_mod::lemma_mod_pos_bound(cur, w);
            let q = cur / w;
            let m = cur % w;
            assert(0 <= q < self.height) by (nonlinear_arith)
                requires
                    cur == w * q + m,
                    0 <= m < w,
                    0 <= cur < w * self.height,
                    w > 0,
            ;
            assert((q - 1) * w == cur - m - w && (q + 1) * w == cur - m + w && q * w == cur - m) by (nonlinear_arith)
                requires
                    cur == w * q + m,
            ;
        }
        let candidates: [i32; 4] = [
            self.calculate_index(current_row - 1, current_column),
            self.calculate_index(current_row, current_column + 1),
            self.calculate_index(current_row + 1, current_column),
            self.calculate_index(current_row, current_column - 1),
        ];
        proof {
            let w = self.width as int;
            let h = self.height as int;
            let cur = self.current as int;
            assert(candidates[0] as int == maze_nb(w, h, cur, 0));
            assert(candidates[1] as int == maze_nb(w, h, cur, 1));
            assert(candidates[2] as int == maze_nb(w, h, cur, 2));
            assert(candidates[3] as int == maze_nb(w, h, cur, 3));
        }
        let mut k: usize = 0;
        while k < 4
            invariant
                self.wf(),
                0 <= k <= 4,
                neighbors@.len() <= k,
                forall|j: int| 0 <= j < 4 ==> candidates[j] == -1 || (0 <= #[trigger] candidates[j] < self.cells@.len()),
                forall|j: int| 0 <= j < 4 ==> #[trigger] candidates[j] as int == maze_nb(self.width as int, self.height as int, self.current as int, j),
                forall|j: int|
                    #![trigger neighbors@[j]]
                    0 <= j < neighbors@.len() ==> neighbors@[j] < self.cells@.len()
                        && !self.cells@[neighbors@[j] as int].visited,
                forall|j: int|
                    0 <= j < k && #[trigger] candidates[j] >= 0 && !self.cells@[candidates[j] as int].visited
                        ==> neighbors@.contains(candidates[j] as usize),
                forall|j: int|
                    #![trigger neighbors@[j]]
                    0 <= j < neighbors@.len() ==> exists|kk: int|
                        0 <= kk < 4 && #[trigger] maze_nb(self.width as int, self.height as int, self.current as int, kk)
                            == neighbors@[j] as int,
            decreases 4 - k,
        {
            let c = candidates[k];
            let ghost before = neighbors@;
            if c != -1 && !self.cells[c as usize].visited {
                neighbors.push(c as usize);
                assert(neighbors@[before.len() as int] == c as usize);
            }
            assert forall|j: int|
                0 <= j < k + 1 && #[trigger] candidates[j] >= 0 && !self.cells@[candidates[j] as int].visited
                    implies neighbors@.contains(candidates[j] as usize) by {
                if j < k {
                    let a = choose|a: int| 0 <= a < before.len() && before[a] == candidates[j] as usize;
                    assert(neighbors@[a] == before[a]);
                } else {
                    assert(neighbors@[neighbors@.len() - 1] == c as usize);
                }
            }
            assert forall|j: int|
                #![trigger neighbors@[j]]
                0 <= j < neighbors@.len() implies exists|kk: int|
                    0 <= kk < 4 && #[trigger] maze_nb(self.width as int, self.height as int, self.current as int, kk)
                        == neighbors@[j] as int by {
                if j < before.len() {
                    assert(neighbors@[j] == before[j]);
                } else {
                    assert(candidates[k as int] as int == maze_nb(self.width as int, self.height as int, self.current as int, k as int));
                }
            }
            k = k + 1;
        }
        neighbors
    }
}

/// Column and row of a cell lie on the maze.
proof fn lemma_cell_coords(g: &MazeGrid, i: int)
    requires
        g.wf(),
        0 <= i < g.cells@.len(),
    ensures
        0 <= g.cells@[i].column < g.width,
        0 <= g.cells@[i].row < g.height,
{
    let w = g.width as int;
    vstd::arithmetic::div_mod::lemma_fundamental_div_mod(i, w);
    vstd::arithmetic::div_mod::lemma_mod_pos_bound(i, w);
    let q = i / w;
    let m = i % w;
    assert(0 <= q < g.height) by (nonlinear_arith)
        requires
            i == w * q + m,
            0 <= m < w,
            0 <= i < w * g.height,
            w > 0,
    ;
}

/// Grid cell that a maze cell is drawn on: column `2 * (column + 1)`, row
/// `2 * (row + 1)`.
pub open spec fn cell_pos(c: Cell) -> int {
    idx_of(2 * (c.column + 1), 2 * (c.row + 1))
}

/// Drawing maze cell `c` makes grid cell `i` floor: its own cell, or the cell beside
/// it through a wall it has lost.
pub open spec fn renders_floor(c: Cell, i: int) -> bool {
    ||| i == cell_pos(c)
    ||| (!c.top && i == cell_pos(c) - 80)
    ||| (!c.right && i == cell_pos(c) + 1)
    ||| (!c.bottom && i == cell_pos(c) + 80)
    ||| (!c.left && i == cell_pos(c) - 1)
}

/// One of the first `n` maze cells makes grid cell `i` floor.
pub open spec fn maze_covers(cells: Seq<Cell>, n: int, i: int) -> bool {
    exists|k: int| 0 <= k < n && #[trigger] renders_floor(cells[k], i)
}

/// Removing the wall between a cell and its neighbour keeps the walls on the edge.
proof fn lemma_removal_keeps_border(w: int, h: int, i: int, k: int, a0: Cell, b0: Cell, a1: Cell, b1: Cell)
    requires
        1 <= w,
        1 <= h,
        0 <= i < w * h,
        0 <= k < 4,
        maze_nb(w, h, i, k) >= 0,
        a0.column == i % w,
        a0.row == i / w,
        b0.column == maze_nb(w, h, i, k) % w,
        b0.row == maze_nb(w, h, i, k) / w,
        cell_border_ok(w, h, a0),
        cell_border_ok(w, h, b0),
        walls_removed(a0, b0, a1, b1),
    ensures
        cell_border_ok(w, h, a1),
        cell_border_ok(w, h, b1),
{
    lemma_parts(w, i);
    let q = i / w;
    let m = i % w;
    assert(q < h) by (nonlinear_arith)
        requires
            i == w * q + m,
            0 <= m,
            i < w * h,
            w >= 1,
    ;
    if k == 0 {
        assert(i - w == w * (q - 1) + m) by (nonlinear_arith)
            requires
                i == w * q + m,
        ;
        lemma_div_parts(w, i - w, q - 1, m);
    } else if k == 1 {
        lemma_div_parts(w, i + 1, q, m + 1);
    } else if k == 2 {
        assert(i + w == w * (q + 1) + m) by (nonlinear_arith)
            requires
                i == w * q + m,
        ;
        lemma_div_parts(w, i + w, q + 1, m);
    } else {
        lemma_div_parts(w, i - 1, q, m - 1);
    }
}

/// Which sides the removal between cell `i` and its neighbour in direction `k` opens.
proof fn lemma_removal_sides(w: int, h: int, i: int, k: int, a0: Cell, b0: Cell, a1: Cell, b1: Cell)
    requires
        1 <= w,
        1 <= h,
        0 <= i < w * h,
        0 <= k < 4,
        maze_nb(w, h, i, k) >= 0,
        a0.column == i % w,
        a0.row == i / w,
        b0.column == maze_nb(w, h, i, k) % w,
        b0.row == maze_nb(w, h, i, k) / w,
        walls_removed(a0, b0, a1, b1),
    ensures
        k == 0 ==> a1 == (Cell { top: false, ..a0 }) && b1 == (Cell { bottom: false, ..b0 }),
        k == 1 ==> a1 == (Cell { right: false, ..a0 }) && b1 == (Cell { left: false, ..b0 }),
        k == 2 ==> a1 == (Cell { bottom: false, ..a0 }) && b1 == (Cell { top: false, ..b0 }),
        k == 3 ==> a1 == (Cell { left: false, ..a0 }) && b1 == (Cell { right: false, ..b0 }),
{
    lemma_parts(w, i);
    let q = i / w;
    let m = i % w;
    if k == 0 {
        assert(i - w == w * (q - 1) + m) by (nonlinear_arith)
            requires
                i == w * q + m,
        ;
        lemma_div_parts(w, i - w, q - 1, m);
    } else if k == 1 {
        lemma_div_parts(w, i + 1, q, m + 1);
    } else if k == 2 {
        assert(i + w == w * (q + 1) + m) by (nonlinear_arith)
            requires
                i == w * q + m,
        ;
        lemma_div_parts(w, i + w, q + 1, m);
    } else {
        lemma_div_parts(w, i - 1, q, m - 1);
    }
}

/// Neighbouring cells agree on the wall between them.
pub open spec fn walls_symmetric(w: int, h: int, cells: Seq<Cell>) -> bool {
    &&& forall|i: int|
        0 <= i < cells.len() && #[trigger] maze_nb(w, h, i, 1) >= 0 ==> cells[i].right == cells[maze_nb(
            w,
            h,
            i,
            1,
        )].left
    &&& forall|i: int|
        0 <= i < cells.len() && #[trigger] maze_nb(w, h, i, 2) >= 0 ==> cells[i].bottom == cells[maze_nb(
            w,
            h,
            i,
            2,
        )].top
}

/// The neighbour relation read backwards.
proof fn lemma_nb_back(w: int, h: int, i: int, k: int)
    requires
        1 <= w,
        1 <= h,
        0 <= i < w * h,
        0 <= k < 4,
        maze_nb(w, h, i, k) >= 0,
    ensures
        k == 1 ==> maze_nb(w, h, i + 1, 3) == i,
        k == 3 ==> maze_nb(w, h, i - 1, 1) == i,
        k == 2 ==> maze_nb(w, h, i + w, 0) == i,
        k == 0 ==> maze_nb(w, h, i - w, 2) == i,
        k == 1 ==> maze_nb(w, h, i, 1) == i + 1,
        k == 3 ==> maze_nb(w, h, i, 3) == i - 1,
        k == 2 ==> maze_nb(w, h, i, 2) == i + w,
        k == 0 ==> maze_nb(w, h, i, 0) == i - w,
{
    lemma_parts(w, i);
    let q = i / w;
    let m = i % w;
    assert(q < h) by (nonlinear_arith)
        requires
            i == w * q + m,
            0 <= m,
            i < w * h,
            w >= 1,
    ;
    if k == 0 {
        assert(i - w == w * (q - 1) + m) by (nonlinear_arith)
            requires
                i == w * q + m,
        ;
        lemma_div_parts(w, i - w, q - 1, m);
    } else if k == 1 {
        lemma_div_parts(w, i + 1, q, m + 1);
    } else if k == 2 {
        assert(i + w == w * (q + 1) + m) by (nonlinear_arith)
            requires
                i == w * q + m,
        ;
        lemma_div_parts(w, i + w, q + 1, m);
    } else {
        lemma_div_parts(w, i - 1, q, m - 1);
    }
}

/// Removing the wall between a cell and its neighbour keeps neighbours agreeing.
#[verifier::rlimit(80)]
proof fn lemma_removal_keeps_symmetry(w: int, h: int, c0: Seq<Cell>, cur: int, k: int, a1: Cell, b1: Cell)
    requires
        1 <= w,
        1 <= h,
        c0.len() == w * h,
        forall|i: int| 0 <= i < c0.len() ==> #[trigger] c0[i].column == i % w && c0[i].row == i / w,
        walls_symmetric(w, h, c0),
        0 <= cur < w * h,
        0 <= k < 4,
        maze_nb(w, h, cur, k) >= 0,
        walls_removed(c0[cur], c0[maze_nb(w, h, cur, k)], a1, b1),
    ensures
        walls_symmetric(w, h, c0.update(cur, a1).update(maze_nb(w, h, cur, k), b1)),
{
    let next = maze_nb(w, h, cur, k);
    lemma_nb_in_range(w, h, cur, k);
    lemma_removal_sides(w, h, cur, k, c0[cur], c0[next], a1, b1);
    lemma_nb_back(w, h, cur, k);
    let c1 = c0.update(cur, a1).update(next, b1);
    assert forall|i: int|
        0 <= i < c1.len() && #[trigger] maze_nb(w, h, i, 1) >= 0 implies c1[i].right == c1[maze_nb(w, h, i, 1)].left by {
        lemma_nb_in_range(w, h, i, 1);
        lemma_nb_back(w, h, i, 1);
        let j = i + 1;
        assert(c0[i].right == c0[j].left);
        if (i == cur && j == next) || (i == next && j == cur) {
            assert(k == 1 || k == 3) by {
                lemma_parts(w, i);
                lemma_parts(w, cur);
            }
        } else {
            if i == cur {
                assert(k != 1);
            }
            if j == next {
                assert(k != 1) by {
                    if k == 1 {
                        assert(next == cur + 1);
                    }
                }
            }
        }
    }
    assert forall|i: int|
        0 <= i < c1.len() && #[trigger] maze_nb(w, h, i, 2) >= 0 implies c1[i].bottom == c1[maze_nb(w, h, i, 2)].top by {
        lemma_nb_in_range(w, h, i, 2);
        lemma_nb_back(w, h, i, 2);
        let j = i + w;
        assert(c0[i].bottom == c0[j].top);
    }
}

/// Cells with the same walls agree on them as before.
proof fn lemma_same_walls_symmetric(w: int, h: int, c0: Seq<Cell>, c1: Seq<Cell>)
    requires
        1 <= w,
        1 <= h,
        c0.len() == w * h,
        walls_symmetric(w, h, c0),
        c0.len() == c1.len(),
        forall|i: int|
            0 <= i < c0.len() ==> (#[trigger] c1[i]).top == c0[i].top && c1[i].right == c0[i].right
                && c1[i].bottom == c0[i].bottom && c1[i].left == c0[i].left,
    ensures
        walls_symmetric(w, h, c1),
{
    assert forall|i: int|
        0 <= i < c1.len() && #[trigger] maze_nb(w, h, i, 1) >= 0 implies c1[i].right == c1[maze_nb(w, h, i, 1)].left by {
        lemma_nb_in_range(w, h, i, 1);
        assert(c0[i].right == c0[maze_nb(w, h, i, 1)].left);
    }
    assert forall|i: int|
        0 <= i < c1.len() && #[trigger] maze_nb(w, h, i, 2) >= 0 implies c1[i].bottom == c1[maze_nb(w, h, i, 2)].top by {
        lemma_nb_in_range(w, h, i, 2);
        assert(c0[i].bottom == c0[maze_nb(w, h, i, 2)].top);
    }
}

/// Side `k` of the cell (0 above, 1 right, 2 below, 3 left) has lost its wall.
pub open spec fn side_open(c: Cell, k: int) -> bool {
    if k == 0 {
        !c.top
    } else if k == 1 {
        !c.right
    } else if k == 2 {
        !c.bottom
    } else {
        !c.left
    }
}

/// A passage leads from cell `a` to its neighbour `b`.
pub open spec fn linked(w: int, h: int, cells: Seq<Cell>, a: int, b: int) -> bool {
    exists|k: int| 0 <= k < 4 && #[trigger] maze_nb(w, h, a, k) == b && side_open(cells[a], k)
}

/// A walk through the maze's passages.
pub open spec fn is_passage_path(w: int, h: int, cells: Seq<Cell>, p: Seq<int>) -> bool {
    &&& p.len() >= 1
    &&& forall|k: int| 0 <= k < p.len() ==> 0 <= #[trigger] p[k] < cells.len()
    &&& forall|k: int| 0 <= k < p.len() - 1 ==> linked(w, h, cells, p[k], #[trigger] p[k + 1])
}

/// Cell `v` can be reached from cell `s` through passages.
pub open spec fn joined(w: int, h: int, cells: Seq<Cell>, s: int, v: int) -> bool {
    exists|p: Seq<int>| #[trigger] is_passage_path(w, h, cells, p) && p[0] == s && p.last() == v
}

/// `c1` has lost every wall that `c0` has lost.
pub open spec fn opened_from(c0: Cell, c1: Cell) -> bool {
    (!c0.top ==> !c1.top) && (!c0.right ==> !c1.right) && (!c0.bottom ==> !c1.bottom) && (!c0.left ==> !c1.left)
}

/// Opening walls keeps every passage walk.
proof fn lemma_joined_after_opening(w: int, h: int, c0: Seq<Cell>, c1: Seq<Cell>, s: int, v: int)
    requires
        c0.len() == c1.len(),
        forall|i: int| 0 <= i < c0.len() ==> opened_from(#[trigger] c0[i], c1[i]),
        joined(w, h, c0, s, v),
    ensures
        joined(w, h, c1, s, v),
{
    let p = choose|p: Seq<int>| #[trigger] is_passage_path(w, h, c0, p) && p[0] == s && p.last() == v;
    assert forall|k: int| 0 <= k < p.len() - 1 implies linked(w, h, c1, p[k], #[trigger] p[k + 1]) by {
        assert(linked(w, h, c0, p[k], p[k + 1]));
        let kk = choose|kk: int| 0 <= kk < 4 && #[trigger] maze_nb(w, h, p[k], kk) == p[k + 1] && side_open(c0[p[k]], kk);
        assert(opened_from(c0[p[k]], c1[p[k]]));
        assert(side_open(c1[p[k]], kk));
    }
    assert(is_passage_path(w, h, c1, p));
}

/// Passages that cell `i` opens to its right and below: 0, 1 or 2.
pub open spec fn own_passages(w: int, h: int, c: Cell, i: int) -> int {
    (if maze_nb(w, h, i, 1) >= 0 && !c.right { 1int } else { 0int }) + (if maze_nb(w, h, i, 2) >= 0
        && !c.bottom { 1int } else { 0int })
}

/// Number of passages among the first `n` cells, each counted at its left or upper end.
pub open spec fn passages(w: int, h: int, cells: Seq<Cell>, n: int) -> int
    decreases n,
{
    if n <= 0 {
        0
    } else {
        passages(w, h, cells, n - 1) + own_passages(w, h, cells[n - 1], n - 1)
    }
}

proof fn lemma_passages_update(w: int, h: int, cells: Seq<Cell>, n: int, j: int, x: Cell)
    requires
        0 <= j < cells.len(),
        0 <= n <= cells.len(),
    ensures
        passages(w, h, cells.update(j, x), n) == passages(w, h, cells, n) + if j < n {
            own_passages(w, h, x, j) - own_passages(w, h, cells[j], j)
        } else {
            0
        },
    decreases n,
{
    if n > 0 {
        lemma_passages_update(w, h, cells, n - 1, j, x);
    }
}

/// Counting unvisited cells of an all-unvisited or all-visited list.
proof fn lemma_unvisited_extremes(cells: Seq<Cell>)
    ensures
        (forall|v: int| 0 <= v < cells.len() ==> !#[trigger] cells[v].visited) ==> unvisited(cells) == cells.len(),
        (forall|v: int| 0 <= v < cells.len() ==> #[trigger] cells[v].visited) ==> unvisited(cells) == 0,
    decreases cells.len(),
{
    if cells.len() > 0 {
        lemma_unvisited_extremes(cells.drop_last());
        assert forall|v: int| 0 <= v < cells.len() - 1 implies #[trigger] cells.drop_last()[v] == cells[v] by {}
    }
}

/// A maze with all its walls has no passage.
proof fn lemma_no_passages(w: int, h: int, cells: Seq<Cell>, n: int)
    requires
        0 <= n <= cells.len(),
        forall|v: int| 0 <= v < cells.len() ==> (#[trigger] cells[v]).right && cells[v].bottom,
    ensures
        passages(w, h, cells, n) == 0,
    decreases n,
{
    if n > 0 {
        lemma_no_passages(w, h, cells, n - 1);
        assert(cells[n - 1].right && cells[n - 1].bottom);
    }
}

/// No more cells are unvisited than there are; all are where the count is full.
proof fn lemma_unvisited_full(cells: Seq<Cell>)
    ensures
        unvisited(cells) <= cells.len(),
        unvisited(cells) == cells.len() ==> forall|v: int| 0 <= v < cells.len() ==> !#[trigger] cells[v].visited,
    decreases cells.len(),
{
    if cells.len() > 0 {
        let d = cells.drop_last();
        lemma_unvisited_full(d);
        if unvisited(cells) == cells.len() {
            assert(!cells.last().visited);
            assert(unvisited(d) == d.len());
            assert forall|v: int| 0 <= v < cells.len() implies !#[trigger] cells[v].visited by {
                if v < cells.len() - 1 {
                    assert(d[v] == cells[v]);
                    assert(!d[v].visited);
                }
            }
        }
    }
}

/// The passage count is never negative.
proof fn lemma_passages_nonneg(w: int, h: int, cells: Seq<Cell>, n: int)
    ensures
        passages(w, h, cells, n) >= 0,
    decreases n,
{
    if n > 0 {
        lemma_passages_nonneg(w, h, cells, n - 1);
    }
}

/// Changing only whether a cell is visited keeps the passages.
proof fn lemma_marking_keeps_passages(w: int, h: int, cells: Seq<Cell>, j: int)
    requires
        0 <= j < cells.len(),
    ensures
        passages(w, h, cells.update(j, Cell { visited: true, ..cells[j] }), cells.len() as int) == passages(
            w,
            h,
            cells,
            cells.len() as int,
        ),
{
    lemma_passages_update(w, h, cells, cells.len() as int, j, Cell { visited: true, ..cells[j] });
}

/// The passages so far number one fewer than the visited cells (none before the
/// first visit).
pub open spec fn count_ok(w: int, h: int, cells: Seq<Cell>) -> bool {
    ||| passages(w, h, cells, w * h) + unvisited(cells) + 1 == cells.len()
    ||| (passages(w, h, cells, w * h) == 0 && unvisited(cells) == cells.len())
}

/// Unvisited cells keep all four walls.
pub open spec fn unvisited_walled(cells: Seq<Cell>) -> bool {
    forall|v: int|
        0 <= v < cells.len() && !(#[trigger] cells[v]).visited ==> cells[v].top && cells[v].right && cells[v].bottom
            && cells[v].left
}

/// Opening the wall between a cell and a fully walled neighbour adds one passage.
#[verifier::rlimit(60)]
proof fn lemma_opening_adds_passage(w: int, h: int, c1: Seq<Cell>, cur: int, k: int, a: Cell, b: Cell)
    requires
        1 <= w,
        1 <= h,
        c1.len() == w * h,
        forall|i: int| 0 <= i < c1.len() ==> #[trigger] c1[i].column == i % w && c1[i].row == i / w,
        walls_symmetric(w, h, c1),
        0 <= cur < w * h,
        0 <= k < 4,
        maze_nb(w, h, cur, k) >= 0,
        c1[maze_nb(w, h, cur, k)].top && c1[maze_nb(w, h, cur, k)].right && c1[maze_nb(w, h, cur, k)].bottom
            && c1[maze_nb(w, h, cur, k)].left,
        walls_removed(c1[cur], c1[maze_nb(w, h, cur, k)], a, b),
    ensures
        passages(w, h, c1.update(cur, a).update(maze_nb(w, h, cur, k), b), w * h) == passages(w, h, c1, w * h) + 1,
{
    let next = maze_nb(w, h, cur, k);
    lemma_nb_in_range(w, h, cur, k);
    lemma_removal_sides(w, h, cur, k, c1[cur], c1[next], a, b);
    lemma_nb_back(w, h, cur, k);
    let c2 = c1.update(cur, a);
    lemma_passages_update(w, h, c1, w * h, cur, a);
    lemma_passages_update(w, h, c2, w * h, next, b);
    assert(c2[next] == c1[next]);
    if k == 1 {
        assert(c1[cur].right == c1[next].left);
    } else if k == 2 {
        assert(c1[cur].bottom == c1[next].top);
    } else if k == 0 {
        assert(maze_nb(w, h, next, 2) == cur);
    } else {
        assert(maze_nb(w, h, next, 1) == cur);
    }
}

/// Every visited cell has only visited neighbours.
pub open spec fn visited_closed(w: int, h: int, cells: Seq<Cell>) -> bool {
    forall|v: int, k: int|
        #![trigger cells[v], maze_nb(w, h, v, k)]
        0 <= v < cells.len() && 0 <= k < 4 && cells[v].visited && maze_nb(w, h, v, k) >= 0
            ==> cells[maze_nb(w, h, v, k)].visited
}

/// Quotient and remainder of `x = w * q + r`.
proof fn lemma_div_parts(w: int, x: int, q: int, r: int)
    requires
        w >= 1,
        0 <= r < w,
        x == w * q + r,
    ensures
        x / w == q,
        x % w == r,
{
    assert(x == q * w + r) by (nonlinear_arith)
        requires
            x == w * q + r,
    ;
    lemma_fundamental_div_mod_converse(x, w, q, r);
}

/// A cell as its row and column.
proof fn lemma_parts(w: int, x: int)
    requires
        w >= 1,
        x >= 0,
    ensures
        x == w * (x / w) + x % w,
        0 <= x % w < w,
        x / w >= 0,
{
    lemma_fundamental_div_mod(x, w);
    vstd::arithmetic::div_mod::lemma_mod_pos_bound(x, w);
    vstd::arithmetic::div_mod::lemma_div_pos_is_pos(x, w);
}

/// Along a row, visiting spreads from `i` to every later cell `j` of the row.
proof fn lemma_spread_row(w: int, h: int, cells: Seq<Cell>, i: int, j: int)
    requires
        1 <= w,
        1 <= h,
        cells.len() == w * h,
        visited_closed(w, h, cells),
        0 <= i <= j < cells.len(),
        i / w == j / w,
        cells[i].visited,
    ensures
        cells[j].visited,
    decreases j - i,
{
    if i < j {
        lemma_parts(w, i);
        lemma_parts(w, j);
        assert(i % w + 1 < w);
        lemma_div_parts(w, i + 1, i / w, i % w + 1);
        assert(maze_nb(w, h, i, 1) == i + 1);
        assert(cells[i + 1].visited);
        lemma_spread_row(w, h, cells, i + 1, j);
    }
}

/// Down a column, visiting spreads from `i` to every later cell `j` of the column.
proof fn lemma_spread_column(w: int, h: int, cells: Seq<Cell>, i: int, j: int)
    requires
        1 <= w,
        1 <= h,
        cells.len() == w * h,
        visited_closed(w, h, cells),
        0 <= i <= j < cells.len(),
        i % w == j % w,
        cells[i].visited,
    ensures
        cells[j].visited,
    decreases j - i,
{
    if i < j {
        lemma_parts(w, i);
        lemma_parts(w, j);
        let qi = i / w;
        let qj = j / w;
        assert(qi + 1 <= qj && i + w <= j) by (nonlinear_arith)
            requires
                i == w * qi + i % w,
                j == w * qj + j % w,
                i % w == j % w,
                i < j,
                w >= 1,
        ;
        assert(qj < h) by (nonlinear_arith)
            requires
                j == w * qj + j % w,
                0 <= j % w,
                j < w * h,
                w >= 1,
        ;
        assert(i + w == w * (qi + 1) + i % w) by (nonlinear_arith)
            requires
                i == w * qi + i % w,
        ;
        lemma_div_parts(w, i + w, qi + 1, i % w);
        assert(maze_nb(w, h, i, 2) == i + w);
        assert(cells[i + w].visited);
        lemma_spread_column(w, h, cells, i + w, j);
    }
}

/// Backwards along a row or up a column.
proof fn lemma_spread_back(w: int, h: int, cells: Seq<Cell>, i: int, j: int)
    requires
        1 <= w,
        1 <= h,
        cells.len() == w * h,
        visited_closed(w, h, cells),
        0 <= j <= i < cells.len(),
        i / w == j / w || i % w == j % w,
        cells[i].visited,
    ensures
        cells[j].visited,
    decreases i - j,
{
    if j < i {
        lemma_parts(w, i);
        lemma_parts(w, j);
        let qi = i / w;
        let qj = j / w;
        if qi == qj {
            assert(i % w >= 1) by (nonlinear_arith)
                requires
                    i == w * qi + i % w,
                    j == w * qi + j % w,
                    0 <= j % w,
                    j < i,
            ;
            assert(i - 1 == w * qi + (i % w - 1));
            lemma_div_parts(w, i - 1, qi, i % w - 1);
            assert(maze_nb(w, h, i, 3) == i - 1);
            assert(cells[i - 1].visited);
            lemma_spread_back(w, h, cells, i - 1, j);
        } else {
            assert(qj + 1 <= qi && j <= i - w) by (nonlinear_arith)
                requires
                    i == w * qi + i % w,
                    j == w * qj + j % w,
                    i % w == j % w,
                    j < i,
                    w >= 1,
            ;
            assert(i - w == w * (qi - 1) + i % w) by (nonlinear_arith)
                requires
                    i == w * qi + i % w,
            ;
            lemma_div_parts(w, i - w, qi - 1, i % w);
            assert(maze_nb(w, h, i, 0) == i - w);
            assert(cells[i - w].visited);
            lemma_spread_back(w, h, cells, i - w, j);
        }
    }
}

/// A neighbour lies on the maze.
proof fn lemma_nb_in_range(w: int, h: int, v: int, k: int)
    requires
        1 <= w,
        1 <= h,
        0 <= v < w * h,
    ensures
        maze_nb(w, h, v, k) >= 0 ==> maze_nb(w, h, v, k) < w * h,
{
    lemma_parts(w, v);
    let q = v / w;
    assert(q < h) by (nonlinear_arith)
        requires
            v == w * q + v % w,
            0 <= v % w,
            v < w * h,
            w >= 1,
    ;
    if k == 2 && q + 1 < h {
        assert(v + w < w * h) by (nonlinear_arith)
            requires
                v == w * q + v % w,
                v % w < w,
                q + 1 < h,
                w >= 1,
        ;
    }
    if k == 1 && v % w + 1 < w {
        assert(v + 1 < w * h) by (nonlinear_arith)
            requires
                v == w * q + v % w,
                v % w + 1 < w,
                q < h,
                w >= 1,
        ;
    }
}

/// A closed set of visited cells that holds one cell holds them all.
proof fn lemma_all_visited(w: int, h: int, cells: Seq<Cell>, c: int)
    requires
        1 <= w,
        1 <= h,
        cells.len() == w * h,
        visited_closed(w, h, cells),
        0 <= c < cells.len(),
        cells[c].visited,
    ensures
        forall|v: int| 0 <= v < cells.len() ==> #[trigger] cells[v].visited,
{
    assert forall|v: int| 0 <= v < cells.len() implies #[trigger] cells[v].visited by {
        lemma_parts(w, c);
        lemma_parts(w, v);
        let qc = c / w;
        let u = w * qc + v % w;
        lemma_div_parts(w, u, qc, v % w);
        assert(qc < h) by (nonlinear_arith)
            requires
                c == w * qc + c % w,
                0 <= c % w,
                c < w * h,
                w >= 1,
        ;
        assert(0 <= u < w * h) by (nonlinear_arith)
            requires
                u == w * qc + v % w,
                0 <= v % w < w,
                0 <= qc < h,
                w >= 1,
        ;
        if c <= u {
            lemma_spread_row(w, h, cells, c, u);
        } else {
            lemma_spread_back(w, h, cells, c, u);
        }
        if u <= v {
            lemma_spread_column(w, h, cells, u, v);
        } else {
            lemma_spread_back(w, h, cells, u, v);
        }
    }
}

impl MazeGrid {
    /// A random unvisited neighbour of the current cell, or `None` at a dead end.
    pub fn find_next_cell(&self, rng: &mut RandomNumberGenerator) -> (r: Option<usize>)
        requires
            self.wf(),
        ensures
            match r {
                Some(c) => c < self.cells@.len() && !self.cells@[c as int].visited && exists|k: int|
                    0 <= k < 4 && #[trigger] maze_nb(self.width as int, self.height as int, self.current as int, k)
                        == c as int,
                None => forall|k: int|
                    0 <= k < 4 && #[trigger] maze_nb(self.width as int, self.height as int, self.current as int, k) >= 0
                        ==> self.cells@[maze_nb(self.width as int, self.height as int, self.current as int, k)].visited,
            },
    {
        let neighbors = self.get_available_neighbors();
        if neighbors.len() == 0 {
            return None;
        }
        if neighbors.len() == 1 {
            return Some(neighbors[0]);
        }
        let pick = (roll_die(rng, neighbors.len() as i32) - 1) as usize;
        Some(neighbors[pick])
    }

    /// Marks cell `i` visited, keeping its place and walls.
    fn mark_visited(&mut self, i: usize)
        requires
            old(self).wf(),
            i < old(self).cells@.len(),
        ensures
            final(self).wf(),
            final(self).width == old(self).width,
            final(self).height == old(self).height,
            final(self).current == old(self).current,
            final(self).backtrace == old(self).backtrace,
            unvisited(final(self).cells@) <= unvisited(old(self).cells@),
            old(self).cells@[i as int].visited ==> unvisited(final(self).cells@) == unvisited(old(self).cells@),
            !old(self).cells@[i as int].visited ==> unvisited(final(self).cells@) + 1 == unvisited(old(self).cells@),
            forall|k: int| 0 <= k < final(self).cells@.len() && k != i ==> #[trigger] final(self).cells@[k] == old(self).cells@[k],
            final(self).cells@[i as int] == (Cell { visited: true, ..old(self).cells@[i as int] }),
    {
        let mut c = self.cells[i];
        c.visited = true;
        proof {
            lemma_unvisited_update(self.cells@, i as int, c);
        }
        self.cells.set(i, c);
    }

    /// Carves the maze: from the current cell, repeatedly steps to a random unvisited
    /// neighbour (removing the wall between, remembering the way back) or, at a dead
    /// end, steps back; ends when there is no way back left.
    #[verifier::rlimit(100)]
    pub fn generate_maze(&mut self, map: &mut Grid, rng: &mut RandomNumberGenerator)
        requires
            old(self).wf(),
            old(self).width <= 38,
            old(self).height <= 19,
            old(map).wf(),
            forall|v: int| 0 <= v < old(self).cells@.len() ==> !#[trigger] old(self).cells@[v].visited,
            border_walls(old(self).width as int, old(self).height as int, old(self).cells@),
            walls_symmetric(old(self).width as int, old(self).height as int, old(self).cells@),
            old(self).backtrace@.len() == 0,
            forall|v: int|
                0 <= v < old(self).cells@.len() ==> (#[trigger] old(self).cells@[v]).top && old(self).cells@[v].right
                    && old(self).cells@[v].bottom && old(self).cells@[v].left,
        ensures
            passages(
                old(self).width as int,
                old(self).height as int,
                final(self).cells@,
                old(self).width * old(self).height,
            ) == final(self).cells@.len() - 1,
            border_walls(final(self).width as int, final(self).height as int, final(self).cells@),
            walls_symmetric(final(self).width as int, final(self).height as int, final(self).cells@),
            final(self).backtrace@.len() == 0,
            final(self).wf(),
            final(self).width == old(self).width,
            final(self).height == old(self).height,
            final(map).wf(),
            final(map).depth == old(map).depth,
            forall|v: int| 0 <= v < final(self).cells@.len() ==> #[trigger] final(self).cells@[v].visited,
            forall|v: int|
                0 <= v < final(self).cells@.len() ==> #[trigger] joined(
                    old(self).width as int,
                    old(self).height as int,
                    final(self).cells@,
                    old(self).current as int,
                    v,
                ),
            forall|i: int|
                #![trigger final(map).tiles@[i]]
                0 <= i < MAP_COUNT ==> final(map).tiles@[i] == if maze_covers(
                    final(self).cells@,
                    final(self).cells@.len() as int,
                    i,
                ) {
                    TileType::Floor
                } else {
                    TileType::Wall
                },
    {
        let mut since_snapshot: u32 = 0;
        let ghost w = self.width as int;
        let ghost h = self.height as int;
        let ghost s0 = self.current as int;
        proof {
            lemma_unvisited_extremes(self.cells@);
            lemma_no_passages(w, h, self.cells@, w * h);
            assert forall|v: int, k: int|
                0 <= v < self.cells@.len() && 0 <= k < 4 && #[trigger] self.cells@[v].visited && v
                    != self.current as int && !self.backtrace@.contains(v as usize) && #[trigger] maze_nb(w, h, v, k)
                    >= 0 implies self.cells@[maze_nb(w, h, v, k)].visited by {
                assert(self.cells@[v].visited);
            }
        }
        loop
            invariant
                self.wf(),
                self.width == old(self).width,
                self.height == old(self).height,
                w == self.width,
                h == self.height,
                self.width <= 38,
                self.height <= 19,
                map.wf(),
                map.depth == old(map).depth,
                since_snapshot < 50,
                dfs_closed(w, h, self.cells@, self.current as int, self.backtrace@),
                border_walls(w, h, self.cells@),
                walls_symmetric(w, h, self.cells@),
                self.current as int == s0 || self.cells@[self.current as int].visited,
                forall|j: int| 0 <= j < self.backtrace@.len() ==> self.cells@[#[trigger] self.backtrace@[j] as int].visited,
                forall|v: int| 0 <= v < self.cells@.len() && #[trigger] self.cells@[v].visited ==> joined(w, h, self.cells@, s0, v),
                0 <= s0 < self.cells@.len(),
                count_ok(w, h, self.cells@),
                unvisited_walled(self.cells@),
                !self.cells@[self.current as int].visited ==> unvisited(self.cells@) == self.cells@.len(),
            ensures
                passages(w, h, self.cells@, w * h) == self.cells@.len() - 1,
                border_walls(w, h, self.cells@),
                walls_symmetric(w, h, self.cells@),
                forall|v: int| 0 <= v < self.cells@.len() ==> #[trigger] joined(w, h, self.cells@, s0, v),
                self.backtrace@.len() == 0,
                self.wf(),
                self.width == old(self).width,
                self.height == old(self).height,
                map.wf(),
                map.depth == old(map).depth,
                forall|v: int| 0 <= v < self.cells@.len() ==> #[trigger] self.cells@[v].visited,
            decreases 2 * unvisited(self.cells@) + self.backtrace@.len(),
        {
            let cur = self.current;
            let ghost c0 = self.cells@;
            self.mark_visited(cur);
            proof {
                assert forall|i: int| 0 <= i < c0.len() implies (#[trigger] self.cells@[i]).top == c0[i].top
                    && self.cells@[i].right == c0[i].right && self.cells@[i].bottom == c0[i].bottom
                    && self.cells@[i].left == c0[i].left by {
                    if i != cur as int {
                        assert(self.cells@[i] == c0[i]);
                    }
                }
                lemma_same_walls_symmetric(w, h, c0, self.cells@);
                assert(self.cells@ =~= c0.update(cur as int, Cell { visited: true, ..c0[cur as int] }));
                assert(c0.len() == w * h);
                lemma_marking_keeps_passages(w, h, c0, cur as int);
                lemma_passages_nonneg(w, h, c0, w * h);
                lemma_unvisited_full(c0);
                assert(passages(w, h, self.cells@, w * h) + unvisited(self.cells@) + 1 == self.cells@.len());
                assert(unvisited_walled(self.cells@));
                assert forall|i: int| 0 <= i < c0.len() implies opened_from(#[trigger] c0[i], self.cells@[i]) by {
                    if i != cur as int {
                        assert(self.cells@[i] == c0[i]);
                    }
                }
                assert forall|v: int| 0 <= v < self.cells@.len() && #[trigger] self.cells@[v].visited implies joined(w, h, self.cells@, s0, v) by {
                    if v == cur as int && cur as int == s0 {
                        let p = seq![s0];
                        assert(is_passage_path(w, h, self.cells@, p));
                        assert(p[0] == s0 && p.last() == v);
                    } else {
                        if v != cur as int {
                            assert(self.cells@[v] == c0[v]);
                        }
                        assert(c0[v].visited);
                        lemma_joined_after_opening(w, h, c0, self.cells@, s0, v);
                    }
                }
                assert forall|j: int| 0 <= j < self.backtrace@.len() implies self.cells@[#[trigger] self.backtrace@[j] as int].visited by {
                    if self.backtrace@[j] as int != cur as int {
                        assert(self.cells@[self.backtrace@[j] as int] == c0[self.backtrace@[j] as int]);
                    }
                }
                assert forall|v: int, k: int|
                    0 <= v < self.cells@.len() && 0 <= k < 4 && #[trigger] self.cells@[v].visited && v
                        != cur as int && !self.backtrace@.contains(v as usize) && #[trigger] maze_nb(w, h, v, k)
                        >= 0 implies self.cells@[maze_nb(w, h, v, k)].visited by {
                    lemma_nb_in_range(w, h, v, k);
                    assert(c0[v].visited);
                    assert(c0[maze_nb(w, h, v, k)].visited);
                    if maze_nb(w, h, v, k) != cur as int {
                        assert(self.cells@[maze_nb(w, h, v, k)] == c0[maze_nb(w, h, v, k)]);
                    }
                }
            }
            let next = self.find_next_cell(rng);
            match next {
                Some(next) => {
                    let ghost c1 = self.cells@;
                    let ghost b1 = self.backtrace@;
                    self.mark_visited(next);
                    self.backtrace.push(cur);
                    let mut a = self.cells[cur];
                    let mut b = self.cells[next];
                    let ghost a0 = a;
                    let ghost b0 = b;
                    let ghost c2 = self.cells@;
                    proof {
                        assert(c2 =~= c1.update(next as int, Cell { visited: true, ..c1[next as int] }));
                        assert(c1.len() == w * h);
                        lemma_marking_keeps_passages(w, h, c1, next as int);
                        assert(!c1[next as int].visited);
                        assert(c2[next as int].top && c2[next as int].right && c2[next as int].bottom && c2[next as int].left);
                        assert forall|i: int| 0 <= i < c1.len() implies (#[trigger] c2[i]).top == c1[i].top
                            && c2[i].right == c1[i].right && c2[i].bottom == c1[i].bottom && c2[i].left
                            == c1[i].left by {
                            if i != next as int {
                                assert(c2[i] == c1[i]);
                            }
                        }
                        lemma_same_walls_symmetric(w, h, c1, c2);
                        lemma_cell_coords(self, cur as int);
                        lemma_cell_coords(self, next as int);
                        assert forall|i: int| 0 <= i < self.cells@.len() implies cell_border_ok(w, h, #[trigger] self.cells@[i]) by {
                            if i != cur as int && i != next as int {
                                assert(self.cells@[i] == c1[i]);
                            } else if i == cur as int {
                                assert(cell_border_ok(w, h, c1[i]));
                            } else {
                                assert(cell_border_ok(w, h, c1[i]));
                            }
                        }
                    }
                    a.remove_walls(&mut b);
                    proof {
                        let kk = choose|kk: int| 0 <= kk < 4 && #[trigger] maze_nb(w, h, cur as int, kk) == next as int;
                        lemma_removal_keeps_border(w, h, cur as int, kk, a0, b0, a, b);
                    }
                    proof {
                        lemma_unvisited_update(self.cells@, cur as int, a);
                    }
                    self.cells.set(cur, a);
                    proof {
                        lemma_unvisited_update(self.cells@, next as int, b);
                    }
                    self.cells.set(next, b);
                    self.current = next;
                    proof {
                        let kk = choose|kk: int| 0 <= kk < 4 && #[trigger] maze_nb(w, h, cur as int, kk) == next as int;
                        assert forall|i: int| 0 <= i < c2.len() implies #[trigger] c2[i].column == i % w && c2[i].row == i / w by {
                            lemma_cell_coords(self, i);
                        }
                        lemma_removal_keeps_symmetry(w, h, c2, cur as int, kk, a, b);
                        assert(self.cells@ =~= c2.update(cur as int, a).update(next as int, b));
                        lemma_removal_sides(w, h, cur as int, kk, a0, b0, a, b);
                        lemma_opening_adds_passage(w, h, c2, cur as int, kk, a, b);
                        lemma_unvisited_update(c2, cur as int, a);
                        lemma_unvisited_update(c2.update(cur as int, a), next as int, b);
                        assert(count_ok(w, h, self.cells@));
                        assert forall|v: int|
                            0 <= v < self.cells@.len() && !(#[trigger] self.cells@[v]).visited implies self.cells@[v].top
                                && self.cells@[v].right && self.cells@[v].bottom && self.cells@[v].left by {
                            assert(self.cells@[v] == c1[v]);
                        }
                        assert forall|i: int| 0 <= i < c1.len() implies opened_from(#[trigger] c1[i], self.cells@[i]) by {
                            if i != cur as int && i != next as int {
                                assert(self.cells@[i] == c1[i]);
                            }
                        }
                        assert(side_open(self.cells@[cur as int], kk));
                        assert(linked(w, h, self.cells@, cur as int, next as int));
                        assert forall|v: int| 0 <= v < self.cells@.len() && #[trigger] self.cells@[v].visited implies joined(w, h, self.cells@, s0, v) by {
                            if v == next as int {
                                assert(c1[cur as int].visited);
                                lemma_joined_after_opening(w, h, c1, self.cells@, s0, cur as int);
                                let p = choose|p: Seq<int>| #[trigger] is_passage_path(w, h, self.cells@, p) && p[0] == s0 && p.last() == cur as int;
                                let q = p.push(v);
                                assert forall|k: int| 0 <= k < q.len() - 1 implies linked(w, h, self.cells@, q[k], #[trigger] q[k + 1]) by {
                                    if k < p.len() - 1 {
                                        assert(q[k] == p[k] && q[k + 1] == p[k + 1]);
                                    }
                                }
                                assert(is_passage_path(w, h, self.cells@, q));
                                assert(q[0] == s0 && q.last() == v);
                            } else {
                                if v != cur as int {
                                    assert(self.cells@[v] == c1[v]);
                                }
                                assert(c1[v].visited);
                                lemma_joined_after_opening(w, h, c1, self.cells@, s0, v);
                            }
                        }
                        assert forall|j: int| 0 <= j < self.backtrace@.len() implies self.cells@[#[trigger] self.backtrace@[j] as int].visited by {
                            if j < b1.len() {
                                assert(self.backtrace@[j] == b1[j]);
                            }
                        }
                        assert forall|i: int| 0 <= i < self.cells@.len() implies cell_border_ok(w, h, #[trigger] self.cells@[i]) by {
                            if i != cur as int && i != next as int {
                                assert(self.cells@[i] == c1[i]);
                            }
                        }
                        assert forall|v: int|
                            0 <= v < self.cells@.len() implies #[trigger] self.cells@[v].visited == (c1[v].visited
                                || v == next as int) by {
                            if v != cur as int && v != next as int {
                                assert(self.cells@[v] == c1[v]);
                            }
                        }
                        assert forall|v: int, k: int|
                            0 <= v < self.cells@.len() && 0 <= k < 4 && #[trigger] self.cells@[v].visited && v
                                != self.current as int && !self.backtrace@.contains(v as usize) && #[trigger] maze_nb(
                                w,
                                h,
                                v,
                                k,
                            ) >= 0 implies self.cells@[maze_nb(w, h, v, k)].visited by {
                            assert(self.backtrace@ == b1.push(cur));
                            if b1.contains(v as usize) {
                                let a = choose|a: int| 0 <= a < b1.len() && b1[a] == v as usize;
                                assert(self.backtrace@[a] == v as usize);
                            }
                            if v == cur as int {
                                assert(self.backtrace@[b1.len() as int] == cur);
                            }
                            assert(c1[v].visited);
                            lemma_nb_in_range(w, h, v, k);
                            assert(c1[maze_nb(w, h, v, k)].visited);
                        }
                    }
                },
                None => {
                    let ghost b1 = self.backtrace@;
                    let ghost c1 = self.cells@;
                    assert(forall|k: int|
                        0 <= k < 4 && #[trigger] maze_nb(w, h, cur as int, k) >= 0 ==> c1[maze_nb(w, h, cur as int, k)].visited);
                    match self.backtrace.pop() {
                        Some(back) => {
                            self.current = back;
                            proof {
                                assert(b1 == self.backtrace@.push(back));
                                assert forall|v: int, k: int|
                                    0 <= v < self.cells@.len() && 0 <= k < 4 && #[trigger] self.cells@[v].visited && v
                                        != self.current as int && !self.backtrace@.contains(v as usize)
                                        && #[trigger] maze_nb(w, h, v, k) >= 0 implies self.cells@[maze_nb(w, h, v, k)].visited by {
                                    lemma_nb_in_range(w, h, v, k);
                                    if v == cur as int {
                                        assert(maze_nb(w, h, cur as int, k) >= 0);
                                    } else {
                                        if b1.contains(v as usize) {
                                            let a = choose|a: int| 0 <= a < b1.len() && b1[a] == v as usize;
                                            if a < self.backtrace@.len() {
                                                assert(self.backtrace@[a] == v as usize);
                                            } else {
                                                assert(b1[a] == back);
                                                assert(self.cells@.len() <= 722) by (nonlinear_arith)
                                                    requires
                                                        self.cells@.len() == self.width * self.height,
                                                        1 <= self.width <= 38,
                                                        1 <= self.height <= 19,
                                                ;
                                                assert((v as usize) as int == v);
                                                assert(v == back as int);
                                            }
                                        }
                                        assert(!b1.contains(v as usize));
                                    }
                                }
                            }
                        },
                        None => {
                            proof {
                                assert forall|v: int, k: int|
                                    #![trigger self.cells@[v], maze_nb(w, h, v, k)]
                                    0 <= v < self.cells@.len() && 0 <= k < 4 && self.cells@[v].visited
                                        && maze_nb(w, h, v, k) >= 0 implies self.cells@[maze_nb(w, h, v, k)].visited by {
                                    lemma_nb_in_range(w, h, v, k);
                                    if v != cur as int {
                                        assert(!self.backtrace@.contains(v as usize));
                                    }
                                }
                                assert(self.cells@.len() == w * h);
                                lemma_all_visited(w, h, self.cells@, cur as int);
                                lemma_unvisited_extremes(self.cells@);
                                assert forall|v: int| 0 <= v < self.cells@.len() implies #[trigger] joined(w, h, self.cells@, s0, v) by {
                                    assert(self.cells@[v].visited);
                                }
                            }
                            break;
                        },
                    }
                },
            }
            if since_snapshot == 0 && map.show_history {
                self.copy_to_map(map);
                map.take_snapshot();
            }
            since_snapshot = if since_snapshot == 49 { 0 } else { since_snapshot + 1 };
        }
        self.copy_to_map(map);
    }

    /// Renders the maze into the grid: each cell at column `2 * (column + 1)`, row
    /// `2 * (row + 1)`, with floor through each wall it has lost.
    pub fn copy_to_map(&self, map: &mut Grid)
        requires
            self.wf(),
            self.width <= 38,
            self.height <= 19,
            old(map).wf(),
        ensures
            crate::common::keeps_all_but_tiles(old(map), final(map)),
            forall|i: int|
                #![trigger final(map).tiles@[i]]
                0 <= i < MAP_COUNT ==> final(map).tiles@[i] == if maze_covers(self.cells@, self.cells@.len() as int, i) {
                    TileType::Floor
                } else {
                    TileType::Wall
                },
    {
        let mut i: usize = 0;
        while i < MAP_COUNT
            invariant
                crate::common::keeps_all_but_tiles(old(map), map),
                0 <= i <= MAP_COUNT,
                forall|j: int| 0 <= j < i ==> #[trigger] map.tiles@[j] == TileType::Wall,
            decreases MAP_COUNT - i,
        {
            map.tiles.set(i, TileType::Wall);
            i = i + 1;
        }
        let mut k: usize = 0;
        while k < self.cells.len()
            invariant
                self.wf(),
                self.width <= 38,
                self.height <= 19,
                crate::common::keeps_all_but_tiles(old(map), map),
                0 <= k <= self.cells@.len(),
                forall|j: int|
                    #![trigger map.tiles@[j]]
                    0 <= j < MAP_COUNT ==> map.tiles@[j] == if maze_covers(self.cells@, k as int, j) {
                        TileType::Floor
                    } else {
                        TileType::Wall
                    },
            decreases self.cells@.len() - k,
        {
            let ghost before = map.tiles@;
            let cell = self.cells[k];
            proof {
                lemma_cell_coords(self, k as int);
            }
            let x = (cell.column + 1) * 2;
            let y = (cell.row + 1) * 2;
            let idx = (y as usize) * 80 + (x as usize);
            map.tiles.set(idx, TileType::Floor);
            if !cell.top {
                map.tiles.set(idx - 80, TileType::Floor);
            }
            if !cell.right {
                map.tiles.set(idx + 1, TileType::Floor);
            }
            if !cell.bottom {
                map.tiles.set(idx + 80, TileType::Floor);
            }
            if !cell.left {
                map.tiles.set(idx - 1, TileType::Floor);
            }
            proof {
                assert(idx as int == cell_pos(cell));
                assert forall|j: int|
                    #![trigger map.tiles@[j]]
                    0 <= j < MAP_COUNT implies map.tiles@[j] == if maze_covers(self.cells@, k as int + 1, j) {
                        TileType::Floor
                    } else {
                        TileType::Wall
                    } by {
                    if renders_floor(cell, j) {
                        assert(renders_floor(self.cells@[k as int], j));
                    } else {
                        assert(map.tiles@[j] == before[j]);
                        if maze_covers(self.cells@, k as int + 1, j) {
                            let k2 = choose|k2: int| 0 <= k2 < k + 1 && #[trigger] renders_floor(self.cells@[k2], j);
                            assert(k2 != k);
                        }
                    }
                }
            }
            k = k + 1;
        }
    }
}

/// The tiles that drawing these maze cells gives: floor where some cell makes it so.
pub open spec fn maze_tiles(cells: Seq<Cell>) -> Seq<TileType> {
    Seq::new(
        MAP_COUNT as nat,
        |i: int|
            if maze_covers(cells, cells.len() as int, i) {
                TileType::Floor
            } else {
                TileType::Wall
            },
    )
}

/// A cell of a 38 by 19 maze that keeps its edge walls draws floor only within
/// columns `2..=76` and rows `2..=38`.
proof fn lemma_render_bounds(c: Cell, i: int)
    requires
        0 <= c.column < 38,
        0 <= c.row < 19,
        cell_border_ok(38, 19, c),
        renders_floor(c, i),
    ensures
        0 <= i < MAP_COUNT,
        2 <= col_of(i) <= 76,
        2 <= row_of(i) <= 38,
{
    let x = 2 * (c.column + 1);
    let y = 2 * (c.row + 1);
    if i == cell_pos(c) {
        crate::connectivity::lemma_idx_coords(x, y);
    } else if !c.top && i == cell_pos(c) - 80 {
        assert(i == idx_of(x, y - 1));
        crate::connectivity::lemma_idx_coords(x, y - 1);
    } else if !c.right && i == cell_pos(c) + 1 {
        assert(i == idx_of(x + 1, y));
        crate::connectivity::lemma_idx_coords(x + 1, y);
    } else if !c.bottom && i == cell_pos(c) + 80 {
        assert(i == idx_of(x, y + 1));
        crate::connectivity::lemma_idx_coords(x, y + 1);
    } else {
        assert(i == idx_of(x - 1, y));
        crate::connectivity::lemma_idx_coords(x - 1, y);
    }
}

/// Builds a maze level.
pub struct MazeBuilder {
    pub map: Grid,
}

impl MazeBuilder {
    /// A builder for the given depth.
    pub fn new(new_depth: i32) -> (r: MazeBuilder)
        ensures
            r.map.wf(),
            r.map.depth == new_depth,
    {
        MazeBuilder { map: Grid::new(new_depth) }
    }

    /// Carves a maze of 38 by 19 cells, enters at its first cell (column 2, row 2),
    /// finishes the level and groups its floor by noise key.
    pub fn build(self, rng: &mut RandomNumberGenerator, noise_keys: &Vec<i32>) -> (r: Grid)
        requires
            self.map.wf(),
            noise_keys@.len() == MAP_COUNT,
        ensures
            is_playable(&r),
            regions_partition_floor(r.tiles@, r.regions@),
            r.depth == self.map.depth,
            r.upstairs == (2i32, 2i32),
            forall|i: int|
                #![trigger r.tiles@[i]]
                0 <= i < MAP_COUNT && r.tiles@[i] != TileType::Wall ==> 2 <= col_of(i) <= 76 && 2 <= row_of(i) <= 38,
            exists|cells: Seq<Cell>, d: Seq<u32>|
                #![trigger maze_tiles(cells), is_distance_map(prepared(maze_tiles(cells), idx_of(2, 2)), idx_of(2, 2), d)]
                {
                    let m = prepared(maze_tiles(cells), idx_of(2, 2));
                    &&& cells.len() == 38 * 19
                    &&& forall|v: int| 0 <= v < cells.len() ==> #[trigger] cells[v].visited
                    &&& border_walls(38, 19, cells)
                    &&& walls_symmetric(38, 19, cells)
                    &&& forall|v: int| 0 <= v < cells.len() ==> #[trigger] joined(38, 19, cells, 0, v)
                    &&& passages(38, 19, cells, 722int) == 721
                    &&& is_distance_map(m, idx_of(2, 2), d)
                    &&& (exists|i: int| #[trigger] exit_candidate(m, d, i)) ==> forall|e: int|
                        #[trigger] is_most_distant(m, d, e) ==> r.tiles@[e] == TileType::DownStairs
                },
    {
        let mut map = self.map;
        let mut maze = MazeGrid::new(MAP_WIDTH / 2 - 2, MAP_HEIGHT / 2 - 2);
        maze.generate_maze(&mut map, rng);
        map.take_snapshot();
        let ghost drawn = map.tiles@;
        assert(drawn =~= maze_tiles(maze.cells@));
        finalize_level(&mut map, 2, 2, None);
        proof {
            assert forall|i: int|
                #![trigger map.tiles@[i]]
                0 <= i < MAP_COUNT && map.tiles@[i] != TileType::Wall implies 2 <= col_of(i) <= 76 && 2 <= row_of(i) <= 38 by {
                let pr = prepared(drawn, idx_of(2, 2));
                assert(pr[i] == prepared_tile(drawn, idx_of(2, 2), i));
                if i == idx_of(2, 2) {
                    crate::connectivity::lemma_idx_coords(2, 2);
                } else if i == fallback_exit(2, 2) {
                    crate::connectivity::lemma_idx_coords(3, 2);
                } else {
                    assert(maze_covers(maze.cells@, maze.cells@.len() as int, i));
                    let k = choose|k: int| 0 <= k < maze.cells@.len() && #[trigger] renders_floor(maze.cells@[k], i);
                    lemma_cell_coords(&maze, k);
                    assert(cell_border_ok(38, 19, maze.cells@[k]));
                    lemma_render_bounds(maze.cells@[k], i);
                }
            }
        }
        map.take_snapshot();
        map.regions = generate_voronoi_spawn_regions(&map, noise_keys);
        map
    }
}

} // verus!
