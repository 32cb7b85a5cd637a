//! The plain kernel: every cell asks each of its eight neighbours in turn
//! whether it lies inside the grid and is alive. The other kernels are
//! measured against this one.

use crate::life::{alive, is_rect, live_neighbors, next_cell, rows, run, step, width_of};
use vstd::prelude::*;

verus! {

/// One cell of a grid, with what is needed to look at the cells around it.
pub struct CellContext<'a> {
    /// The grid that the cell belongs to.
    pub grid: &'a Vec<Vec<bool>>,
    /// Row of the cell.
    pub row: usize,
    /// Column of the cell.
    pub col: usize,
    /// Rows of the grid.
    pub height: usize,
    /// Columns of the grid.
    pub width: usize,
}

impl<'a> CellContext<'a> {
    /// The context names a cell of a grid of `height` rows of `width` cells.
    pub open spec fn wf(&self) -> bool {
        &&& self.height == self.grid.len()
        &&& forall|r: int| 0 <= r < self.height ==> (#[trigger] self.grid@[r]).len() == self.width
        &&& self.row < self.height
        &&& self.col < self.width
    }

    /// Whether the cell `dr` rows and `dc` columns away lies inside the
    /// grid.
    pub fn in_bounds(&self, dr: i32, dc: i32) -> (inside: bool)
        ensures
            inside == (0 <= self.row + dr < self.height && 0 <= self.col + dc < self.width),
    {
        let nr: i128 = self.row as i128 + dr as i128;
        let nc: i128 = self.col as i128 + dc as i128;
        (0 <= nr && nr < self.height as i128) && (0 <= nc && nc < self.width as i128)
    }

    /// Whether the cell `dr` rows and `dc` columns away lies inside the grid
    /// and is alive.
    pub fn is_alive(&self, dr: i32, dc: i32) -> (live: bool)
        requires
            self.wf(),
        ensures
            live == alive(rows(self.grid@), self.row + dr, self.col + dc),
    {
        if self.in_bounds(dr, dc) {
            let nr: usize = (self.row as i128 + dr as i128) as usize;
            let nc: usize = (self.col as i128 + dc as i128) as usize;
            self.grid[nr][nc]
        } else {
            false
        }
    }

    /// How many of the eight cells around this one are alive.
    pub fn count_live_neighbors(&self) -> (count: usize)
        requires
            self.wf(),
        ensures
            count == live_neighbors(rows(self.grid@), self.row as int, self.col as int),
    {
        let mut count: usize = 0;
        if self.is_alive(-1, -1) {
            count = count + 1;
        }
        if self.is_alive(-1, 0) {
            count = count + 1;
        }
        if self.is_alive(-1, 1) {
            count = count + 1;
        }
        if self.is_alive(0, -1) {
            count = count + 1;
        }
        if self.is_alive(0, 1) {
            count = count + 1;
        }
        if self.is_alive(1, -1) {
            count = count + 1;
        }
        if self.is_alive(1, 0) {
            count = count + 1;
        }
        if self.is_alive(1, 1) {
            count = count + 1;
        }
        count
    }

    /// The state of this cell one generation later.
    pub fn next_state(&self) -> (state: bool)
        requires
            self.wf(),
        ensures
            state == next_cell(rows(self.grid@), self.row as int, self.col as int),
    {
        let live_neighbors: usize = self.count_live_neighbors();
        let was_alive: bool = self.grid[self.row][self.col];
        if was_alive {
            live_neighbors == 2 || live_neighbors == 3
        } else {
            live_neighbors == 3
        }
    }
}

/// The generation after `current`.
pub fn compute_next_generation(current: &Vec<Vec<bool>>) -> (next: Vec<Vec<bool>>)
    requires
        is_rect(rows(current@)),
    ensures
        rows(next@) == step(rows(current@)),
{
    let height: usize = current.len();
    let width: usize = if height > 0 {
        current[0].len()
    } else {
        0
    };
    let ghost g = rows(current@);
    assert(width == width_of(g));
    assert forall|r: int| 0 <= r < height implies (#[trigger] current@[r]).len() == width by {
        assert(g[r].len() == g[0].len());
    }
    let mut next: Vec<Vec<bool>> = Vec::new();
    let mut row: usize = 0;
    while row < height
        invariant
            row <= height,
            height == current.len(),
            g == rows(current@),
            width == width_of(g),
            forall|r: int| 0 <= r < height ==> (#[trigger] current@[r]).len() == width,
            next.len() == row,
            forall|r: int| 0 <= r < row ==> (#[trigger] next@[r])@ == step(g)[r],
        decreases height - row,
    {
        let mut cells: Vec<bool> = Vec::new();
        let mut col: usize = 0;
        while col < width
            invariant
                col <= width,
                row < height,
                height == current.len(),
                g == rows(current@),
                width == width_of(g),
                forall|r: int| 0 <= r < height ==> (#[trigger] current@[r]).len() == width,
                cells.len() == col,
                forall|c: int| 0 <= c < col ==> #[trigger] cells@[c] == next_cell(g, row as int, c),
            decreases width - col,
        {
            let ctx: CellContext = CellContext { grid: current, row, col, height, width };
            cells.push(ctx.next_state());
            col = col + 1;
        }
        assert(cells@ =~= step(g)[row as int]);
        next.push(cells);
        row = row + 1;
    }
    assert(rows(next@) =~= step(g));
    next
}

/// The grid after `iterations` generations.
pub fn gol_zero(grid: Vec<Vec<bool>>, iterations: usize) -> (out: Vec<Vec<bool>>)
    requires
        is_rect(rows(grid@)),
    ensures
        rows(out@) == run(rows(grid@), iterations as nat),
        iterations == 0 ==> out@ == grid@,
{
    let ghost start = rows(grid@);
    let ghost given = grid@;
    let mut grid = grid;
    let mut done: usize = 0;
    while done < iterations
        invariant
            done <= iterations,
            is_rect(rows(grid@)),
            rows(grid@) == run(start, done as nat),
            done == 0 ==> grid@ == given,
        decreases iterations - done,
    {
        proof {
            crate::life::lemma_step_shape(rows(grid@));
        }
        grid = compute_next_generation(&grid);
        done = done + 1;
    }
    grid
}

} // verus!
