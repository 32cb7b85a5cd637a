//! The plain kernel with the window of every cell cut to the grid first:
//! the neighbours are counted over the rows and columns that exist, so no
//! cell outside the grid is ever asked for.

use crate::life::{
    is_rect, lemma_window_is_neighbors, next_cell, row_count, rows, run, step, width_of,
    window_count,
};
use vstd::prelude::*;

verus! {

/// The generation after `current`.
pub fn compute_next_generation(current: &Vec<Vec<bool>>) -> (next: Vec<Vec<bool>>)
    requires
        is_rect(rows(current@)),
    ensures
        rows(next@) == step(rows(current@)),
{
    let height: usize = current.len();
    let width: usize = if height > 0 {
        current[0].len()
    } else {
        0
    };
    let ghost g = rows(current@);
    assert forall|r: int| 0 <= r < height implies (#[trigger] current@[r]).len() == width by {
        assert(g[r].len() == g[0].len());
    }
    let mut next: Vec<Vec<bool>> = Vec::new();
    let mut y: usize = 0;
    while y < height
        invariant
            y <= height,
            height == current.len(),
            g == rows(current@),
            is_rect(g),
            width == width_of(g),
            forall|r: int| 0 <= r < height ==> (#[trigger] current@[r]).len() == width,
            next.len() == y,
            forall|r: int| 0 <= r < y ==> (#[trigger] next@[r])@ == step(g)[r],
        decreases height - y,
    {
        let y_start: usize = if y == 0 {
            0
        } else {
            y - 1
        };
        let y_end: usize = if y + 1 < height {
            y + 1
        } else {
            height - 1
        };
        let mut cells: Vec<bool> = Vec::new();
        let mut x: usize = 0;
        while x < width
            invariant
                x <= width,
                y < height,
                y_start == if y == 0 {
                    0
                } else {
                    y - 1
                },
                y_end + 1 == if y + 1 < height {
                    y + 2
                } else {
                    height as int
                },
                height == current.len(),
                g == rows(current@),
                is_rect(g),
                width == width_of(g),
                forall|r: int| 0 <= r < height ==> (#[trigger] current@[r]).len() == width,
                cells.len() == x,
                forall|c: int| 0 <= c < x ==> #[trigger] cells@[c] == next_cell(g, y as int, c),
            decreases width - x,
        {
            let x_start: usize = if x == 0 {
                0
            } else {
                x - 1
            };
            let x_end: usize = if x + 1 < width {
                x + 1
            } else {
                width - 1
            };
            let mut live_neighbors: usize = 0;
            let mut ny: usize = y_start;
            while ny <= y_end
                invariant
                    y_start <= ny <= y_end + 1,
                    y_end < height,
                    y_end - y_start <= 2,
                    x_start <= x_end < width,
                    x_end - x_start <= 2,
                    height == current.len(),
                    g == rows(current@),
                    forall|r: int| 0 <= r < height ==> (#[trigger] current@[r]).len() == width,
                    live_neighbors <= 3 * (ny - y_start),
                    live_neighbors == window_count(
                        g,
                        y as int,
                        x as int,
                        y_start as int,
                        ny as int,
                        x_start as int,
                        x_end + 1,
                    ),
                decreases y_end + 1 - ny,
            {
                let ghost above = live_neighbors;
                let mut nx: usize = x_start;
                while nx <= x_end
                    invariant
                        y_start <= ny <= y_end,
                        y_end < height,
                        x_start <= nx <= x_end + 1,
                        x_end < width,
                        x_end - x_start <= 2,
                        height == current.len(),
                        g == rows(current@),
                        forall|r: int|
                            0 <= r < height ==> (#[trigger] current@[r]).len() == width,
                        above <= 3 * (ny - y_start),
                        y_end - y_start <= 2,
                        live_neighbors == above + row_count(
                            g,
                            y as int,
                            x as int,
                            ny as int,
                            x_start as int,
                            nx as int,
                        ),
                        live_neighbors <= above + (nx - x_start),
                    decreases x_end + 1 - nx,
                {
                    if (ny != y || nx != x) && current[ny][nx] {
                        live_neighbors = live_neighbors + 1;
                    }
                    nx = nx + 1;
                }
                ny = ny + 1;
            }
            proof {
                lemma_window_is_neighbors(g, y as int, x as int);
            }
            let was_alive: bool = current[y][x];
            let state: bool = if was_alive {
                live_neighbors == 2 || live_neighbors == 3
            } else {
                live_neighbors == 3
            };
            cells.push(state);
            x = x + 1;
        }
        assert(cells@ =~= step(g)[y as int]);
        next.push(cells);
        y = y + 1;
    }
    assert(rows(next@) =~= step(g));
    next
}

/// The grid after `iterations` generations.
pub fn gol_one(grid: Vec<Vec<bool>>, iterations: usize) -> (out: Vec<Vec<bool>>)
    requires
        is_rect(rows(grid@)),
    ensures
        rows(out@) == run(rows(grid@), iterations as nat),
        iterations == 0 ==> out@ == grid@,
{
    let ghost start = rows(grid@);
    let ghost given = grid@;
    let mut grid = grid;
    let mut done: usize = 0;
    while done < iterations
        invariant
            done <= iterations,
            is_rect(rows(grid@)),
            rows(grid@) == run(start, done as nat),
            done == 0 ==> grid@ == given,
        decreases iterations - done,
    {
        proof {
            crate::life::lemma_step_shape(rows(grid@));
        }
        grid = compute_next_generation(&grid);
        done = done + 1;
    }
    grid
}

} // verus!
