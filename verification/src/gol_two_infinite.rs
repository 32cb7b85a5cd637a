//! The border-padded kernel on a square grid that grows when live cells come
//! near its edge.

use crate::life::step;
use crate::padded::{binary, flat_cells, flat_of, PaddedBuffer};
use crate::utils::infinite_grid::{
    extend_with_margin, fits, grow_run, grow_step, lemma_grow_step_shape, lemma_grown_size,
    lemma_growth_keeps_content, run_fits, MARGIN,
};
use vstd::prelude::*;

verus! {

/// The square flat grid `curr` of side `width`, one generation later.
pub fn gol_two_step(curr: Vec<u8>, width: usize) -> (out: Vec<u8>)
    requires
        binary(curr@),
        width * width <= curr.len(),
        (width + 2) * (width + 2) <= usize::MAX,
    ensures
        out@ == flat_of(
            step(flat_cells(curr@, width as int, width as int)),
            width as int,
            width as int,
            curr@,
        ),
{
    let padded_curr: PaddedBuffer = PaddedBuffer::from_interior(&curr, width, width);
    let mut padded_next: PaddedBuffer = PaddedBuffer::new(width, width);
    padded_curr.step_into(&mut padded_next);
    let mut out: Vec<u8> = curr;
    padded_next.copy_interior_to(&mut out);
    out
}

/// The square flat grid of side `width` after `iterations` generations, and
/// the side it has then. Before every generation the grid grows if a live
/// cell is within `margin` cells of its edge.
pub fn gol_two_infinite_with_margin(
    grid: Vec<u8>,
    width: usize,
    iterations: usize,
    margin: usize,
) -> (out: (Vec<u8>, usize))
    requires
        width % 64 == 0,
        grid.len() == width * width,
        binary(grid@),
        run_fits(grid@, width as int, margin as int, iterations as nat),
    ensures
        (out.0@, out.1 as int) == grow_run(
            grid@,
            width as int,
            margin as int,
            iterations as nat,
        ),
        out.1 >= width,
        out.1 % 64 == 0,
        iterations == 0 ==> out.0@ == grid@ && out.1 == width,
{
    let ghost grid0 = grid@;
    let ghost width0 = width as int;
    let mut grid = grid;
    let mut width = width;
    let mut aux: Vec<u8> = Vec::with_capacity(width * width);
    let mut done: usize = 0;
    while done < iterations
        invariant
            done <= iterations,
            run_fits(grid0, width0, margin as int, iterations as nat),
            width0 <= width <= width0 + 64 * done,
            width % 64 == 0,
            grid.len() == width * width,
            binary(grid@),
            (grid@, width as int) == grow_run(grid0, width0, margin as int, done as nat),
            done == 0 ==> grid@ == grid0 && width == width0,
        decreases iterations - done,
    {
        proof {
            lemma_grow_step_shape(grid@, width as int, margin as int);
            lemma_growth_keeps_content(grid@, width as int, 0, 0);
            lemma_grown_size(width as int);
            let after = grow_run(grid0, width0, margin as int, (done + 1) as nat);
            assert(after == grow_step((grid@, width as int), margin as int));
            assert(fits(after.1));
            let w = after.1;
            assert(w * w <= (w + 2) * (w + 2)) by (nonlinear_arith)
                requires
                    0 <= w,
            ;
        }
        let new_w: usize = extend_with_margin(&grid, width, margin, &mut aux);
        if new_w != width {
            std::mem::swap(&mut aux, &mut grid);
            width = new_w;
        }
        grid = gol_two_step(grid, width);
        done = done + 1;
    }
    (grid, width)
}

/// The square flat grid of side `width` after `iterations` generations, and
/// the side it has then. Before every generation the grid grows if a live
/// cell is within five cells of its edge.
pub fn gol_two_infinite(grid: Vec<u8>, width: usize, iterations: usize) -> (out: (Vec<u8>, usize))
    requires
        width % 64 == 0,
        grid.len() == width * width,
        binary(grid@),
        run_fits(grid@, width as int, MARGIN as int, iterations as nat),
    ensures
        (out.0@, out.1 as int) == grow_run(
            grid@,
            width as int,
            MARGIN as int,
            iterations as nat,
        ),
        out.1 >= width,
        out.1 % 64 == 0,
        iterations == 0 ==> out.0@ == grid@ && out.1 == width,
{
    gol_two_infinite_with_margin(grid, width, iterations, MARGIN)
}

} // verus!
