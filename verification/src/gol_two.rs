//! The border-padded flat-buffer kernel with two buffers: every generation
//! is read from one buffer and written to the other, and the two then change
//! places.

use crate::life::run;
use crate::padded::{
    binary, flat_cells, flat_run, lemma_flat_of_cells, lemma_rows_fit, PaddedBuffer,
};
use vstd::prelude::*;

verus! {

/// The flat grid `curr`, rows of `width` cells, after `iterations`
/// generations.
pub fn gol_two(curr: Vec<u8>, width: usize, iterations: usize) -> (out: Vec<u8>)
    requires
        width > 0,
        binary(curr@),
        (curr.len() / width + 2) * (width + 2) <= usize::MAX,
    ensures
        out@ == flat_run(curr@, width as int, iterations as nat),
        iterations == 0 ==> out@ == curr@,
{
    let mut curr = curr;
    let height: usize = curr.len() / width;
    let ghost given = curr@;
    let ghost start = flat_cells(given, height as int, width as int);
    proof {
        lemma_rows_fit(curr.len() as int, width as int);
    }
    let mut padded_curr: PaddedBuffer = PaddedBuffer::from_interior(&curr, width, height);
    let mut padded_next: PaddedBuffer = PaddedBuffer::new(width, height);
    let mut done: usize = 0;
    while done < iterations
        invariant
            done <= iterations,
            padded_curr.wf(),
            padded_next.wf(),
            padded_curr.width == width,
            padded_curr.height == height,
            padded_next.width == width,
            padded_next.height == height,
            padded_curr.grid() == run(start, done as nat),
        decreases iterations - done,
    {
        padded_curr.step_into(&mut padded_next);
        std::mem::swap(&mut padded_curr, &mut padded_next);
        done = done + 1;
    }
    padded_curr.copy_interior_to(&mut curr);
    proof {
        if iterations == 0 {
            lemma_flat_of_cells(given, height as int, width as int);
        }
    }
    curr
}

} // verus!
