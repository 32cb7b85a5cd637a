//! The bit-packed kernel, one row after the other.

use crate::bitboard::{
    cells, is_next_row, lemma_next_rows_are_step, next_row, well_formed, words, zero_row,
};
use crate::life::{run, step};
use vstd::prelude::*;

verus! {

/// The generation after `board`, a board of `width` cells per row.
pub fn compute_next_generation(board: &Vec<Vec<u64>>, width: usize) -> (next: Vec<Vec<u64>>)
    requires
        well_formed(words(board@), width as int),
    ensures
        next.len() == board.len(),
        well_formed(words(next@), width as int),
        cells(words(next@), width as int) == step(cells(words(board@), width as int)),
{
    let height: usize = board.len();
    let zeros: Vec<u64> = zero_row(width / 64);
    let mut next: Vec<Vec<u64>> = Vec::new();
    let mut r: usize = 0;
    while r < height
        invariant
            r <= height,
            height == board.len(),
            well_formed(words(board@), width as int),
            zeros@ == Seq::new((width / 64) as nat, |i: int| 0u64),
            next.len() == r,
            forall|k: int|
                0 <= k < r ==> is_next_row(words(board@), width as int, k, (#[trigger] next@[k])@),
        decreases height - r,
    {
        let row: Vec<u64> = next_row(board, width, &zeros, r);
        next.push(row);
        r = r + 1;
    }
    proof {
        lemma_next_rows_are_step(words(board@), width as int, words(next@));
    }
    next
}

/// The board after `iterations` generations.
pub fn gol_four(initial: Vec<Vec<u64>>, width: usize, iterations: usize) -> (board: Vec<Vec<u64>>)
    requires
        well_formed(words(initial@), width as int),
    ensures
        board.len() == initial.len(),
        well_formed(words(board@), width as int),
        cells(words(board@), width as int) == run(
            cells(words(initial@), width as int),
            iterations as nat,
        ),
        iterations == 0 ==> board == initial,
{
    let ghost start = cells(words(initial@), width as int);
    let mut board: Vec<Vec<u64>> = initial;
    let mut done: usize = 0;
    while done < iterations
        invariant
            done <= iterations,
            board.len() == initial.len(),
            well_formed(words(board@), width as int),
            cells(words(board@), width as int) == run(start, done as nat),
            done == 0 ==> board == initial,
        decreases iterations - done,
    {
        board = compute_next_generation(&board, width);
        done = done + 1;
    }
    board
}

} // verus!
