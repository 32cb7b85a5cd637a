//! Conway's Game of Life on bounded grids, for a fixed number of
//! generations: a live cell survives with two or three live neighbours, a
//! dead cell is born with exactly three, and whatever lies outside the grid
//! is dead.
//!
//! [`life`] is the automaton as mathematics; every kernel is stated against
//! it. [`gol_zero`] and [`gol_one`] are the plain kernels on rows of cells.
//! [`padded`] holds the flat buffer with a dead border, which [`gol_two`]
//! steps cell by cell and [`gol_three`] row-parallel. [`bitboard`] holds the
//! bit-packed rows, which [`gol_four`] steps row by row and [`gol_five`] in
//! parallel chunks of rows. [`gol_two_infinite`] and [`gol_three_infinite`]
//! let a square grid grow when life comes near its edge, by the policy in
//! [`utils::infinite_grid`]. [`agreement`] states that all of them compute
//! the same.

pub mod agreement;
pub mod bitboard;
pub mod gol_five;
pub mod gol_four;
pub mod gol_one;
pub mod gol_three;
pub mod gol_three_infinite;
pub mod gol_two;
pub mod gol_two_infinite;
pub mod gol_zero;
pub mod index;
pub mod life;
pub mod padded;
mod parallel;
pub mod utils;
