//! What stands around the kernels: conversions between the grid
//! representations, grids from and to lines of text, and the growth policy
//! of the growable variants.

pub mod conversion;
pub mod infinite_grid;
pub mod initialize_grid;
pub mod print_board;
