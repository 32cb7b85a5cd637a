use gol::bitboard::{bit_at, center, east, next_row, west, zero_row};
use gol::gol_five::fan_out;
use gol::gol_four::compute_next_generation;
use gol::gol_three_infinite::gol_three_infinite_with_margin;
use gol::gol_two_infinite::gol_two_infinite_with_margin;
use gol::utils::infinite_grid::extend_with_margin;

#[test]
fn single_bits_are_read() {
    assert_eq!(bit_at(0b100, 2), 1);
    assert_eq!(bit_at(0b100, 1), 0);
    assert_eq!(bit_at(u64::MAX, 63), 1);
    assert_eq!(bit_at(1u64 << 63, 0), 0);
    let row = vec![0b1010u64, 1u64 << 63];
    assert_eq!(center(&row, 0, 1), 1);
    assert_eq!(center(&row, 0, 2), 0);
    assert_eq!(center(&row, 1, 63), 1);
}

#[test]
fn west_and_east_stay_inside_the_row() {
    let row = vec![1u64, 1u64 << 63];
    // Nothing lies west of column 0 or east of the last column.
    assert_eq!(west(&row, 0, 0), 0);
    assert_eq!(east(&row, 1, 63), 0);
    assert_eq!(west(&row, 0, 1), 1);
    assert_eq!(east(&row, 1, 62), 1);
    assert_eq!(west(&row, 1, 0), 0);
    assert_eq!(east(&row, 0, 63), 0);
}

#[test]
fn a_zero_row_has_no_bit_set() {
    assert_eq!(zero_row(3), vec![0u64, 0, 0]);
    assert_eq!(zero_row(0), Vec::<u64>::new());
}

#[test]
fn the_first_and_the_last_row_have_a_dead_row_beyond() {
    let board = vec![vec![0b111u64], vec![0u64], vec![0b111u64 << 61]];
    let zeros = zero_row(1);
    assert_eq!(next_row(&board, 64, &zeros, 0), vec![0b010u64]);
    assert_eq!(next_row(&board, 64, &zeros, 1), vec![0b010u64 | (0b010u64 << 61)]);
    assert_eq!(next_row(&board, 64, &zeros, 2), vec![0b010u64 << 61]);
}

#[test]
fn the_parts_come_back_in_the_order_of_the_starts() {
    let board = vec![vec![0b111u64], vec![0u64], vec![0b111u64 << 61], vec![0u64], vec![7u64]];
    let next = compute_next_generation(&board, 64);
    let parts = fan_out(&board, 64, &vec![0, 2, 4], 2);
    assert_eq!(parts.len(), 3);
    assert_eq!(parts[0], (0, next[0..2].to_vec()));
    assert_eq!(parts[1], (2, next[2..4].to_vec()));
    assert_eq!(parts[2], (4, next[4..5].to_vec()));
    let backwards = fan_out(&board, 64, &vec![4, 0], 1);
    assert_eq!(backwards, vec![(4, next[4..5].to_vec()), (0, next[0..1].to_vec())]);
}

#[test]
fn the_margin_decides_when_a_grid_grows() {
    let mut grid = vec![0u8; 64 * 64];
    grid[10 * 64 + 10] = 1;
    let mut out = Vec::new();
    assert_eq!(extend_with_margin(&grid, 64, 10, &mut out), 64);
    assert!(out.is_empty());
    assert_eq!(extend_with_margin(&grid, 64, 11, &mut out), 128);
    assert_eq!(out.len(), 128 * 128);
    assert_eq!(out[42 * 128 + 42], 1);
    assert_eq!(out.iter().filter(|&&v| v == 1).count(), 1);
}

#[test]
fn a_block_in_a_wide_margin_makes_the_grid_grow_every_generation() {
    let mut grid = vec![0u8; 64 * 64];
    for (r, c) in [(30usize, 30usize), (30, 31), (31, 30), (31, 31)] {
        grid[r * 64 + c] = 1;
    }
    // With a margin of 31 the block is near the edge of a 64 grid, and of
    // the 128 grid too once it sits at 62; not of the 192 grid.
    let (out, width) = gol_two_infinite_with_margin(grid.clone(), 64, 1, 31);
    assert_eq!(width, 128);
    assert_eq!(out.iter().filter(|&&v| v == 1).count(), 4);
    assert_eq!(out[62 * 128 + 62], 1);
    assert_eq!(out[63 * 128 + 63], 1);
    let (out, width) = gol_two_infinite_with_margin(grid.clone(), 64, 3, 31);
    assert_eq!(width, 128);
    assert_eq!(out[62 * 128 + 62], 1);
    let (out, width) = gol_two_infinite_with_margin(grid.clone(), 64, 3, 63);
    assert_eq!(width, 192);
    assert_eq!(out[94 * 192 + 94], 1);
    assert_eq!(out[95 * 192 + 95], 1);
    assert_eq!(gol_three_infinite_with_margin(grid.clone(), 64, 3, 63), (out, 192));
    assert_eq!(gol_two_infinite_with_margin(grid.clone(), 64, 5, 0), (grid, 64));
}
