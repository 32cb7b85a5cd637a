use gol::bitboard::{east, neighbor_count, next_word, west};
use gol::gol_five::{compute_next_generation as step_five, gol_five};
use gol::gol_four::{compute_next_generation as step_four, gol_four};
use gol::gol_one::{compute_next_generation as step_one, gol_one};
use gol::gol_three::gol_three;
use gol::gol_two::gol_two;
use gol::gol_zero::{compute_next_generation as step_zero, gol_zero, CellContext};
use gol::utils::conversion::{flatten_grid, to_bitboards};

fn grid_with(height: usize, width: usize, live: &[(usize, usize)]) -> Vec<Vec<bool>> {
    let mut grid = vec![vec![false; width]; height];
    for &(r, c) in live {
        grid[r][c] = true;
    }
    grid
}

fn shifted(live: &[(usize, usize)], dr: usize, dc: usize) -> Vec<(usize, usize)> {
    live.iter().map(|&(r, c)| (r + dr, c + dc)).collect()
}

const BLOCK: [(usize, usize); 4] = [(1, 1), (1, 2), (2, 1), (2, 2)];
const GLIDER: [(usize, usize); 5] = [(1, 2), (2, 3), (3, 1), (3, 2), (3, 3)];

#[test]
fn dead_grid_stays_dead_in_the_plain_kernels() {
    let dead = grid_with(8, 8, &[]);
    for n in [0usize, 1, 2, 7] {
        assert_eq!(gol_zero(dead.clone(), n), dead);
        assert_eq!(gol_one(dead.clone(), n), dead);
    }
}

#[test]
fn dead_grid_stays_dead_in_the_flat_kernels() {
    let dead = vec![0u8; 64];
    for n in [0usize, 1, 2, 7] {
        assert_eq!(gol_two(dead.clone(), 8, n), dead);
        assert_eq!(gol_three(dead.clone(), 8, n), dead);
    }
}

#[test]
fn dead_board_stays_dead_in_the_packed_kernels() {
    let dead = vec![vec![0u64; 1]; 8];
    for n in [0usize, 1, 2, 7] {
        assert_eq!(gol_four(dead.clone(), 64, n), dead);
        assert_eq!(gol_five(dead.clone(), 64, n), dead);
    }
}

#[test]
fn block_is_unchanged_after_one_generation() {
    let block = grid_with(8, 8, &BLOCK);
    assert_eq!(gol_zero(block.clone(), 1), block);
    assert_eq!(gol_one(block.clone(), 1), block);
    let flat = flatten_grid(&block);
    assert_eq!(gol_two(flat.clone(), 8, 1), flat);
    assert_eq!(gol_three(flat.clone(), 8, 1), flat);
}

#[test]
fn block_is_unchanged_on_a_packed_board() {
    let mut board = vec![vec![0u64; 1]; 8];
    board[1][0] = 0b110;
    board[2][0] = 0b110;
    assert_eq!(gol_four(board.clone(), 64, 1), board);
    assert_eq!(gol_five(board.clone(), 64, 1), board);
}

#[test]
fn blinker_turns() {
    let upright = grid_with(5, 5, &[(1, 2), (2, 2), (3, 2)]);
    let lying = grid_with(5, 5, &[(2, 1), (2, 2), (2, 3)]);
    assert_eq!(step_zero(&upright), lying);
    assert_eq!(step_one(&upright), lying);
    assert_eq!(step_zero(&lying), upright);
    assert_eq!(gol_two(flatten_grid(&upright), 5, 1), flatten_grid(&lying));
    assert_eq!(gol_three(flatten_grid(&upright), 5, 1), flatten_grid(&lying));
    assert_eq!(gol_two(flatten_grid(&upright), 5, 2), flatten_grid(&upright));
}

#[test]
fn glider_moves_one_cell_diagonally_in_four_generations() {
    let start = grid_with(16, 16, &GLIDER);
    let moved = grid_with(16, 16, &shifted(&GLIDER, 1, 1));
    assert_eq!(gol_zero(start.clone(), 4), moved);
    assert_eq!(gol_one(start.clone(), 4), moved);
    assert_eq!(gol_two(flatten_grid(&start), 16, 4), flatten_grid(&moved));
    assert_eq!(gol_three(flatten_grid(&start), 16, 4), flatten_grid(&moved));
    assert_ne!(gol_zero(start.clone(), 3), moved);
}

#[test]
fn glider_moves_on_a_packed_board() {
    let start = grid_with(64, 64, &GLIDER);
    let moved = grid_with(64, 64, &shifted(&GLIDER, 1, 1));
    let (board, width) = to_bitboards(&start);
    let (expected, _) = to_bitboards(&moved);
    assert_eq!(width, 64);
    assert_eq!(gol_four(board.clone(), width, 4), expected);
    assert_eq!(gol_five(board, width, 4), expected);
}

#[test]
fn cells_on_both_sides_of_a_word_boundary_count_each_other() {
    // Column 63 is bit 63 of word 0, column 64 is bit 0 of word 1.
    let zeros = vec![0u64; 2];
    let cur = vec![1u64 << 63, 1u64];
    assert_eq!(east(&cur, 0, 63), 1);
    assert_eq!(west(&cur, 1, 0), 1);
    assert_eq!(neighbor_count(&zeros, &cur, &zeros, 0, 63), 1);
    assert_eq!(neighbor_count(&zeros, &cur, &zeros, 1, 0), 1);
    assert_eq!(neighbor_count(&zeros, &cur, &zeros, 0, 62), 1);
    assert_eq!(neighbor_count(&zeros, &cur, &zeros, 1, 1), 1);
    assert_eq!(neighbor_count(&zeros, &cur, &zeros, 0, 61), 0);
    // Seen from the rows above and below, both cells are diagonal neighbours.
    assert_eq!(neighbor_count(&cur, &zeros, &zeros, 0, 63), 2);
    assert_eq!(neighbor_count(&zeros, &zeros, &cur, 1, 0), 2);
}

#[test]
fn a_row_of_three_across_a_word_boundary_turns() {
    // Columns 63, 64, 65 of row 1 of a 128-wide board.
    let board = vec![vec![0u64, 0], vec![1u64 << 63, 0b11], vec![0u64, 0]];
    let next = step_four(&board, 128);
    assert_eq!(next, vec![vec![0u64, 1], vec![0u64, 1], vec![0u64, 1]]);
    assert_eq!(step_five(&board, 128), next);
    assert_eq!(step_four(&next, 128), board);
}

#[test]
fn next_word_applies_the_rule_to_every_bit() {
    let zeros = vec![0u64; 1];
    // Three in a row in the middle of a word: only the middle one survives.
    let cur = vec![0b111u64 << 10];
    assert_eq!(next_word(&zeros, &cur, &zeros, 0), 1u64 << 11);
    // The rows above and below give birth over the middle one.
    assert_eq!(next_word(&cur, &zeros, &zeros, 0), 1u64 << 11);
    assert_eq!(next_word(&zeros, &zeros, &cur, 0), 1u64 << 11);
}

#[test]
fn border_cells_count_only_neighbours_inside_the_grid() {
    let full = vec![vec![true; 4]; 4];
    let count = |row: usize, col: usize| {
        CellContext { grid: &full, row, col, height: 4, width: 4 }.count_live_neighbors()
    };
    assert_eq!(count(1, 1), 8);
    assert_eq!(count(0, 1), 5);
    assert_eq!(count(3, 2), 5);
    assert_eq!(count(1, 0), 5);
    assert_eq!(count(2, 3), 5);
    assert_eq!(count(0, 0), 3);
    assert_eq!(count(3, 3), 3);
    assert_eq!(count(0, 3), 3);
}

#[test]
fn cell_context_looks_around() {
    let grid = grid_with(3, 3, &[(0, 0), (1, 1), (2, 2)]);
    let ctx = CellContext { grid: &grid, row: 1, col: 1, height: 3, width: 3 };
    assert!(ctx.in_bounds(-1, -1));
    assert!(ctx.in_bounds(1, 1));
    assert!(!ctx.in_bounds(2, 0));
    assert!(!ctx.in_bounds(0, -2));
    assert!(ctx.is_alive(-1, -1));
    assert!(ctx.is_alive(1, 1));
    assert!(!ctx.is_alive(0, 1));
    assert!(!ctx.is_alive(5, 5));
    assert_eq!(ctx.count_live_neighbors(), 2);
    assert!(ctx.next_state());
    let corner = CellContext { grid: &grid, row: 0, col: 0, height: 3, width: 3 };
    assert_eq!(corner.count_live_neighbors(), 1);
    assert!(!corner.next_state());
}

#[test]
fn nothing_wraps_around_the_edge() {
    // A row of three on the right edge and nothing on the left: the left
    // edge stays dead.
    let grid = grid_with(5, 5, &[(1, 4), (2, 4), (3, 4)]);
    let next = step_zero(&grid);
    assert_eq!(next, grid_with(5, 5, &[(2, 3), (2, 4)]));
    assert_eq!(step_one(&grid), next);
    assert_eq!(gol_two(flatten_grid(&grid), 5, 1), flatten_grid(&next));
}

#[test]
fn zero_generations_change_nothing() {
    let grid = grid_with(6, 7, &[(0, 0), (2, 3), (5, 6)]);
    assert_eq!(gol_zero(grid.clone(), 0), grid);
    assert_eq!(gol_one(grid.clone(), 0), grid);
    let flat = flatten_grid(&grid);
    assert_eq!(gol_two(flat.clone(), 7, 0), flat);
    assert_eq!(gol_three(flat.clone(), 7, 0), flat);
    let board = vec![vec![0xdead_beef_u64, 7], vec![1u64 << 63, 1]];
    assert_eq!(gol_four(board.clone(), 128, 0), board);
    assert_eq!(gol_five(board.clone(), 128, 0), board);
}

#[test]
fn empty_grids_are_accepted() {
    let none: Vec<Vec<bool>> = Vec::new();
    assert_eq!(gol_zero(none.clone(), 3), none);
    assert_eq!(gol_one(none.clone(), 3), none);
    let no_board: Vec<Vec<u64>> = Vec::new();
    assert_eq!(gol_four(no_board.clone(), 64, 2), no_board);
    assert_eq!(gol_five(no_board.clone(), 64, 2), no_board);
    assert_eq!(gol_two(Vec::new(), 4, 2), Vec::<u8>::new());
    assert_eq!(gol_three(Vec::new(), 4, 2), Vec::<u8>::new());
}

#[test]
fn bytes_after_the_last_whole_row_stay() {
    // Two rows of three and two bytes more.
    let flat = vec![0u8, 1, 0, 0, 1, 0, 1, 1];
    let out = gol_two(flat.clone(), 3, 1);
    assert_eq!(out, vec![0u8, 0, 0, 0, 0, 0, 1, 1]);
    assert_eq!(gol_three(flat, 3, 1), out);
}
