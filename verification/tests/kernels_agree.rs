use gol::gol_five::{gol_five, step_with_workers};
use gol::gol_four::{compute_next_generation, gol_four};
use gol::gol_one::gol_one;
use gol::gol_three::gol_three;
use gol::gol_two::gol_two;
use gol::gol_zero::gol_zero;
use gol::utils::conversion::{flatten_grid, to_bitboards};

fn scattered(height: usize, width: usize, seed: u64) -> Vec<Vec<bool>> {
    let mut state = seed;
    let mut grid = vec![vec![false; width]; height];
    for row in grid.iter_mut() {
        for cell in row.iter_mut() {
            state = state.wrapping_mul(6364136223846793005).wrapping_add(1442695040888963407);
            *cell = (state >> 33) % 3 == 0;
        }
    }
    grid
}

#[test]
fn all_kernels_agree_on_a_scattered_grid() {
    let grid = scattered(20, 64, 7);
    let flat = flatten_grid(&grid);
    let (board, width) = to_bitboards(&grid);
    for n in [1usize, 2, 5, 12] {
        let plain = gol_zero(grid.clone(), n);
        assert_eq!(gol_one(grid.clone(), n), plain);
        assert_eq!(gol_two(flat.clone(), 64, n), flatten_grid(&plain));
        assert_eq!(gol_three(flat.clone(), 64, n), flatten_grid(&plain));
        let (expected, _) = to_bitboards(&plain);
        assert_eq!(gol_four(board.clone(), width, n), expected);
        assert_eq!(gol_five(board.clone(), width, n), expected);
    }
}

#[test]
fn all_kernels_agree_on_a_wide_grid() {
    let grid = scattered(9, 192, 99);
    let flat = flatten_grid(&grid);
    let (board, width) = to_bitboards(&grid);
    assert_eq!(width, 192);
    let plain = gol_zero(grid.clone(), 6);
    assert_eq!(gol_one(grid.clone(), 6), plain);
    assert_eq!(gol_two(flat.clone(), 192, 6), flatten_grid(&plain));
    assert_eq!(gol_three(flat, 192, 6), flatten_grid(&plain));
    let (expected, _) = to_bitboards(&plain);
    assert_eq!(gol_four(board.clone(), width, 6), expected);
    assert_eq!(gol_five(board, width, 6), expected);
}

#[test]
fn the_plain_kernels_agree_on_odd_shapes() {
    for (h, w) in [(1usize, 1usize), (1, 9), (9, 1), (2, 2), (3, 17)] {
        let grid = scattered(h, w, (h * 31 + w) as u64);
        let plain = gol_zero(grid.clone(), 3);
        assert_eq!(gol_one(grid.clone(), 3), plain);
        assert_eq!(gol_two(flatten_grid(&grid), w, 3), flatten_grid(&plain));
        assert_eq!(gol_three(flatten_grid(&grid), w, 3), flatten_grid(&plain));
    }
}

#[test]
fn any_number_of_workers_gives_the_serial_board() {
    let grid = scattered(13, 128, 3);
    let (board, width) = to_bitboards(&grid);
    let serial = compute_next_generation(&board, width);
    for workers in [0usize, 1, 2, 3, 4, 5, 12, 13, 14, 100] {
        assert_eq!(step_with_workers(&board, width, workers), serial);
    }
}
