use gol::gol_three_infinite::{gol_three_infinite, gol_three_step};
use gol::gol_two_infinite::{gol_two_infinite, gol_two_step};
use gol::utils::infinite_grid::{
    extend_flat_grid_to_square64, grow, growth_decision, is_near_edge, Growth, MARGIN,
};

fn square(width: usize, live: &[(usize, usize)]) -> Vec<u8> {
    let mut flat = vec![0u8; width * width];
    for &(r, c) in live {
        flat[r * width + c] = 1;
    }
    flat
}

#[test]
fn the_margin_is_five_cells() {
    assert_eq!(MARGIN, 5);
}

#[test]
fn a_grid_with_life_in_the_middle_does_not_grow() {
    let grid = square(64, &[(30, 30), (30, 31), (31, 30), (31, 31), (5, 5), (58, 58)]);
    let mut out = vec![7u8, 7, 7];
    assert_eq!(extend_flat_grid_to_square64(&grid, 64, &mut out), 64);
    assert_eq!(out, vec![7u8, 7, 7]);
    assert_eq!(growth_decision(&grid, 64, 5), Growth::NoGrowthNeeded);
}

#[test]
fn life_in_any_band_makes_the_grid_grow() {
    for cell in [(4usize, 30usize), (59, 30), (30, 4), (30, 59), (0, 0), (63, 63), (62, 20)] {
        let grid = square(64, &[cell]);
        assert!(is_near_edge(&grid, 64, 5));
        assert_eq!(growth_decision(&grid, 64, 5), Growth::GrowTo(128));
    }
    for cell in [(5usize, 5usize), (58, 58), (5, 58), (58, 5)] {
        let grid = square(64, &[cell]);
        assert!(!is_near_edge(&grid, 64, 5));
    }
}

#[test]
fn a_small_margin_and_a_wide_one() {
    let grid = square(64, &[(10, 10)]);
    assert!(!is_near_edge(&grid, 64, 0));
    assert!(!is_near_edge(&grid, 64, 10));
    assert!(is_near_edge(&grid, 64, 11));
    assert!(is_near_edge(&grid, 64, 32));
    assert!(is_near_edge(&grid, 64, 1000));
    assert!(!is_near_edge(&square(64, &[]), 64, 1000));
    assert!(!is_near_edge(&Vec::new(), 0, 5));
}

#[test]
fn the_grown_grid_holds_the_old_one_in_the_middle() {
    let live = [(0usize, 0usize), (0, 63), (63, 0), (63, 63), (10, 20)];
    let grid = square(64, &live);
    let mut out = vec![9u8; 10];
    assert_eq!(extend_flat_grid_to_square64(&grid, 64, &mut out), 128);
    let moved: Vec<(usize, usize)> = live.iter().map(|&(r, c)| (r + 32, c + 32)).collect();
    assert_eq!(out, square(128, &moved));
}

#[test]
fn growing_rounds_up_to_the_next_multiple_of_64() {
    let mut out = Vec::new();
    assert_eq!(grow(&square(64, &[]), 64, &mut out), 128);
    assert_eq!(out.len(), 128 * 128);
    assert_eq!(grow(&square(128, &[]), 128, &mut out), 192);
    assert_eq!(out.len(), 192 * 192);
    // Sides that are no multiple of 64: 62 + 2 fits 64 exactly, 63 does not.
    assert_eq!(grow(&square(62, &[(0, 0)]), 62, &mut out), 64);
    assert_eq!(out, square(64, &[(1, 1)]));
    assert_eq!(grow(&square(63, &[(0, 0)]), 63, &mut out), 128);
    assert_eq!(out, square(128, &[(32, 32)]));
    assert_eq!(grow(&square(3, &[(2, 1)]), 3, &mut out), 64);
    assert_eq!(out, square(64, &[(32, 31)]));
    assert_eq!(grow(&Vec::new(), 0, &mut out), 64);
    assert_eq!(out, square(64, &[]));
}

#[test]
fn one_step_of_a_square_grid() {
    let upright = square(64, &[(9, 10), (10, 10), (11, 10)]);
    let lying = square(64, &[(10, 9), (10, 10), (10, 11)]);
    assert_eq!(gol_two_step(upright.clone(), 64), lying);
    assert_eq!(gol_three_step(upright, 64), lying);
}

#[test]
fn a_grid_that_stays_away_from_the_edge_keeps_its_size() {
    let block = square(64, &[(30, 30), (30, 31), (31, 30), (31, 31)]);
    assert_eq!(gol_two_infinite(block.clone(), 64, 10), (block.clone(), 64));
    assert_eq!(gol_three_infinite(block.clone(), 64, 10), (block, 64));
}

#[test]
fn zero_generations_of_a_growable_grid() {
    let grid = square(64, &[(0, 0), (1, 1)]);
    assert_eq!(gol_two_infinite(grid.clone(), 64, 0), (grid.clone(), 64));
    assert_eq!(gol_three_infinite(grid.clone(), 64, 0), (grid, 64));
}

#[test]
fn a_blinker_at_the_edge_makes_the_grid_grow_once() {
    let grid = square(64, &[(0, 1), (1, 1), (2, 1)]);
    let (out, width) = gol_two_infinite(grid.clone(), 64, 1);
    assert_eq!(width, 128);
    assert_eq!(out, square(128, &[(33, 32), (33, 33), (33, 34)]));
    // In the grown grid the blinker is far from the edge: no more growth.
    let (out, width) = gol_two_infinite(grid.clone(), 64, 2);
    assert_eq!(width, 128);
    assert_eq!(out, square(128, &[(32, 33), (33, 33), (34, 33)]));
    assert_eq!(gol_three_infinite(grid.clone(), 64, 1).1, 128);
    assert_eq!(gol_three_infinite(grid, 64, 2), (out, 128));
}

#[test]
fn a_glider_that_reaches_the_margin_makes_the_grid_grow() {
    // The glider moves down and right by one cell every four generations.
    let glider = [(1usize, 2usize), (2, 3), (3, 1), (3, 2), (3, 3)];
    let start: Vec<(usize, usize)> = glider.iter().map(|&(r, c)| (r + 50, c + 50)).collect();
    let grid = square(64, &start);
    let (out, width) = gol_two_infinite(grid.clone(), 64, 4);
    assert_eq!(width, 64);
    let moved: Vec<(usize, usize)> = start.iter().map(|&(r, c)| (r + 1, c + 1)).collect();
    assert_eq!(out, square(64, &moved));
    let (out, width) = gol_two_infinite(grid.clone(), 64, 40);
    assert_eq!(width, 128);
    let far: Vec<(usize, usize)> = start.iter().map(|&(r, c)| (r + 10 + 32, c + 10 + 32)).collect();
    assert_eq!(out, square(128, &far));
    assert_eq!(gol_three_infinite(grid, 64, 40), (out, 128));
}

#[test]
fn a_still_life_far_from_the_edge_runs_long_without_growing() {
    let block = square(64, &[(30, 30), (30, 31), (31, 30), (31, 31)]);
    assert_eq!(gol_two_infinite(block.clone(), 64, 300), (block, 64));
}
