use gol::utils::initialize_grid::parse_grid;
use gol::utils::print_board::{cell_symbol, flat_lines, grid_lines};

#[test]
fn cells_are_shown_as_x_and_dot() {
    assert_eq!(cell_symbol(true), b'X');
    assert_eq!(cell_symbol(false), b'.');
}

#[test]
fn a_grid_is_shown_row_by_row() {
    let grid = vec![vec![true, false, false], vec![false, true, true]];
    assert_eq!(grid_lines(&grid), vec![b"X..".to_vec(), b".XX".to_vec()]);
    assert_eq!(grid_lines(&Vec::new()), Vec::<Vec<u8>>::new());
    assert_eq!(grid_lines(&vec![vec![true], vec![]]), vec![b"X".to_vec(), Vec::new()]);
}

#[test]
fn a_flat_grid_is_shown_row_by_row() {
    let flat = vec![1u8, 0, 0, 0, 1, 1];
    assert_eq!(flat_lines(&flat, 3), vec![b"X..".to_vec(), b".XX".to_vec()]);
    assert_eq!(flat_lines(&flat, 2), vec![b"X.".to_vec(), b"..".to_vec(), b"XX".to_vec()]);
    // Any byte but 0 is a live cell, and a row that is not whole is left out.
    assert_eq!(flat_lines(&vec![2u8, 0, 255, 1, 1], 2), vec![b"X.".to_vec(), b"XX".to_vec()]);
    assert_eq!(flat_lines(&Vec::new(), 4), Vec::<Vec<u8>>::new());
}

#[test]
fn the_text_of_a_grid_reads_back_as_the_grid() {
    let grid = vec![
        vec![true, false, true, true],
        vec![false, false, false, false],
        vec![true, true, true, false],
    ];
    assert_eq!(parse_grid(&grid_lines(&grid)), Ok(grid));
}
