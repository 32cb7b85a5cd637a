use gol::utils::conversion::{flatten_grid, to_bitboards};

#[test]
fn flatten_puts_the_rows_one_after_the_other() {
    let grid = vec![vec![true, false, false], vec![false, true, true]];
    assert_eq!(flatten_grid(&grid), vec![1u8, 0, 0, 0, 1, 1]);
}

#[test]
fn flatten_takes_rows_of_any_length() {
    let grid = vec![vec![true], vec![], vec![false, true]];
    assert_eq!(flatten_grid(&grid), vec![1u8, 0, 1]);
    assert_eq!(flatten_grid(&Vec::new()), Vec::<u8>::new());
}

#[test]
fn bitboards_put_column_c_in_bit_c_mod_64() {
    let mut grid = vec![vec![false; 128]; 2];
    grid[0][0] = true;
    grid[0][63] = true;
    grid[0][64] = true;
    grid[1][5] = true;
    grid[1][127] = true;
    let (board, width) = to_bitboards(&grid);
    assert_eq!(width, 128);
    assert_eq!(board, vec![vec![1u64 | (1u64 << 63), 1u64], vec![1u64 << 5, 1u64 << 63]]);
}

#[test]
fn bitboards_of_an_empty_grid() {
    let (board, width) = to_bitboards(&Vec::new());
    assert_eq!(width, 0);
    assert!(board.is_empty());
    let (board, width) = to_bitboards(&vec![Vec::new(), Vec::new()]);
    assert_eq!(width, 0);
    assert_eq!(board, vec![Vec::<u64>::new(), Vec::new()]);
}
