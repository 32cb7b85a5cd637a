use gol::utils::initialize_grid::{
    dead_row, longest_line, pad_grid_to_multiple_of_64, parse_grid, UnexpectedCharacter, ALIVE,
    DEAD,
};

fn lines(text: &[&str]) -> Vec<Vec<u8>> {
    text.iter().map(|line| line.as_bytes().to_vec()).collect()
}

#[test]
fn the_symbols_are_x_and_dot() {
    assert_eq!(ALIVE, b'X');
    assert_eq!(DEAD, b'.');
}

#[test]
fn lines_of_x_and_dot_are_a_grid() {
    let grid = parse_grid(&lines(&["X..", ".X.", "..X"])).unwrap();
    assert_eq!(
        grid,
        vec![vec![true, false, false], vec![false, true, false], vec![false, false, true]]
    );
}

#[test]
fn short_lines_are_filled_up_with_dead_cells() {
    let grid = parse_grid(&lines(&["X", "", ".XX.", "XX"])).unwrap();
    assert_eq!(
        grid,
        vec![
            vec![true, false, false, false],
            vec![false, false, false, false],
            vec![false, true, true, false],
            vec![true, true, false, false],
        ]
    );
}

#[test]
fn no_lines_are_an_empty_grid() {
    assert_eq!(parse_grid(&Vec::new()), Ok(Vec::new()));
    assert_eq!(parse_grid(&lines(&["", ""])), Ok(vec![Vec::new(), Vec::new()]));
}

#[test]
fn the_first_other_character_is_reported() {
    assert_eq!(
        parse_grid(&lines(&["X.X", ".x.", "..?"])),
        Err(UnexpectedCharacter { line: 1, offset: 1 })
    );
    assert_eq!(
        parse_grid(&lines(&["X.X", ".X. ", "o"])),
        Err(UnexpectedCharacter { line: 1, offset: 3 })
    );
    assert_eq!(parse_grid(&lines(&["é"])), Err(UnexpectedCharacter { line: 0, offset: 0 }));
}

#[test]
fn the_longest_line_sets_the_width() {
    assert_eq!(longest_line(&lines(&["X", "XXXX", "XX"])), 4);
    assert_eq!(longest_line(&lines(&["", ""])), 0);
    assert_eq!(longest_line(&Vec::new()), 0);
}

#[test]
fn a_dead_row_has_no_live_cell() {
    assert_eq!(dead_row(3), vec![false, false, false]);
    assert_eq!(dead_row(0), Vec::<bool>::new());
}

#[test]
fn a_small_grid_is_set_in_the_middle_of_64_by_64() {
    let grid = vec![vec![true, false], vec![false, true]];
    let out = pad_grid_to_multiple_of_64(grid);
    assert_eq!(out.len(), 64);
    let mut expected = vec![vec![false; 64]; 64];
    expected[31][31] = true;
    expected[32][32] = true;
    assert_eq!(out, expected);
}

#[test]
fn odd_padding_puts_the_extra_cell_below_and_right() {
    // Three rows of five: 61 and 59 cells to share out.
    let grid = vec![vec![true; 5]; 3];
    let out = pad_grid_to_multiple_of_64(grid);
    assert_eq!(out.len(), 64);
    for (r, row) in out.iter().enumerate() {
        assert_eq!(row.len(), 64);
        for (c, &cell) in row.iter().enumerate() {
            assert_eq!(cell, (30..33).contains(&r) && (29..34).contains(&c));
        }
    }
}

#[test]
fn a_grid_that_is_a_multiple_of_64_already_is_left_alone() {
    let mut grid = vec![vec![false; 64]; 64];
    grid[0][0] = true;
    grid[63][63] = true;
    assert_eq!(pad_grid_to_multiple_of_64(grid.clone()), grid);
}

#[test]
fn the_larger_side_sets_the_size() {
    let grid = vec![vec![true; 65]; 2];
    let out = pad_grid_to_multiple_of_64(grid);
    assert_eq!(out.len(), 128);
    for (r, row) in out.iter().enumerate() {
        assert_eq!(row.len(), 128);
        for (c, &cell) in row.iter().enumerate() {
            assert_eq!(cell, (63..65).contains(&r) && (31..96).contains(&c));
        }
    }
    let tall = pad_grid_to_multiple_of_64(vec![vec![true]; 70]);
    assert_eq!(tall.len(), 128);
    assert_eq!(tall[28], vec![false; 128]);
    assert!(tall[29][63]);
    assert!(tall[29 + 69][63]);
    assert!(!tall[29 + 70][63]);
}

#[test]
fn an_empty_grid_stays_empty() {
    assert_eq!(pad_grid_to_multiple_of_64(Vec::new()), Vec::<Vec<bool>>::new());
}
