use gol::gol_five::{assemble, chunk_size, chunk_starts, step_chunk};
use gol::gol_four::compute_next_generation;

#[test]
fn chunk_size_rounds_up() {
    assert_eq!(chunk_size(10, 3), 4);
    assert_eq!(chunk_size(9, 3), 3);
    assert_eq!(chunk_size(1, 8), 1);
    assert_eq!(chunk_size(0, 4), 0);
    assert_eq!(chunk_size(7, 1), 7);
    assert_eq!(chunk_size(usize::MAX, 2), usize::MAX / 2 + 1);
}

#[test]
fn chunk_starts_step_by_the_chunk_size() {
    assert_eq!(chunk_starts(10, 4), vec![0, 4, 8]);
    assert_eq!(chunk_starts(9, 3), vec![0, 3, 6]);
    assert_eq!(chunk_starts(3, 5), vec![0]);
    assert_eq!(chunk_starts(0, 2), Vec::<usize>::new());
}

#[test]
fn a_chunk_holds_its_rows_and_its_start() {
    let board = vec![vec![0u64], vec![0b111u64 << 4], vec![0u64], vec![0u64]];
    let next = compute_next_generation(&board, 64);
    let (start, rows) = step_chunk(&board, 64, 1, 2);
    assert_eq!(start, 1);
    assert_eq!(rows, next[1..3].to_vec());
    let (start, rows) = step_chunk(&board, 64, 3, 2);
    assert_eq!(start, 3);
    assert_eq!(rows, next[3..].to_vec());
    let (start, rows) = step_chunk(&board, 64, 4, 2);
    assert_eq!(start, 4);
    assert!(rows.is_empty());
}

#[test]
fn chunks_assemble_in_any_order() {
    let board = vec![vec![0u64], vec![0b111u64 << 4], vec![0u64], vec![0u64], vec![3u64]];
    let next = compute_next_generation(&board, 64);
    let first = step_chunk(&board, 64, 0, 2);
    let second = step_chunk(&board, 64, 2, 2);
    let third = step_chunk(&board, 64, 4, 2);
    let in_order = assemble(5, 1, vec![first.clone(), second.clone(), third.clone()]);
    let reversed = assemble(5, 1, vec![third, second, first]);
    assert_eq!(in_order, next);
    assert_eq!(reversed, next);
}

#[test]
fn rows_that_no_chunk_holds_are_zero() {
    let part = (1usize, vec![vec![5u64, 6], vec![7u64, 8]]);
    let out = assemble(4, 2, vec![part]);
    assert_eq!(out, vec![vec![0, 0], vec![5, 6], vec![7, 8], vec![0, 0]]);
}

#[test]
fn a_later_chunk_overwrites_an_earlier_one() {
    let early = (0usize, vec![vec![1u64], vec![2u64]]);
    let late = (1usize, vec![vec![9u64]]);
    assert_eq!(assemble(2, 1, vec![early, late]), vec![vec![1], vec![9]]);
}
