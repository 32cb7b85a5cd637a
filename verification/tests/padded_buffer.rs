use gol::gol_three::{par_step_into, par_stepped_rows, store_rows};
use gol::padded::PaddedBuffer;

#[test]
fn a_new_buffer_is_dead_and_has_a_border() {
    let buf = PaddedBuffer::new(3, 2);
    assert_eq!(buf.width, 3);
    assert_eq!(buf.height, 2);
    assert_eq!(buf.cells, vec![0u8; 5 * 4]);
    let none = PaddedBuffer::new(0, 0);
    assert_eq!(none.cells, vec![0u8; 4]);
}

#[test]
fn the_interior_is_copied_in_behind_the_border() {
    let flat = vec![1u8, 0, 1, 0, 1, 1];
    let buf = PaddedBuffer::from_interior(&flat, 3, 2);
    let mut expected = vec![0u8; 20];
    expected[6] = 1;
    expected[8] = 1;
    expected[12] = 1;
    expected[13] = 1;
    assert_eq!(buf.cells, expected);
    // Bytes after the rows asked for are not taken.
    let shorter = PaddedBuffer::from_interior(&flat, 3, 1);
    assert_eq!(shorter.cells, vec![0u8, 0, 0, 0, 0, 0, 1, 0, 1, 0, 0, 0, 0, 0, 0]);
}

#[test]
fn the_interior_is_copied_out_again() {
    let flat = vec![1u8, 0, 1, 0, 1, 1];
    let buf = PaddedBuffer::from_interior(&flat, 3, 2);
    let mut out = vec![9u8; 8];
    buf.copy_interior_to(&mut out);
    assert_eq!(out, vec![1u8, 0, 1, 0, 1, 1, 9, 9]);
}

#[test]
fn one_cell_is_stepped_from_the_eight_around_it() {
    // A row of three in a three by three grid.
    let buf = PaddedBuffer::from_interior(&vec![0u8, 0, 0, 1, 1, 1, 0, 0, 0], 3, 3);
    // Padded rows are five bytes long; the interior begins at index 6.
    assert_eq!(buf.next_byte(6), 0);
    assert_eq!(buf.next_byte(7), 1);
    assert_eq!(buf.next_byte(11), 0);
    assert_eq!(buf.next_byte(12), 1);
    assert_eq!(buf.next_byte(13), 0);
    assert_eq!(buf.next_byte(17), 1);
}

#[test]
fn rows_are_stepped_one_by_one() {
    let buf = PaddedBuffer::from_interior(&vec![0u8, 0, 0, 1, 1, 1, 0, 0, 0], 3, 3);
    assert_eq!(buf.stepped_row(0), vec![0u8, 1, 0]);
    assert_eq!(buf.stepped_row(1), vec![0u8, 1, 0]);
    assert_eq!(buf.stepped_row(2), vec![0u8, 1, 0]);
}

#[test]
fn a_step_writes_the_other_buffer_and_keeps_its_border() {
    let buf = PaddedBuffer::from_interior(&vec![0u8, 0, 0, 1, 1, 1, 0, 0, 0], 3, 3);
    let mut next = PaddedBuffer::from_interior(&vec![1u8; 9], 3, 3);
    buf.step_into(&mut next);
    let expected = PaddedBuffer::from_interior(&vec![0u8, 1, 0, 0, 1, 0, 0, 1, 0], 3, 3);
    assert_eq!(next.cells, expected.cells);
    let mut parallel = PaddedBuffer::from_interior(&vec![1u8; 9], 3, 3);
    par_step_into(&buf, &mut parallel);
    assert_eq!(parallel.cells, expected.cells);
}

#[test]
fn rows_are_stored_behind_the_border() {
    let mut next = PaddedBuffer::new(2, 2);
    store_rows(&mut next, &vec![vec![1u8, 0], vec![1u8, 1]]);
    assert_eq!(next.cells, vec![0u8, 0, 0, 0, 0, 1, 0, 0, 0, 1, 1, 0, 0, 0, 0, 0]);
}

#[test]
fn rows_stepped_in_parallel_come_back_in_row_order() {
    let buf = PaddedBuffer::from_interior(&vec![0u8, 1, 0, 0, 1, 0, 0, 1, 0, 0, 0, 0], 3, 4);
    let rows = par_stepped_rows(&buf);
    assert_eq!(rows, vec![vec![0u8, 0, 0], vec![1u8, 1, 1], vec![0u8, 0, 0], vec![0u8, 0, 0]]);
    for r in 0..4 {
        assert_eq!(rows[r], buf.stepped_row(r));
    }
    assert_eq!(par_stepped_rows(&PaddedBuffer::new(3, 0)), Vec::<Vec<u8>>::new());
}
