//! The border-padded flat-buffer kernel with the rows of a generation handed
//! out to the threads of rayon's pool. Every row is computed from the one
//! shared buffer of the generation before and comes back as a row of its
//! own; the rows are then written into the other buffer in row order.

use crate::index::{lemma_cell_index, lemma_index_cell};
use crate::life::{next_cell, run, step, width_of};
use crate::padded::{
    binary, byte_rows, cell_byte, flat_cells, flat_run, lemma_flat_of_cells, lemma_rows_fit,
    PaddedBuffer,
};
use crate::parallel::par_map;
use vstd::prelude::*;

verus! {

/// The cells that rows of bytes picture.
pub open spec fn row_cells(rows: Seq<Seq<u8>>) -> Seq<Seq<bool>> {
    Seq::new(rows.len(), |r: int| Seq::new(rows[r].len(), |c: int| rows[r][c] == 1))
}

/// `rows` holds, row for row, the grid `g` one generation later.
pub open spec fn are_stepped_rows(g: Seq<Seq<bool>>, rows: Seq<Seq<u8>>) -> bool {
    &&& rows.len() == g.len()
    &&& forall|r: int| 0 <= r < rows.len() ==> (#[trigger] rows[r]).len() == width_of(g)
    &&& forall|r: int, c: int|
        0 <= r < rows.len() && 0 <= c < width_of(g) ==> (#[trigger] rows[r][c]) == cell_byte(
            next_cell(g, r, c),
        )
}

/// Steps every row of the interior on its own, the rows handed out to the
/// threads of the pool.
pub fn par_stepped_rows(buf: &PaddedBuffer) -> (rows: Vec<Vec<u8>>)
    requires
        buf.wf(),
    ensures
        are_stepped_rows(buf.grid(), byte_rows(rows@)),
{
    let step_row = |r: usize| -> (row: Vec<u8>)
        requires
            r < buf.height,
        ensures
            row.len() == buf.width,
            forall|c: int|
                0 <= c < buf.width ==> #[trigger] row@[c] == cell_byte(
                    next_cell(buf.grid(), r as int, c),
                ),
        { buf.stepped_row(r) };
    let rows: Vec<Vec<u8>> = par_map(buf.height, step_row);
    proof {
        let g = buf.grid();
        let b = byte_rows(rows@);
        if buf.height > 0 {
            assert(g[0].len() == buf.width);
        }
        assert forall|r: int| 0 <= r < b.len() implies (#[trigger] b[r]).len() == width_of(g) by {
            assert(b[r] == rows@[r]@);
        }
        assert forall|r: int, c: int| 0 <= r < b.len() && 0 <= c < width_of(g) implies (
        #[trigger] b[r][c]) == cell_byte(next_cell(g, r, c)) by {
            assert(b[r] == rows@[r]@);
        }
    }
    rows
}

/// Writes `rows` over the interior of `next`, row for row.
pub fn store_rows(next: &mut PaddedBuffer, rows: &Vec<Vec<u8>>)
    requires
        old(next).wf(),
        rows.len() == old(next).height,
        forall|r: int| 0 <= r < rows.len() ==> (#[trigger] rows@[r]).len() == old(next).width,
        forall|r: int| 0 <= r < rows.len() ==> binary((#[trigger] rows@[r])@),
    ensures
        final(next).wf(),
        final(next).width == old(next).width,
        final(next).height == old(next).height,
        final(next).grid() == row_cells(byte_rows(rows@)),
{
    let width: usize = next.width;
    let height: usize = next.height;
    assert(width + 2 <= (height + 2) * (width + 2)) by (nonlinear_arith);
    assert(height + 2 <= (height + 2) * (width + 2)) by (nonlinear_arith);
    let pw: usize = width + 2;
    let ghost len = next.cells.len() as int;
    let mut y: usize = 0;
    while y < height
        invariant
            y <= height,
            pw == width + 2,
            height + 2 <= usize::MAX,
            len == (height + 2) * (width + 2),
            next.width == width,
            next.height == height,
            next.cells.len() == len,
            rows.len() == height,
            forall|r: int| 0 <= r < rows.len() ==> (#[trigger] rows@[r]).len() == width,
            forall|r: int| 0 <= r < rows.len() ==> binary((#[trigger] rows@[r])@),
            binary(next.cells@),
            forall|i: int| 0 <= i < len && next.on_border(i) ==> #[trigger] next.cells@[i] == 0,
            forall|i: int|
                0 <= i < len && 1 <= i / (pw as int) <= y && 1 <= i % (pw as int) <= width
                    ==> #[trigger] next.cells@[i] == rows@[i / (pw as int) - 1]@[i % (pw as int)
                    - 1],
        decreases height - y,
    {
        let row: &Vec<u8> = &rows[y];
        let mut x: usize = 0;
        while x < width
            invariant
                y < height,
                x <= width,
                pw == width + 2,
                height + 2 <= usize::MAX,
                len == (height + 2) * (width + 2),
                next.width == width,
                next.height == height,
                next.cells.len() == len,
                rows.len() == height,
                *row == rows@[y as int],
                row.len() == width,
                binary(row@),
                forall|r: int| 0 <= r < rows.len() ==> (#[trigger] rows@[r]).len() == width,
                binary(next.cells@),
                forall|i: int|
                    0 <= i < len && next.on_border(i) ==> #[trigger] next.cells@[i] == 0,
                forall|i: int|
                    0 <= i < len && 1 <= i / (pw as int) && 1 <= i % (pw as int) <= width && (i / (
                    pw as int) <= y || (i / (pw as int) == y + 1 && i % (pw as int) <= x))
                        ==> #[trigger] next.cells@[i] == rows@[i / (pw as int) - 1]@[i % (
                    pw as int) - 1],
            decreases width - x,
        {
            proof {
                lemma_cell_index(y + 1, x + 1, height + 2, pw as int);
            }
            let idx: usize = (y + 1) * pw + (x + 1);
            let ghost before = next.cells@;
            next.cells[idx] = row[x];
            x = x + 1;
            proof {
                assert(row@[x - 1] <= 1);
                assert forall|i: int|
                    0 <= i < len && 1 <= i / (pw as int) && 1 <= i % (pw as int) <= width && (i / (
                    pw as int) <= y || (i / (pw as int) == y + 1 && i % (pw as int)
                        <= x)) implies #[trigger] next.cells@[i] == rows@[i / (pw as int) - 1]@[i
                    % (pw as int) - 1] by {
                    lemma_index_cell(i, height + 2, pw as int);
                    assert(i != idx ==> next.cells@[i] == before[i]);
                }
                assert forall|i: int| 0 <= i < len && next.on_border(i) implies #[trigger] next.cells@[i]
                    == 0 by {
                    assert(i != idx);
                    assert(next.cells@[i] == before[i]);
                }
                assert forall|i: int| 0 <= i < len implies #[trigger] next.cells@[i] <= 1 by {
                    assert(i != idx ==> next.cells@[i] == before[i]);
                }
            }
        }
        y = y + 1;
    }
    proof {
        let a = next.grid();
        let z = row_cells(byte_rows(rows@));
        assert forall|r: int| 0 <= r < height implies a[r] == z[r] by {
            assert forall|c: int| 0 <= c < width implies a[r][c] == z[r][c] by {
                lemma_cell_index(r + 1, c + 1, height + 2, pw as int);
            }
            assert(a[r] =~= z[r]);
        }
        assert(a =~= z);
    }
}

/// Rows that were each stepped on their own from the one shared grid are,
/// put together in row order, the stepped grid: the row-parallel kernel
/// computes what the serial one computes, however the rows were divided
/// among the workers and whichever finished first.
pub proof fn lemma_rows_are_step(g: Seq<Seq<bool>>, rows: Seq<Seq<u8>>)
    requires
        are_stepped_rows(g, rows),
    ensures
        row_cells(rows) == step(g),
        forall|r: int| 0 <= r < rows.len() ==> binary(#[trigger] rows[r]),
{
    let a = row_cells(rows);
    let z = step(g);
    assert(a.len() == z.len());
    assert forall|r: int| 0 <= r < a.len() implies a[r] == z[r] by {
        assert(rows[r].len() == width_of(g));
        assert forall|c: int| 0 <= c < width_of(g) implies a[r][c] == z[r][c] by {
            assert(rows[r][c] == cell_byte(next_cell(g, r, c)));
        }
        assert(a[r] =~= z[r]);
    }
    assert(a =~= z);
    assert forall|r: int| 0 <= r < rows.len() implies binary(#[trigger] rows[r]) by {
        assert forall|c: int| 0 <= c < rows[r].len() implies #[trigger] rows[r][c] <= 1 by {
            assert(rows[r][c] == cell_byte(next_cell(g, r, c)));
        }
    }
}

/// Steps the interior of `buf` one generation into `next`, the rows in
/// parallel. What comes out is what [`PaddedBuffer::step_into`] gives.
pub fn par_step_into(buf: &PaddedBuffer, next: &mut PaddedBuffer)
    requires
        buf.wf(),
        old(next).wf(),
        old(next).width == buf.width,
        old(next).height == buf.height,
    ensures
        final(next).wf(),
        final(next).width == buf.width,
        final(next).height == buf.height,
        final(next).grid() == step(buf.grid()),
{
    let rows: Vec<Vec<u8>> = par_stepped_rows(buf);
    proof {
        let b = byte_rows(rows@);
        lemma_rows_are_step(buf.grid(), b);
        if buf.height > 0 {
            assert(buf.grid()[0].len() == buf.width);
        }
        assert forall|r: int| 0 <= r < rows.len() implies (#[trigger] rows@[r]).len()
            == buf.width && binary(rows@[r]@) by {
            assert(b[r] == rows@[r]@);
        }
    }
    store_rows(next, &rows);
}

/// The flat grid `curr`, rows of `width` cells, after `iterations`
/// generations, the rows of every generation computed in parallel.
pub fn gol_three(curr: Vec<u8>, width: usize, iterations: usize) -> (out: Vec<u8>)
    requires
        width > 0,
        binary(curr@),
        (curr.len() / width + 2) * (width + 2) <= usize::MAX,
    ensures
        out@ == flat_run(curr@, width as int, iterations as nat),
        iterations == 0 ==> out@ == curr@,
{
    let mut curr = curr;
    let height: usize = curr.len() / width;
    let ghost given = curr@;
    let ghost start = flat_cells(given, height as int, width as int);
    proof {
        lemma_rows_fit(curr.len() as int, width as int);
    }
    let mut padded_curr: PaddedBuffer = PaddedBuffer::from_interior(&curr, width, height);
    let mut padded_next: PaddedBuffer = PaddedBuffer::new(width, height);
    let mut done: usize = 0;
    while done < iterations
        invariant
            done <= iterations,
            padded_curr.wf(),
            padded_next.wf(),
            padded_curr.width == width,
            padded_curr.height == height,
            padded_next.width == width,
            padded_next.height == height,
            padded_curr.grid() == run(start, done as nat),
        decreases iterations - done,
    {
        par_step_into(&padded_curr, &mut padded_next);
        std::mem::swap(&mut padded_curr, &mut padded_next);
        done = done + 1;
    }
    padded_curr.copy_interior_to(&mut curr);
    proof {
        if iterations == 0 {
            lemma_flat_of_cells(given, height as int, width as int);
        }
    }
    curr
}

} // verus!
