//! Conversions from a grid of rows of cells to the flat and the bit-packed
//! representation.

use crate::bitboard::{bit, cells, lemma_set_bit, row_cell, well_formed, words, zero_row};
use crate::index::lemma_cell_index;
use crate::life::{is_rect, rows, width_of};
use crate::padded::{binary, cell_byte, flat_cells};
use vstd::prelude::*;

verus! {

/// The cells of a row as bytes.
pub open spec fn row_bytes(row: Seq<bool>) -> Seq<u8> {
    Seq::new(row.len(), |c: int| cell_byte(row[c]))
}

/// The rows of a grid as bytes, one row after the other.
pub open spec fn flattened(g: Seq<Seq<bool>>) -> Seq<u8>
    decreases g.len(),
{
    if g.len() == 0 {
        Seq::empty()
    } else {
        flattened(g.drop_last()) + row_bytes(g.last())
    }
}

/// Flattening a rectangular grid of `w` columns puts the cell at row `r`,
/// column `c` at index `r * w + c`.
pub proof fn lemma_flattened_index(g: Seq<Seq<bool>>, w: int, r: int, c: int)
    requires
        forall|k: int| 0 <= k < g.len() ==> (#[trigger] g[k]).len() == w,
        0 <= r < g.len(),
        0 <= c < w,
    ensures
        flattened(g).len() == g.len() * w,
        0 <= r * w + c < flattened(g).len(),
        flattened(g)[r * w + c] == cell_byte(g[r][c]),
    decreases g.len(),
{
    lemma_flattened_len(g, w);
    lemma_cell_index(r, c, g.len() as int, w);
    let front = g.drop_last();
    lemma_flattened_len(front, w);
    if r < g.len() - 1 {
        lemma_flattened_index(front, w, r, c);
    } else {
        assert(flattened(g)[r * w + c] == row_bytes(g.last())[c]);
    }
}

/// Flattening a rectangular grid of `w` columns gives `w` bytes for each
/// row.
pub proof fn lemma_flattened_len(g: Seq<Seq<bool>>, w: int)
    requires
        forall|k: int| 0 <= k < g.len() ==> (#[trigger] g[k]).len() == w,
    ensures
        flattened(g).len() == g.len() * w,
    decreases g.len(),
{
    if g.len() > 0 {
        lemma_flattened_len(g.drop_last(), w);
        assert((g.len() - 1) * w + w == g.len() * w) by (nonlinear_arith);
    }
}

/// A flattened rectangular grid holds only 0 and 1 and pictures the grid it
/// came from.
pub proof fn lemma_flattened_cells(g: Seq<Seq<bool>>)
    requires
        is_rect(g),
    ensures
        binary(flattened(g)),
        flattened(g).len() == g.len() * width_of(g),
        flat_cells(flattened(g), g.len() as int, width_of(g) as int) == g,
{
    let w = width_of(g) as int;
    let h = g.len() as int;
    let f = flattened(g);
    assert forall|k: int| 0 <= k < g.len() implies (#[trigger] g[k]).len() == w by {
        assert(g[k].len() == g[0].len());
    }
    lemma_flattened_len(g, w);
    assert forall|i: int| 0 <= i < f.len() implies #[trigger] f[i] <= 1 by {
        assert(0 < w) by (nonlinear_arith)
            requires
                0 <= i < h * w,
                0 <= w,
        ;
        crate::index::lemma_index_cell(i, h, w);
        lemma_flattened_index(g, w, i / w, i % w);
    }
    let a = flat_cells(f, h, w);
    assert forall|r: int| 0 <= r < h implies a[r] == g[r] by {
        assert forall|c: int| 0 <= c < w implies a[r][c] == g[r][c] by {
            lemma_flattened_index(g, w, r, c);
        }
        assert(a[r] =~= g[r]);
    }
    assert(a =~= g);
}

/// The grid as a flat buffer: its rows one after the other, 1 for a live
/// cell and 0 for a dead one.
pub fn flatten_grid(grid: &Vec<Vec<bool>>) -> (flat: Vec<u8>)
    ensures
        flat@ == flattened(rows(grid@)),
{
    let ghost g = rows(grid@);
    let mut flat: Vec<u8> = Vec::new();
    let mut r: usize = 0;
    assert(g.take(0) =~= Seq::<Seq<bool>>::empty());
    while r < grid.len()
        invariant
            r <= grid.len(),
            g == rows(grid@),
            flat@ == flattened(g.take(r as int)),
        decreases grid.len() - r,
    {
        let row: &Vec<bool> = &grid[r];
        let ghost before = flat@;
        let mut c: usize = 0;
        while c < row.len()
            invariant
                c <= row.len(),
                flat@ == before + row_bytes(row@.take(c as int)),
            decreases row.len() - c,
        {
            let byte: u8 = if row[c] {
                1
            } else {
                0
            };
            flat.push(byte);
            c = c + 1;
            assert(flat@ =~= before + row_bytes(row@.take(c as int)));
        }
        r = r + 1;
        proof {
            assert(row@.take(row.len() as int) =~= row@);
            assert(g.take(r as int).drop_last() =~= g.take(r - 1));
            assert(g.take(r as int).last() == row@);
        }
    }
    assert(g.take(grid.len() as int) =~= g);
    flat
}

/// The grid as a bit-packed board, and its width in cells: bit `b` of word
/// `wi` of a row is the cell in column `wi * 64 + b`.
pub fn to_bitboards(grid: &Vec<Vec<bool>>) -> (out: (Vec<Vec<u64>>, usize))
    requires
        is_rect(rows(grid@)),
        width_of(rows(grid@)) % 64 == 0,
    ensures
        out.1 == width_of(rows(grid@)),
        out.0.len() == grid.len(),
        well_formed(words(out.0@), out.1 as int),
        cells(words(out.0@), out.1 as int) == rows(grid@),
{
    let height: usize = grid.len();
    let width: usize = if height > 0 {
        grid[0].len()
    } else {
        0
    };
    let words_per_row: usize = width / 64;
    let ghost g = rows(grid@);
    assert forall|r: int| 0 <= r < height implies (#[trigger] grid@[r]).len() == width by {
        assert(g[r].len() == g[0].len());
    }
    let mut board: Vec<Vec<u64>> = Vec::new();
    let mut r: usize = 0;
    while r < height
        invariant
            r <= height,
            height == grid.len(),
            g == rows(grid@),
            width % 64 == 0,
            words_per_row == width / 64,
            forall|k: int| 0 <= k < height ==> (#[trigger] grid@[k]).len() == width,
            board.len() == r,
            forall|k: int| 0 <= k < r ==> (#[trigger] board@[k]).len() == words_per_row,
            forall|k: int, c: int|
                0 <= k < r && 0 <= c < width ==> #[trigger] row_cell(board@[k]@, c) == g[k][c],
        decreases height - r,
    {
        let row: &Vec<bool> = &grid[r];
        let mut packed: Vec<u64> = zero_row(words_per_row);
        proof {
            assert forall|wi: int, j: int|
                0 <= wi < words_per_row && 0 <= j < 64 implies !#[trigger] bit(packed@[wi], j) by {
                crate::bitboard::lemma_zero_word(j);
            }
        }
        let mut col: usize = 0;
        while col < width
            invariant
                col <= width,
                width % 64 == 0,
                words_per_row == width / 64,
                row.len() == width,
                packed.len() == words_per_row,
                forall|wi: int, j: int|
                    0 <= wi < words_per_row && 0 <= j < 64 ==> #[trigger] bit(packed@[wi], j) == (
                    wi * 64 + j < col && row@[wi * 64 + j]),
            decreases width - col,
        {
            if row[col] {
                let wi: usize = col / 64;
                let bi: u64 = (col % 64) as u64;
                let ghost before = packed@;
                let word: u64 = packed[wi] | (1u64 << bi);
                packed[wi] = word;
                proof {
                    assert forall|k: int, j: int|
                        0 <= k < words_per_row && 0 <= j < 64 implies #[trigger] bit(
                        packed@[k],
                        j,
                    ) == (k * 64 + j < col + 1 && row@[k * 64 + j]) by {
                        if k == wi {
                            lemma_set_bit(before[k], bi, j);
                        }
                    }
                }
            }
            col = col + 1;
        }
        board.push(packed);
        r = r + 1;
    }
    proof {
        let a = cells(words(board@), width as int);
        assert forall|k: int| 0 <= k < height implies a[k] == g[k] by {
            assert forall|c: int| 0 <= c < width implies a[k][c] == g[k][c] by {
                assert(row_cell(board@[k]@, c) == g[k][c]);
            }
            assert(a[k] =~= g[k]);
        }
        assert(a =~= g);
    }
    (board, width)
}

} // verus!
