//! The kernels agree: whichever representation a grid is given in, and
//! whichever kernel runs it, what comes out pictures the same grid, the one
//! that the automaton defines.

use crate::bitboard::{cells, lemma_same_cells_same_words, well_formed};
use crate::index::lemma_index_cell;
use crate::life::{is_rect, lemma_run_shape, run, width_of};
use crate::padded::{binary, flat_cells, flat_of, flat_run};
use crate::utils::conversion::{
    flattened, lemma_flattened_cells, lemma_flattened_index, lemma_flattened_len,
};
use vstd::prelude::*;

verus! {

/// Writing a rectangular grid over a buffer of exactly its size gives the
/// flattened grid.
pub proof fn lemma_flat_of_is_flattened(g: Seq<Seq<bool>>, base: Seq<u8>)
    requires
        is_rect(g),
        base.len() == g.len() * width_of(g),
    ensures
        flat_of(g, g.len() as int, width_of(g) as int, base) == flattened(g),
{
    let h = g.len() as int;
    let w = width_of(g) as int;
    let a = flat_of(g, h, w, base);
    let z = flattened(g);
    assert forall|k: int| 0 <= k < g.len() implies (#[trigger] g[k]).len() == w by {
        assert(g[k].len() == g[0].len());
    }
    lemma_flattened_len(g, w);
    assert forall|i: int| 0 <= i < a.len() implies a[i] == z[i] by {
        assert(0 < w) by (nonlinear_arith)
            requires
                0 <= i < h * w,
                0 <= w,
        ;
        lemma_index_cell(i, h, w);
        lemma_flattened_index(g, w, i / w, i % w);
    }
    assert(a =~= z);
}

/// The flat kernels agree with the plain ones: running the flattened grid
/// gives the flattening of the grid that was run. The serial and the
/// row-parallel flat kernel both return `flat_run`, the two plain kernels
/// both return `run`.
pub proof fn lemma_flat_kernels_agree(g: Seq<Seq<bool>>, n: nat)
    requires
        is_rect(g),
        width_of(g) > 0,
    ensures
        flat_run(flattened(g), width_of(g) as int, n) == flattened(run(g, n)),
        flat_cells(flat_run(flattened(g), width_of(g) as int, n), g.len() as int, width_of(g) as int)
            == run(g, n),
{
    let h = g.len() as int;
    let w = width_of(g) as int;
    let f = flattened(g);
    lemma_flattened_cells(g);
    vstd::arithmetic::div_mod::lemma_div_multiples_vanish(h, w);
    vstd::arithmetic::mul::lemma_mul_is_commutative(h, w);
    assert(f.len() as int / w == h);
    lemma_run_shape(g, n);
    let out = run(g, n);
    if h > 0 {
        lemma_flat_of_is_flattened(out, f);
    } else {
        assert(flat_of(out, h, w, f) =~= flattened(out));
    }
    lemma_flattened_cells(out);
}

/// The packed kernels agree with the plain ones: a well-formed board that
/// pictures `n` generations of what `board` pictures is, word for word, any
/// well-formed board that pictures `n` generations of the same grid. The
/// serial and the partitioned packed kernel both return such a board, and so
/// does packing what a plain kernel returns.
pub proof fn lemma_packed_kernels_agree(
    g: Seq<Seq<bool>>,
    board: Seq<Seq<u64>>,
    width: int,
    n: nat,
    out: Seq<Seq<u64>>,
    packed_plain: Seq<Seq<u64>>,
)
    requires
        well_formed(board, width),
        cells(board, width) == g,
        well_formed(out, width),
        cells(out, width) == run(cells(board, width), n),
        well_formed(packed_plain, width),
        cells(packed_plain, width) == run(g, n),
    ensures
        out == packed_plain,
{
    lemma_same_cells_same_words(out, packed_plain, width);
}

/// The flat kernel agrees with the packed one: on a grid whose width is a
/// multiple of 64, the flat buffer that comes out pictures the cells that
/// the board that comes out pictures.
pub proof fn lemma_flat_and_packed_agree(
    g: Seq<Seq<bool>>,
    board: Seq<Seq<u64>>,
    n: nat,
    out: Seq<Seq<u64>>,
)
    requires
        is_rect(g),
        width_of(g) > 0,
        well_formed(board, width_of(g) as int),
        cells(board, width_of(g) as int) == g,
        well_formed(out, width_of(g) as int),
        cells(out, width_of(g) as int) == run(cells(board, width_of(g) as int), n),
    ensures
        flat_cells(flat_run(flattened(g), width_of(g) as int, n), g.len() as int, width_of(g) as int)
            == cells(out, width_of(g) as int),
{
    lemma_flat_kernels_agree(g, n);
}

/// The serial and the row-parallel flat kernel return the same bytes.
pub proof fn lemma_parallel_rows_same_bytes(
    flat: Seq<u8>,
    width: int,
    n: nat,
    serial: Seq<u8>,
    parallel: Seq<u8>,
)
    requires
        serial == flat_run(flat, width, n),
        parallel == flat_run(flat, width, n),
    ensures
        serial == parallel,
{
}

/// The serial and the partitioned packed kernel return the same words,
/// whatever the number of workers: both boards are well formed and picture
/// `n` generations of what `board` pictures.
pub proof fn lemma_partitioned_same_words(
    board: Seq<Seq<u64>>,
    width: int,
    n: nat,
    serial: Seq<Seq<u64>>,
    partitioned: Seq<Seq<u64>>,
)
    requires
        well_formed(serial, width),
        cells(serial, width) == run(cells(board, width), n),
        well_formed(partitioned, width),
        cells(partitioned, width) == run(cells(board, width), n),
    ensures
        serial == partitioned,
{
    lemma_same_cells_same_words(serial, partitioned, width);
}

/// Zero generations change nothing: a flat buffer of 0 and 1 comes back as
/// it was, and so does every grid.
pub proof fn lemma_zero_generations(flat: Seq<u8>, width: int, g: Seq<Seq<bool>>)
    requires
        binary(flat),
        0 < width,
    ensures
        flat_run(flat, width, 0) == flat,
        run(g, 0) == g,
{
    crate::padded::lemma_rows_fit(flat.len() as int, width);
    crate::padded::lemma_flat_of_cells(flat, flat.len() as int / width, width);
}

} // verus!
