//! Row-major layouts: the cell in row `r` and column `c` of a buffer with
//! rows of `w` cells sits at index `r * w + c`.

use vstd::arithmetic::div_mod::{lemma_fundamental_div_mod, lemma_fundamental_div_mod_converse};
use vstd::arithmetic::mul::lemma_mul_is_commutative;
use vstd::prelude::*;

verus! {

/// A cell inside an `h` by `w` layout has an index inside the buffer, and
/// row and column are found again from the index by division.
pub proof fn lemma_cell_index(r: int, c: int, h: int, w: int)
    requires
        0 <= r < h,
        0 <= c < w,
    ensures
        0 <= r * w,
        0 <= r * w + c < h * w,
        (r * w + c) / w == r,
        (r * w + c) % w == c,
{
    assert(0 <= r * w && r * w + c < h * w) by (nonlinear_arith)
        requires
            0 <= r < h,
            0 <= c < w,
    ;
    lemma_fundamental_div_mod_converse(r * w + c, w, r, c);
}

/// An index inside the buffer of an `h` by `w` layout is a cell inside the
/// layout.
pub proof fn lemma_index_cell(i: int, h: int, w: int)
    requires
        0 <= i < h * w,
        0 < w,
    ensures
        0 <= i / w < h,
        0 <= i % w < w,
        i == (i / w) * w + i % w,
{
    lemma_fundamental_div_mod(i, w);
    lemma_mul_is_commutative(w, i / w);
    let q = i / w;
    assert(0 <= q < h) by (nonlinear_arith)
        requires
            i == q * w + i % w,
            0 <= i % w < w,
            0 <= i < h * w,
            0 < w,
    ;
}

/// The index of a cell moved by `dr` rows and `dc` columns is the index of
/// the cell moved by `dr * w + dc`.
pub proof fn lemma_shifted_index(r: int, c: int, dr: int, dc: int, w: int)
    ensures
        (r + dr) * w + (c + dc) == r * w + c + dr * w + dc,
{
    assert((r + dr) * w == r * w + dr * w) by (nonlinear_arith);
}

} // verus!
