//! The growth policy of the growable variants. A square flat grid is
//! enlarged before a generation whenever a live cell lies within a margin of
//! its edge: the new side is the smallest multiple of 64 that leaves at least
//! one dead cell on every side, and the old content sits in the middle.

use crate::index::{lemma_cell_index, lemma_index_cell};
use crate::life::{alive, live_neighbors, step};
use crate::padded::{binary, flat_cells, flat_of, lemma_cells_of_flat};
use vstd::prelude::*;

verus! {

/// How close to the edge a live cell may come before the grid grows.
pub const MARGIN: usize = 5;

/// The outcome of looking at the margin.
#[derive(Clone, Copy, Debug, PartialEq, Eq, Structural)]
pub enum Growth {
    /// No live cell is near the edge.
    NoGrowthNeeded,
    /// A live cell is near the edge; the grid is to have this many rows and
    /// columns.
    GrowTo(usize),
}

/// Whether the cell at (`r`, `c`) of a square of side `size` lies in the
/// margin: in the first or last `margin` rows, or the first or last `margin`
/// columns. In a square of at most `2 * margin` rows every cell does.
pub open spec fn in_band(r: int, c: int, size: int, margin: int) -> bool {
    r < margin || r >= size - margin || c < margin || c >= size - margin
}

/// Whether a live cell of the square flat grid lies in the margin.
pub open spec fn near_edge(grid: Seq<u8>, width: int, margin: int) -> bool {
    exists|r: int, c: int|
        0 <= r < width && 0 <= c < width && in_band(r, c, width, margin) && #[trigger] grid[r
            * width + c] == 1
}

/// The side of the grown grid: the smallest multiple of 64 that is at least
/// `width + 2`.
pub open spec fn grown_size(width: int) -> int {
    ((width + 2 + 63) / 64) * 64
}

/// Dead rows above the old content in the grown grid, and dead columns to
/// its left: one, and half of what rounding up to a multiple of 64 added.
pub open spec fn pad_each(width: int) -> int {
    1 + (grown_size(width) - (width + 2)) / 2
}

/// The grown grid: the old content moved down and right by `pad_each`,
/// dead cells everywhere else.
pub open spec fn grown(grid: Seq<u8>, width: int) -> Seq<u8> {
    let n = grown_size(width);
    let p = pad_each(width);
    Seq::new(
        (n * n) as nat,
        |i: int|
            if p <= i / n < p + width && p <= i % n < p + width {
                grid[(i / n - p) * width + (i % n - p)]
            } else {
                0u8
            },
    )
}

/// What the policy decides for a grid.
pub open spec fn decision(grid: Seq<u8>, width: int, margin: int) -> Growth {
    if near_edge(grid, width, margin) {
        Growth::GrowTo(grown_size(width) as usize)
    } else {
        Growth::NoGrowthNeeded
    }
}

/// Whether a cell of row `r` in columns `from..to` is alive.
fn row_has_live(grid: &Vec<u8>, width: usize, r: usize, from: usize, to: usize) -> (found: bool)
    requires
        grid.len() == width * width,
        r < width,
        from <= to <= width,
    ensures
        found == exists|c: int| from <= c < to && #[trigger] grid@[r * width + c] == 1,
{
    proof {
        lemma_cell_index(r as int, 0, width as int, width as int);
    }
    let base: usize = r * width;
    let mut c: usize = from;
    while c < to
        invariant
            from <= c <= to,
            to <= width,
            r < width,
            base == r * width,
            grid.len() == width * width,
            forall|k: int| from <= k < c ==> #[trigger] grid@[r * width + k] != 1,
        decreases to - c,
    {
        proof {
            lemma_cell_index(r as int, c as int, width as int, width as int);
        }
        if grid[base + c] == 1 {
            return true;
        }
        c = c + 1;
    }
    false
}

/// Whether a live cell lies in the margin of the square flat grid.
pub fn is_near_edge(grid: &Vec<u8>, width: usize, margin: usize) -> (near: bool)
    requires
        grid.len() == width * width,
    ensures
        near == near_edge(grid@, width as int, margin as int),
{
    let mut r: usize = 0;
    while r < width
        invariant
            r <= width,
            grid.len() == width * width,
            forall|k: int, c: int|
                0 <= k < r && 0 <= c < width && in_band(k, c, width as int, margin as int)
                    ==> #[trigger] grid@[k * width + c] != 1,
        decreases width - r,
    {
        if r < margin || margin >= width || r >= width - margin {
            if row_has_live(grid, width, r, 0, width) {
                return true;
            }
        } else {
            if row_has_live(grid, width, r, 0, margin) {
                return true;
            }
            if row_has_live(grid, width, r, width - margin, width) {
                return true;
            }
        }
        r = r + 1;
    }
    false
}

/// Decides whether the grid must grow before the next generation, and to
/// what size.
pub fn growth_decision(grid: &Vec<u8>, width: usize, margin: usize) -> (growth: Growth)
    requires
        grid.len() == width * width,
        near_edge(grid@, width as int, margin as int) ==> grown_size(width as int) <= usize::MAX,
    ensures
        growth == decision(grid@, width as int, margin as int),
{
    if is_near_edge(grid, width, margin) {
        let intermediate: usize = width + 2;
        Growth::GrowTo(((intermediate + 63) / 64) * 64)
    } else {
        Growth::NoGrowthNeeded
    }
}

/// The grown size is the smallest multiple of 64 that is at least
/// `width + 2`, and the old content fits between the padding on both sides.
pub proof fn lemma_grown_size(width: int)
    requires
        0 <= width,
    ensures
        grown_size(width) % 64 == 0,
        grown_size(width) >= width + 2,
        pad_each(width) >= 1,
        width + 2 * pad_each(width) <= grown_size(width),
        width % 64 == 0 ==> grown_size(width) == width + 64 && pad_each(width) == 32,
{
}

/// No multiple of 64 that is at least `width + 2` is smaller than the grown
/// size.
pub proof fn lemma_grown_size_least(width: int, m: int)
    requires
        0 <= width,
        m % 64 == 0,
        m >= width + 2,
    ensures
        m >= grown_size(width),
{
}

/// Writes the grown grid into `out_buf`: `grown_size(width)` rows and
/// columns, the old content in the middle. Returns the new size.
pub fn grow(grid: &Vec<u8>, width: usize, out_buf: &mut Vec<u8>) -> (new_size: usize)
    requires
        grid.len() == width * width,
        grown_size(width as int) * grown_size(width as int) <= usize::MAX,
    ensures
        new_size == grown_size(width as int),
        final(out_buf)@ == grown(grid@, width as int),
{
    proof {
        lemma_grown_size(width as int);
        let n = grown_size(width as int);
        assert(n <= n * n) by (nonlinear_arith)
            requires
                n >= 2,
        ;
    }
    let intermediate: usize = width + 2;
    let new_size: usize = ((intermediate + 63) / 64) * 64;
    let extra: usize = new_size - intermediate;
    let pad: usize = 1 + extra / 2;
    out_buf.clear();
    out_buf.resize(new_size * new_size, 0);
    let ghost len = (new_size * new_size) as int;
    assert(out_buf@ =~= Seq::new(len as nat, |i: int| 0u8));
    let mut r: usize = 0;
    while r < width
        invariant
            r <= width,
            grid.len() == width * width,
            new_size == grown_size(width as int),
            pad == pad_each(width as int),
            width + 2 * pad <= new_size,
            len == new_size * new_size,
            len <= usize::MAX,
            out_buf.len() == len,
            forall|i: int|
                0 <= i < len ==> #[trigger] out_buf@[i] == if pad <= i / (new_size as int) < pad + r
                    && pad <= i % (new_size as int) < pad + width {
                    grid@[(i / (new_size as int) - pad) * width + (i % (new_size as int) - pad)]
                } else {
                    0u8
                },
        decreases width - r,
    {
        let mut c: usize = 0;
        while c < width
            invariant
                r < width,
                c <= width,
                grid.len() == width * width,
                new_size == grown_size(width as int),
                pad == pad_each(width as int),
                width + 2 * pad <= new_size,
                len == new_size * new_size,
                len <= usize::MAX,
                out_buf.len() == len,
                forall|i: int|
                    0 <= i < len ==> #[trigger] out_buf@[i] == if pad <= i / (new_size as int)
                        && pad <= i % (new_size as int) < pad + width && (i / (new_size as int)
                        < pad + r || (i / (new_size as int) == pad + r && i % (new_size as int)
                        < pad + c)) {
                        grid@[(i / (new_size as int) - pad) * width + (i % (new_size as int)
                            - pad)]
                    } else {
                        0u8
                    },
            decreases width - c,
        {
            proof {
                lemma_cell_index(r as int, c as int, width as int, width as int);
                lemma_cell_index(r + pad, c + pad, new_size as int, new_size as int);
            }
            let src: usize = r * width + c;
            let dst: usize = (r + pad) * new_size + (c + pad);
            let ghost before = out_buf@;
            out_buf[dst] = grid[src];
            c = c + 1;
            proof {
                assert forall|i: int| 0 <= i < len implies #[trigger] out_buf@[i] == if pad <= i / (
                new_size as int) && pad <= i % (new_size as int) < pad + width && (i / (
                new_size as int) < pad + r || (i / (new_size as int) == pad + r && i % (
                new_size as int) < pad + c)) {
                    grid@[(i / (new_size as int) - pad) * width + (i % (new_size as int) - pad)]
                } else {
                    0u8
                } by {
                    lemma_index_cell(i, new_size as int, new_size as int);
                    assert(i != dst ==> out_buf@[i] == before[i]);
                }
            }
        }
        r = r + 1;
    }
    assert(out_buf@ =~= grown(grid@, width as int));
    new_size
}

/// Looks at the margin of a square flat grid. Where no live cell is within
/// `margin` cells of the edge, `out_buf` is left alone and `width` comes
/// back. Otherwise `out_buf` receives the grown grid and its size comes
/// back.
pub fn extend_with_margin(grid: &Vec<u8>, width: usize, margin: usize, out_buf: &mut Vec<u8>) -> (new_width:
    usize)
    requires
        grid.len() == width * width,
        near_edge(grid@, width as int, margin as int) ==> grown_size(width as int) * grown_size(
            width as int,
        ) <= usize::MAX,
    ensures
        !near_edge(grid@, width as int, margin as int) ==> new_width == width && final(out_buf)@
            == old(out_buf)@,
        near_edge(grid@, width as int, margin as int) ==> new_width == grown_size(width as int)
            && final(out_buf)@ == grown(grid@, width as int),
{
    proof {
        lemma_grown_size(width as int);
        let n = grown_size(width as int);
        assert(n <= n * n) by (nonlinear_arith)
            requires
                n >= 2,
        ;
    }
    match growth_decision(grid, width, margin) {
        Growth::NoGrowthNeeded => width,
        Growth::GrowTo(_) => grow(grid, width, out_buf),
    }
}

/// Looks at the margin of five cells of a square flat grid whose side is a
/// multiple of 64. Where no live cell is near the edge, `out_buf` is left
/// alone and `width` comes back. Otherwise `out_buf` receives the grown grid,
/// 64 cells larger each way, and its size comes back.
pub fn extend_flat_grid_to_square64(grid: &Vec<u8>, width: usize, out_buf: &mut Vec<u8>) -> (new_width:
    usize)
    requires
        width % 64 == 0,
        grid.len() == width * width,
        near_edge(grid@, width as int, MARGIN as int) ==> (width + 64) * (width + 64)
            <= usize::MAX,
    ensures
        !near_edge(grid@, width as int, MARGIN as int) ==> new_width == width && final(out_buf)@
            == old(out_buf)@,
        near_edge(grid@, width as int, MARGIN as int) ==> new_width == width + 64
            && final(out_buf)@ == grown(grid@, width as int),
{
    proof {
        lemma_grown_size(width as int);
    }
    extend_with_margin(grid, width, MARGIN, out_buf)
}

/// Growth keeps the content: the cell at (`r`, `c`) of the grown grid is the
/// old cell at (`r - pad_each`, `c - pad_each`), and every cell that has no
/// old cell there is dead. The grown grid is a square of `grown_size` rows
/// and holds only 0 and 1 if the old one did.
pub proof fn lemma_growth_keeps_content(grid: Seq<u8>, width: int, r: int, c: int)
    requires
        0 <= width,
        grid.len() == width * width,
    ensures
        grown(grid, width).len() == grown_size(width) * grown_size(width),
        alive(flat_cells(grown(grid, width), grown_size(width), grown_size(width)), r, c) == alive(
            flat_cells(grid, width, width),
            r - pad_each(width),
            c - pad_each(width),
        ),
        binary(grid) ==> binary(grown(grid, width)),
{
    let n = grown_size(width);
    let p = pad_each(width);
    let big = grown(grid, width);
    lemma_grown_size(width);
    assert(n * n >= 0) by (nonlinear_arith);
    if 0 <= r < n && 0 <= c < n {
        lemma_cell_index(r, c, n, n);
        if p <= r < p + width && p <= c < p + width {
            lemma_cell_index(r - p, c - p, width, width);
        }
    }
    if binary(grid) {
        assert forall|i: int| 0 <= i < big.len() implies #[trigger] big[i] <= 1 by {
            lemma_index_cell(i, n, n);
            if p <= i / n < p + width && p <= i % n < p + width {
                lemma_cell_index(i / n - p, i % n - p, width, width);
            }
        }
    }
}

/// Growth keeps the surroundings of every cell: a cell of the grown grid has
/// as many live neighbours as the old cell that it came from, counted with
/// everything outside the old grid dead. So the generation after growth
/// holds what the old grid, stepped without an edge in the way, would hold
/// there.
pub proof fn lemma_growth_keeps_neighbors(grid: Seq<u8>, width: int, r: int, c: int)
    requires
        0 <= width,
        grid.len() == width * width,
    ensures
        live_neighbors(
            flat_cells(grown(grid, width), grown_size(width), grown_size(width)),
            r,
            c,
        ) == live_neighbors(
            flat_cells(grid, width, width),
            r - pad_each(width),
            c - pad_each(width),
        ),
{
    lemma_growth_keeps_content(grid, width, r - 1, c - 1);
    lemma_growth_keeps_content(grid, width, r - 1, c);
    lemma_growth_keeps_content(grid, width, r - 1, c + 1);
    lemma_growth_keeps_content(grid, width, r, c - 1);
    lemma_growth_keeps_content(grid, width, r, c + 1);
    lemma_growth_keeps_content(grid, width, r + 1, c - 1);
    lemma_growth_keeps_content(grid, width, r + 1, c);
    lemma_growth_keeps_content(grid, width, r + 1, c + 1);
}

/// One generation of a growable grid: the grid and its side are replaced by
/// the grown ones if a live cell is within `margin` cells of the edge, and
/// the result is stepped.
pub open spec fn grow_step(state: (Seq<u8>, int), margin: int) -> (Seq<u8>, int) {
    let flat = if near_edge(state.0, state.1, margin) {
        grown(state.0, state.1)
    } else {
        state.0
    };
    let w = if near_edge(state.0, state.1, margin) {
        grown_size(state.1)
    } else {
        state.1
    };
    (flat_of(step(flat_cells(flat, w, w)), w, w, flat), w)
}

/// A growable grid and its side after `n` generations.
pub open spec fn grow_run(flat: Seq<u8>, width: int, margin: int, n: nat) -> (Seq<u8>, int)
    decreases n,
{
    if n == 0 {
        (flat, width)
    } else {
        grow_step(grow_run(flat, width, margin, (n - 1) as nat), margin)
    }
}

/// A generation of a growable grid leaves a square grid of 0 and 1 whose
/// side is a multiple of 64, and never a smaller one: the side stays or
/// grows by 64.
pub proof fn lemma_grow_step_shape(flat: Seq<u8>, width: int, margin: int)
    requires
        0 <= width,
        width % 64 == 0,
        flat.len() == width * width,
        binary(flat),
    ensures
        grow_step((flat, width), margin).1 == width || grow_step((flat, width), margin).1 == width
            + 64,
        grow_step((flat, width), margin).1 % 64 == 0,
        grow_step((flat, width), margin).0.len() == grow_step((flat, width), margin).1 * grow_step(
            (flat, width),
            margin,
        ).1,
        binary(grow_step((flat, width), margin).0),
{
    lemma_grown_size(width);
    lemma_growth_keeps_content(flat, width, 0, 0);
    let f = if near_edge(flat, width, margin) {
        grown(flat, width)
    } else {
        flat
    };
    let w = if near_edge(flat, width, margin) {
        grown_size(width)
    } else {
        width
    };
    lemma_cells_of_flat(step(flat_cells(f, w, w)), w, w, f);
}

/// Over any number of generations the side of a growable grid never
/// shrinks, stays a multiple of 64, and grows by at most 64 a generation.
pub proof fn lemma_grow_run_shape(flat: Seq<u8>, width: int, margin: int, n: nat)
    requires
        0 <= width,
        width % 64 == 0,
        flat.len() == width * width,
        binary(flat),
    ensures
        width <= grow_run(flat, width, margin, n).1 <= width + 64 * n,
        grow_run(flat, width, margin, n).1 % 64 == 0,
        grow_run(flat, width, margin, n).0.len() == grow_run(flat, width, margin, n).1 * grow_run(
            flat,
            width,
            margin,
            n,
        ).1,
        binary(grow_run(flat, width, margin, n).0),
    decreases n,
{
    if n > 0 {
        lemma_grow_run_shape(flat, width, margin, (n - 1) as nat);
        let before = grow_run(flat, width, margin, (n - 1) as nat);
        lemma_grow_step_shape(before.0, before.1, margin);
    }
}

/// A square grid of side `w` and its padded buffer can be addressed.
pub open spec fn fits(w: int) -> bool {
    (w + 2) * (w + 2) <= usize::MAX
}

/// Every size that the growable grid takes in its first `n` generations can
/// be addressed.
pub open spec fn run_fits(flat: Seq<u8>, width: int, margin: int, n: nat) -> bool {
    forall|k: nat| 1 <= k <= n ==> fits((#[trigger] grow_run(flat, width, margin, k)).1)
}

/// A grid that could be addressed even if it grew in every generation can
/// be addressed at every size it takes.
pub proof fn lemma_run_fits(flat: Seq<u8>, width: int, margin: int, n: nat)
    requires
        0 <= width,
        width % 64 == 0,
        flat.len() == width * width,
        binary(flat),
        (width + 64 * n + 2) * (width + 64 * n + 2) <= usize::MAX,
    ensures
        run_fits(flat, width, margin, n),
{
    assert forall|k: nat| 1 <= k <= n implies fits((#[trigger] grow_run(flat, width, margin, k)).1) by {
        lemma_grow_run_shape(flat, width, margin, k);
        let w = grow_run(flat, width, margin, k).1;
        let top = width + 64 * n + 2;
        assert((w + 2) * (w + 2) <= top * top) by (nonlinear_arith)
            requires
                0 <= w + 2 <= top,
        ;
    }
}

} // verus!
