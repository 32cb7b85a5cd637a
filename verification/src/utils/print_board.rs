//! Grids as lines of text: `X` for a live cell, `.` for a dead one, one line
//! for each row.

use crate::index::lemma_cell_index;
use crate::life::{is_rect, rows, width_of};
use crate::padded::{byte_rows, lemma_rows_fit};
use crate::utils::initialize_grid::{all_cells, is_cell, longest, parsed, ALIVE, DEAD};
use vstd::prelude::*;

verus! {

/// The character of a cell.
pub open spec fn symbol(live: bool) -> u8 {
    if live {
        ALIVE
    } else {
        DEAD
    }
}

/// The lines that picture a grid.
pub open spec fn text_of(g: Seq<Seq<bool>>) -> Seq<Seq<u8>> {
    Seq::new(g.len(), |r: int| Seq::new(g[r].len(), |c: int| symbol(g[r][c])))
}

/// The lines that picture a flat grid with rows of `width` cells. Every
/// byte but 0 is shown as a live cell; bytes after the last whole row are
/// not shown.
pub open spec fn flat_text(flat: Seq<u8>, width: int) -> Seq<Seq<u8>> {
    Seq::new(
        (flat.len() as int / width) as nat,
        |y: int| Seq::new(width as nat, |x: int| symbol(flat[y * width + x] != 0)),
    )
}

/// The character of a cell.
pub fn cell_symbol(live: bool) -> (ch: u8)
    ensures
        ch == symbol(live),
{
    if live {
        ALIVE
    } else {
        DEAD
    }
}

/// The grid as lines of text.
pub fn grid_lines(grid: &Vec<Vec<bool>>) -> (lines: Vec<Vec<u8>>)
    ensures
        byte_rows(lines@) == text_of(rows(grid@)),
{
    let mut lines: Vec<Vec<u8>> = Vec::new();
    let mut r: usize = 0;
    while r < grid.len()
        invariant
            r <= grid.len(),
            lines.len() == r,
            forall|k: int| 0 <= k < r ==> (#[trigger] lines@[k])@ == text_of(rows(grid@))[k],
        decreases grid.len() - r,
    {
        let row: &Vec<bool> = &grid[r];
        let mut line: Vec<u8> = Vec::new();
        let mut c: usize = 0;
        while c < row.len()
            invariant
                c <= row.len(),
                line.len() == c,
                forall|k: int| 0 <= k < c ==> #[trigger] line@[k] == symbol(row@[k]),
            decreases row.len() - c,
        {
            line.push(cell_symbol(row[c]));
            c = c + 1;
        }
        assert(line@ =~= text_of(rows(grid@))[r as int]);
        lines.push(line);
        r = r + 1;
    }
    assert(byte_rows(lines@) =~= text_of(rows(grid@)));
    lines
}

/// The flat grid with rows of `width` cells as lines of text.
pub fn flat_lines(flat: &Vec<u8>, width: usize) -> (lines: Vec<Vec<u8>>)
    requires
        width > 0,
    ensures
        byte_rows(lines@) == flat_text(flat@, width as int),
{
    let height: usize = flat.len() / width;
    proof {
        lemma_rows_fit(flat.len() as int, width as int);
    }
    let mut lines: Vec<Vec<u8>> = Vec::new();
    let mut y: usize = 0;
    while y < height
        invariant
            y <= height,
            height == flat.len() / width,
            height * width <= flat.len(),
            lines.len() == y,
            forall|k: int| 0 <= k < y ==> (#[trigger] lines@[k])@ == flat_text(flat@, width as int)[k],
        decreases height - y,
    {
        let mut line: Vec<u8> = Vec::new();
        let mut x: usize = 0;
        while x < width
            invariant
                x <= width,
                y < height,
                height * width <= flat.len(),
                line.len() == x,
                forall|k: int|
                    0 <= k < x ==> #[trigger] line@[k] == symbol(flat@[y * width + k] != 0),
            decreases width - x,
        {
            proof {
                lemma_cell_index(y as int, x as int, height as int, width as int);
            }
            let idx: usize = y * width + x;
            line.push(cell_symbol(flat[idx] != 0));
            x = x + 1;
        }
        assert(line@ =~= flat_text(flat@, width as int)[y as int]);
        lines.push(line);
        y = y + 1;
    }
    assert(byte_rows(lines@) =~= flat_text(flat@, width as int));
    lines
}

/// Lines that are all `w` bytes long have `w` as their longest length.
proof fn lemma_longest_uniform(lines: Seq<Seq<u8>>, w: nat)
    requires
        lines.len() > 0,
        forall|i: int| 0 <= i < lines.len() ==> (#[trigger] lines[i]).len() == w,
    ensures
        longest(lines) == w,
    decreases lines.len(),
{
    if lines.len() > 1 {
        lemma_longest_uniform(lines.drop_last(), w);
    } else {
        assert(longest(lines.drop_last()) == 0);
    }
}

/// Reading the text of a rectangular grid gives the grid back: every byte
/// of the text is `X` or `.`, and the lines picture the grid.
pub proof fn lemma_text_round_trip(g: Seq<Seq<bool>>)
    requires
        is_rect(g),
    ensures
        all_cells(text_of(g)),
        parsed(text_of(g)) == g,
{
    let t = text_of(g);
    assert forall|i: int, j: int| 0 <= i < t.len() && 0 <= j < t[i].len() implies #[trigger] is_cell(
        t,
        i,
        j,
    ) by {
        assert(t[i][j] == symbol(g[i][j]));
    }
    if g.len() > 0 {
        assert forall|i: int| 0 <= i < t.len() implies (#[trigger] t[i]).len() == width_of(g) by {
            assert(g[i].len() == g[0].len());
        }
        lemma_longest_uniform(t, width_of(g));
    }
    let p = parsed(t);
    assert forall|r: int| 0 <= r < g.len() implies p[r] == g[r] by {
        assert(g[r].len() == g[0].len());
        assert(p[r] =~= g[r]);
    }
    assert(p =~= g);
}

} // verus!
