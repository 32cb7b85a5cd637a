//! From the lines of a text to a grid that the kernels take: `X` is a live
//! cell and `.` a dead one, short lines are filled up with dead cells, and
//! the grid is then set in the middle of a square whose side is a multiple
//! of 64.

use crate::life::{alive, is_rect, rows, width_of};
use crate::padded::byte_rows;
use vstd::prelude::*;

verus! {

/// The character of a live cell, `X`.
pub const ALIVE: u8 = 88;

/// The character of a dead cell, `.`.
pub const DEAD: u8 = 46;

/// A byte that is neither `X` nor `.`, and where it stands.
#[derive(Clone, Copy, Debug, PartialEq, Eq, Structural)]
pub struct UnexpectedCharacter {
    /// Index of the line.
    pub line: usize,
    /// Index of the byte in the line.
    pub offset: usize,
}

/// Length of the longest line.
pub open spec fn longest(lines: Seq<Seq<u8>>) -> nat
    decreases lines.len(),
{
    if lines.len() == 0 {
        0
    } else {
        let rest = longest(lines.drop_last());
        if lines.last().len() > rest {
            lines.last().len()
        } else {
            rest
        }
    }
}

/// Whether the byte at `offset` of line `line` is `X` or `.`.
pub open spec fn is_cell(lines: Seq<Seq<u8>>, line: int, offset: int) -> bool {
    lines[line][offset] == ALIVE || lines[line][offset] == DEAD
}

/// Every byte of every line is `X` or `.`.
pub open spec fn all_cells(lines: Seq<Seq<u8>>) -> bool {
    forall|i: int, j: int|
        0 <= i < lines.len() && 0 <= j < lines[i].len() ==> #[trigger] is_cell(lines, i, j)
}

/// The grid that lines of `X` and `.` picture: one row for each line, every
/// row as long as the longest line, dead where a line has ended.
pub open spec fn parsed(lines: Seq<Seq<u8>>) -> Seq<Seq<bool>> {
    Seq::new(
        lines.len(),
        |i: int| Seq::new(longest(lines), |j: int| j < lines[i].len() && lines[i][j] == ALIVE),
    )
}

/// No line is longer than the longest.
pub proof fn lemma_longest(lines: Seq<Seq<u8>>, i: int)
    requires
        0 <= i < lines.len(),
    ensures
        lines[i].len() <= longest(lines),
    decreases lines.len(),
{
    if i < lines.len() - 1 {
        lemma_longest(lines.drop_last(), i);
    }
}

/// Length of the longest line.
pub fn longest_line(lines: &Vec<Vec<u8>>) -> (max: usize)
    ensures
        max == longest(byte_rows(lines@)),
{
    let ghost all = byte_rows(lines@);
    let mut max: usize = 0;
    let mut i: usize = 0;
    assert(all.take(0) =~= Seq::<Seq<u8>>::empty());
    while i < lines.len()
        invariant
            i <= lines.len(),
            all == byte_rows(lines@),
            max == longest(all.take(i as int)),
        decreases lines.len() - i,
    {
        if lines[i].len() > max {
            max = lines[i].len();
        }
        i = i + 1;
        proof {
            assert(all.take(i as int).drop_last() =~= all.take(i - 1));
            assert(all.take(i as int).last() == lines@[i - 1]@);
        }
    }
    assert(all.take(lines.len() as int) =~= all);
    max
}

/// Reads lines of `X` and `.` as a grid. Short lines are filled up with dead
/// cells to the length of the longest. The first byte that is neither `X`
/// nor `.`, in reading order, is returned as the error.
pub fn parse_grid(lines: &Vec<Vec<u8>>) -> (result: Result<Vec<Vec<bool>>, UnexpectedCharacter>)
    ensures
        result is Ok <==> all_cells(byte_rows(lines@)),
        result matches Ok(grid) ==> rows(grid@) == parsed(byte_rows(lines@)),
        result matches Err(e) ==> {
            &&& e.line < lines.len()
            &&& e.offset < lines@[e.line as int].len()
            &&& !is_cell(byte_rows(lines@), e.line as int, e.offset as int)
            &&& forall|i: int, j: int|
                0 <= i <= e.line && 0 <= j < lines@[i].len() && (i < e.line || j < e.offset)
                    ==> #[trigger] is_cell(byte_rows(lines@), i, j)
        },
{
    let ghost all = byte_rows(lines@);
    let max_w: usize = longest_line(lines);
    let mut grid: Vec<Vec<bool>> = Vec::new();
    let mut i: usize = 0;
    while i < lines.len()
        invariant
            i <= lines.len(),
            all == byte_rows(lines@),
            max_w == longest(all),
            grid.len() == i,
            forall|k: int| 0 <= k < i ==> (#[trigger] grid@[k])@ == parsed(all)[k],
            forall|k: int, j: int|
                0 <= k < i && 0 <= j < lines@[k].len() ==> #[trigger] is_cell(all, k, j),
        decreases lines.len() - i,
    {
        let line: &Vec<u8> = &lines[i];
        proof {
            lemma_longest(all, i as int);
        }
        let mut row: Vec<bool> = Vec::new();
        let mut j: usize = 0;
        while j < line.len()
            invariant
                j <= line.len(),
                i < lines.len(),
                *line == lines@[i as int],
                all == byte_rows(lines@),
                row.len() == j,
                forall|c: int| 0 <= c < j ==> #[trigger] row@[c] == (line@[c] == ALIVE),
                forall|c: int| 0 <= c < j ==> #[trigger] is_cell(all, i as int, c),
                forall|k: int, c: int|
                    0 <= k < i && 0 <= c < lines@[k].len() ==> #[trigger] is_cell(all, k, c),
            decreases line.len() - j,
        {
            let ch: u8 = line[j];
            if ch == ALIVE {
                row.push(true);
            } else if ch == DEAD {
                row.push(false);
            } else {
                assert(!is_cell(all, i as int, j as int));
                return Err(UnexpectedCharacter { line: i, offset: j });
            }
            j = j + 1;
        }
        while row.len() < max_w
            invariant
                line.len() <= row.len() <= max_w,
                forall|c: int|
                    0 <= c < row.len() ==> #[trigger] row@[c] == (c < line.len() && line@[c]
                        == ALIVE),
            decreases max_w - row.len(),
        {
            row.push(false);
        }
        assert(row@ =~= parsed(all)[i as int]);
        grid.push(row);
        i = i + 1;
    }
    assert(rows(grid@) =~= parsed(all));
    Ok(grid)
}

/// `n`, rounded up to a multiple of 64.
pub open spec fn round_up_64(n: int) -> int {
    ((n + 63) / 64) * 64
}

/// Side of the square that a grid is set into: the larger of its height and
/// its width, each rounded up to a multiple of 64.
pub open spec fn square_side(g: Seq<Seq<bool>>) -> int {
    if round_up_64(g.len() as int) >= round_up_64(width_of(g) as int) {
        round_up_64(g.len() as int)
    } else {
        round_up_64(width_of(g) as int)
    }
}

/// Dead rows above the grid in the square: half of the rows added, rounded
/// down.
pub open spec fn pad_top(g: Seq<Seq<bool>>) -> int {
    (square_side(g) - g.len()) / 2
}

/// Dead cells to the left of every row of the grid in the square: half of
/// the columns added, rounded down.
pub open spec fn pad_left(g: Seq<Seq<bool>>) -> int {
    (square_side(g) - width_of(g)) / 2
}

/// A row of `n` dead cells.
pub open spec fn dead_cells(n: int) -> Seq<bool> {
    Seq::new(n as nat, |i: int| false)
}

/// The grid in the middle of its square. Every row of the grid gets the
/// same number of dead cells on the left and on the right, counted from the
/// width of the first row.
pub open spec fn squared(g: Seq<Seq<bool>>) -> Seq<Seq<bool>> {
    Seq::new(
        square_side(g) as nat,
        |i: int|
            if pad_top(g) <= i < pad_top(g) + g.len() {
                dead_cells(pad_left(g)) + g[i - pad_top(g)] + dead_cells(
                    square_side(g) - width_of(g) - pad_left(g),
                )
            } else {
                dead_cells(square_side(g))
            },
    )
}

/// A row of `n` dead cells.
pub fn dead_row(n: usize) -> (row: Vec<bool>)
    ensures
        row@ == dead_cells(n as int),
{
    let mut row: Vec<bool> = Vec::new();
    while row.len() < n
        invariant
            row.len() <= n,
            row@ == dead_cells(row.len() as int),
        decreases n - row.len(),
    {
        row.push(false);
        assert(row@ =~= dead_cells(row.len() as int));
    }
    row
}

/// Sets the grid in the middle of a square whose side is a multiple of 64.
pub fn pad_grid_to_multiple_of_64(grid: Vec<Vec<bool>>) -> (out: Vec<Vec<bool>>)
    requires
        grid.len() + 63 <= usize::MAX,
        width_of(rows(grid@)) + 63 <= usize::MAX,
    ensures
        rows(out@) == squared(rows(grid@)),
{
    let ghost g = rows(grid@);
    let mut grid = grid;
    let height: usize = grid.len();
    let width: usize = if height > 0 {
        grid[0].len()
    } else {
        0
    };
    let target_h: usize = ((height + 63) / 64) * 64;
    let target_w: usize = ((width + 63) / 64) * 64;
    let new_size: usize = if target_h >= target_w {
        target_h
    } else {
        target_w
    };
    let pad_vert: usize = new_size - height;
    let pad_horiz: usize = new_size - width;
    let top: usize = pad_vert / 2;
    let bottom: usize = pad_vert - top;
    let left: usize = pad_horiz / 2;
    let right: usize = pad_horiz - left;
    let mut out: Vec<Vec<bool>> = Vec::new();
    let mut i: usize = 0;
    while i < top
        invariant
            i <= top,
            out.len() == i,
            forall|k: int| 0 <= k < i ==> (#[trigger] out@[k])@ == dead_cells(new_size as int),
        decreases top - i,
    {
        out.push(dead_row(new_size));
        i = i + 1;
    }
    let mut r: usize = 0;
    while r < height
        invariant
            r <= height,
            height == grid.len(),
            out.len() == top + r,
            forall|k: int| r <= k < height ==> (#[trigger] grid@[k])@ == g[k],
            forall|k: int| 0 <= k < top ==> (#[trigger] out@[k])@ == dead_cells(new_size as int),
            forall|k: int|
                0 <= k < r ==> (#[trigger] out@[top + k])@ == dead_cells(left as int) + g[k]
                    + dead_cells(right as int),
        decreases height - r,
    {
        let mut row: Vec<bool> = Vec::new();
        std::mem::swap(&mut grid[r], &mut row);
        let mut new_row: Vec<bool> = dead_row(left);
        new_row.append(&mut row);
        let mut tail: Vec<bool> = dead_row(right);
        new_row.append(&mut tail);
        out.push(new_row);
        r = r + 1;
    }
    let mut j: usize = 0;
    while j < bottom
        invariant
            j <= bottom,
            out.len() == top + height + j,
            top + height + bottom == new_size,
            forall|k: int| 0 <= k < top ==> (#[trigger] out@[k])@ == dead_cells(new_size as int),
            forall|k: int|
                0 <= k < height ==> (#[trigger] out@[top + k])@ == dead_cells(left as int) + g[k]
                    + dead_cells(right as int),
            forall|k: int|
                top + height <= k < top + height + j ==> (#[trigger] out@[k])@ == dead_cells(
                    new_size as int,
                ),
        decreases bottom - j,
    {
        out.push(dead_row(new_size));
        j = j + 1;
    }
    proof {
        let a = rows(out@);
        let z = squared(g);
        assert(a.len() == z.len());
        assert forall|k: int| 0 <= k < a.len() implies a[k] == z[k] by {
            if top <= k < top + height {
                assert(a[k] == out@[top + (k - top)]@);
            }
        }
        assert(a =~= z);
    }
    out
}

/// The square of a rectangular grid is a square whose side is a multiple of
/// 64, and it holds the cells of the grid moved down by `pad_top` and right
/// by `pad_left`, and dead cells everywhere else.
pub proof fn lemma_squared(g: Seq<Seq<bool>>, r: int, c: int)
    requires
        is_rect(g),
    ensures
        square_side(g) % 64 == 0,
        square_side(g) >= g.len(),
        square_side(g) >= width_of(g),
        squared(g).len() == square_side(g),
        is_rect(squared(g)),
        squared(g).len() > 0 ==> width_of(squared(g)) == square_side(g),
        alive(squared(g), r, c) == alive(g, r - pad_top(g), c - pad_left(g)),
{
    let n = square_side(g);
    let s = squared(g);
    let top = pad_top(g);
    let left = pad_left(g);
    let w = width_of(g) as int;
    assert forall|k: int| 0 <= k < s.len() implies (#[trigger] s[k]).len() == n by {
        if top <= k < top + g.len() {
            assert(g[k - top].len() == g[0].len());
        }
    }
    if 0 <= r < n {
        if top <= r < top + g.len() {
            assert(g[r - top].len() == g[0].len());
        }
    }
}

} // verus!
