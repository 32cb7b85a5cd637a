//! Flat cell buffers. A flat grid stores its rows one after the other, one
//! byte per cell, 1 for a live cell and 0 for a dead one. A padded buffer is
//! a flat grid with a ring of dead cells around it, so that the eight
//! neighbours of an interior cell are always inside the buffer.

use crate::index::{lemma_cell_index, lemma_index_cell, lemma_shifted_index};
use crate::life::{alive, next_cell, step, width_of};
use vstd::prelude::*;

verus! {

/// The byte that stands for a cell.
pub open spec fn cell_byte(b: bool) -> u8 {
    if b {
        1
    } else {
        0
    }
}

/// Rows of bytes as sequences.
pub open spec fn byte_rows(rows: Seq<Vec<u8>>) -> Seq<Seq<u8>> {
    Seq::new(rows.len(), |r: int| rows[r]@)
}

/// Every byte is 0 or 1.
pub open spec fn binary(flat: Seq<u8>) -> bool {
    forall|i: int| 0 <= i < flat.len() ==> #[trigger] flat[i] <= 1
}

/// The `h` by `w` grid that the first `h * w` bytes of a flat buffer picture.
pub open spec fn flat_cells(flat: Seq<u8>, h: int, w: int) -> Seq<Seq<bool>> {
    Seq::new(h as nat, |r: int| Seq::new(w as nat, |c: int| flat[r * w + c] == 1))
}

/// `base` with its first `h * w` bytes replaced by the cells of `g`, row
/// after row.
pub open spec fn flat_of(g: Seq<Seq<bool>>, h: int, w: int, base: Seq<u8>) -> Seq<u8> {
    Seq::new(
        base.len(),
        |i: int|
            if i < h * w {
                cell_byte(g[i / w][i % w])
            } else {
                base[i]
            },
    )
}

/// A flat grid with a one-cell border of dead cells around it.
pub struct PaddedBuffer {
    /// `(height + 2) * (width + 2)` bytes, row after row.
    pub cells: Vec<u8>,
    /// Columns of the interior.
    pub width: usize,
    /// Rows of the interior.
    pub height: usize,
}

impl PaddedBuffer {
    /// Length of a row of the buffer, border included.
    pub open spec fn stride(&self) -> int {
        self.width + 2
    }

    /// Whether index `i` of the buffer lies on the border.
    pub open spec fn on_border(&self, i: int) -> bool {
        let y = i / self.stride();
        let x = i % self.stride();
        y == 0 || y == self.height + 1 || x == 0 || x == self.width + 1
    }

    /// The buffer has the size its dimensions ask for, holds only 0 and 1,
    /// and its border is dead.
    pub open spec fn wf(&self) -> bool {
        &&& self.cells.len() == (self.height + 2) * (self.width + 2)
        &&& binary(self.cells@)
        &&& forall|i: int|
            0 <= i < self.cells.len() && self.on_border(i) ==> #[trigger] self.cells@[i] == 0
    }

    /// The interior, as a grid.
    pub open spec fn grid(&self) -> Seq<Seq<bool>> {
        Seq::new(
            self.height as nat,
            |r: int|
                Seq::new(
                    self.width as nat,
                    |c: int| self.cells@[(r + 1) * self.stride() + (c + 1)] == 1,
                ),
        )
    }

    /// Every byte of a well-formed buffer is the cell of the interior that
    /// lies there, and a dead cell on the border.
    pub proof fn lemma_bytes(&self, i: int)
        requires
            self.wf(),
            0 <= i < self.cells.len(),
        ensures
            self.cells@[i] == cell_byte(
                alive(self.grid(), i / self.stride() - 1, i % self.stride() - 1),
            ),
    {
        let pw = self.stride();
        lemma_index_cell(i, self.height + 2, pw);
        let y = i / pw;
        let x = i % pw;
        if self.on_border(i) {
        } else {
            assert((y - 1 + 1) * pw + (x - 1 + 1) == i);
            assert(self.grid()[y - 1][x - 1] == (self.cells@[i] == 1));
        }
    }

    /// The byte at the cell `dy` rows and `dx` columns away from the interior
    /// cell in row `y`, column `x` of the buffer.
    pub proof fn lemma_neighbor(&self, y: int, x: int, dy: int, dx: int)
        requires
            self.wf(),
            1 <= y <= self.height,
            1 <= x <= self.width,
            -1 <= dy <= 1,
            -1 <= dx <= 1,
        ensures
            0 <= y * self.stride() + x + dy * self.stride() + dx < self.cells.len(),
            self.cells@[y * self.stride() + x + dy * self.stride() + dx] == cell_byte(
                alive(self.grid(), y + dy - 1, x + dx - 1),
            ),
    {
        let pw = self.stride();
        lemma_cell_index(y + dy, x + dx, self.height + 2, pw);
        lemma_shifted_index(y, x, dy, dx, pw);
        self.lemma_bytes((y + dy) * pw + (x + dx));
    }

    /// A buffer of dead cells.
    pub fn new(width: usize, height: usize) -> (buf: PaddedBuffer)
        requires
            (height + 2) * (width + 2) <= usize::MAX,
        ensures
            buf.wf(),
            buf.width == width,
            buf.height == height,
            buf.cells@ == Seq::new(((height + 2) * (width + 2)) as nat, |i: int| 0u8),
    {
        assert(width + 2 <= (height + 2) * (width + 2)) by (nonlinear_arith);
        assert(height + 2 <= (height + 2) * (width + 2)) by (nonlinear_arith);
        let pw: usize = width + 2;
        let ph: usize = height + 2;
        let cells: Vec<u8> = vec![0u8; ph * pw];
        assert(cells@ =~= Seq::new(((height + 2) * (width + 2)) as nat, |i: int| 0u8));
        PaddedBuffer { cells, width, height }
    }

    /// A buffer whose interior holds the first `height * width` cells of a
    /// flat grid.
    pub fn from_interior(flat: &Vec<u8>, width: usize, height: usize) -> (buf: PaddedBuffer)
        requires
            binary(flat@),
            height * width <= flat.len(),
            (height + 2) * (width + 2) <= usize::MAX,
        ensures
            buf.wf(),
            buf.width == width,
            buf.height == height,
            buf.grid() == flat_cells(flat@, height as int, width as int),
    {
        let mut buf: PaddedBuffer = PaddedBuffer::new(width, height);
        assert(width + 2 <= (height + 2) * (width + 2)) by (nonlinear_arith);
        let pw: usize = width + 2;
        let ghost len = buf.cells.len() as int;
        let mut y: usize = 0;
        while y < height
            invariant
                y <= height,
                pw == width + 2,
                buf.width == width,
                buf.height == height,
                buf.cells.len() == len,
                len == (height + 2) * (width + 2),
                height * width <= flat.len(),
                binary(flat@),
                forall|i: int|
                    0 <= i < len ==> #[trigger] buf.cells@[i] == if 1 <= i / (pw as int) <= y && 1
                        <= i % (pw as int) <= width {
                        flat@[(i / (pw as int) - 1) * width + (i % (pw as int) - 1)]
                    } else {
                        0u8
                    },
            decreases height - y,
        {
            let mut x: usize = 0;
            while x < width
                invariant
                    y < height,
                    x <= width,
                    pw == width + 2,
                    buf.width == width,
                    buf.height == height,
                    buf.cells.len() == len,
                    len == (height + 2) * (width + 2),
                    height * width <= flat.len(),
                    binary(flat@),
                    forall|i: int|
                        0 <= i < len ==> #[trigger] buf.cells@[i] == if 1 <= i / (pw as int) && 1
                            <= i % (pw as int) <= width && (i / (pw as int) <= y || (i / (
                        pw as int) == y + 1 && i % (pw as int) <= x)) {
                            flat@[(i / (pw as int) - 1) * width + (i % (pw as int) - 1)]
                        } else {
                            0u8
                        },
                decreases width - x,
            {
                proof {
                    lemma_cell_index(y as int, x as int, height as int, width as int);
                    lemma_cell_index(y + 1, x + 1, height + 2, pw as int);
                }
                let src: usize = y * width + x;
                let dst: usize = (y + 1) * pw + (x + 1);
                let ghost before = buf.cells@;
                buf.cells[dst] = flat[src];
                x = x + 1;
                proof {
                    assert forall|i: int| 0 <= i < len implies #[trigger] buf.cells@[i] == if 1
                        <= i / (pw as int) && 1 <= i % (pw as int) <= width && (i / (pw as int)
                        <= y || (i / (pw as int) == y + 1 && i % (pw as int) <= x)) {
                        flat@[(i / (pw as int) - 1) * width + (i % (pw as int) - 1)]
                    } else {
                        0u8
                    } by {
                        lemma_index_cell(i, height + 2, pw as int);
                        assert(i != dst ==> buf.cells@[i] == before[i]);
                    }
                }
            }
            y = y + 1;
        }
        proof {
            let g = buf.grid();
            let f = flat_cells(flat@, height as int, width as int);
            assert forall|r: int| 0 <= r < height implies g[r] == f[r] by {
                assert forall|c: int| 0 <= c < width implies g[r][c] == f[r][c] by {
                    lemma_cell_index(r + 1, c + 1, height + 2, pw as int);
                }
                assert(g[r] =~= f[r]);
            }
            assert(g =~= f);
            assert forall|i: int| 0 <= i < len implies #[trigger] buf.cells@[i] <= 1 by {
                lemma_index_cell(i, height + 2, pw as int);
                if 1 <= i / (pw as int) <= height && 1 <= i % (pw as int) <= width {
                    lemma_cell_index(
                        i / (pw as int) - 1,
                        i % (pw as int) - 1,
                        height as int,
                        width as int,
                    );
                }
            }
        }
        buf
    }

    /// Writes the interior over the first `height * width` bytes of `out`.
    pub fn copy_interior_to(&self, out: &mut Vec<u8>)
        requires
            self.wf(),
            self.height * self.width <= old(out).len(),
        ensures
            final(out)@ == flat_of(
                self.grid(),
                self.height as int,
                self.width as int,
                old(out)@,
            ),
    {
        let width: usize = self.width;
        let height: usize = self.height;
        assert(width + 2 <= (height + 2) * (width + 2)) by (nonlinear_arith);
        let pw: usize = width + 2;
        let ghost g = self.grid();
        let ghost base = out@;
        let mut y: usize = 0;
        while y < height
            invariant
                y <= height,
                pw == width + 2,
                width == self.width,
                height == self.height,
                self.wf(),
                g == self.grid(),
                out.len() == base.len(),
                height * width <= base.len(),
                forall|i: int|
                    0 <= i < base.len() ==> #[trigger] out@[i] == if i < y * width {
                        cell_byte(g[i / (width as int)][i % (width as int)])
                    } else {
                        base[i]
                    },
            decreases height - y,
        {
            let mut x: usize = 0;
            while x < width
                invariant
                    y < height,
                    x <= width,
                    pw == width + 2,
                    width == self.width,
                    height == self.height,
                    self.wf(),
                    g == self.grid(),
                    out.len() == base.len(),
                    height * width <= base.len(),
                    forall|i: int|
                        0 <= i < base.len() ==> #[trigger] out@[i] == if i < y * width + x {
                            cell_byte(g[i / (width as int)][i % (width as int)])
                        } else {
                            base[i]
                        },
                decreases width - x,
            {
                proof {
                    lemma_cell_index(y as int, x as int, height as int, width as int);
                    lemma_cell_index(y + 1, x + 1, height + 2, pw as int);
                    assert(self.cells@[(y + 1) * pw + (x + 1)] <= 1);
                }
                let dst: usize = y * width + x;
                let src: usize = (y + 1) * pw + (x + 1);
                out[dst] = self.cells[src];
                x = x + 1;
            }
            assert((y + 1) * width == y * width + width) by (nonlinear_arith);
            y = y + 1;
        }
        assert(out@ =~= flat_of(g, height as int, width as int, base));
    }

    /// The next state of the interior cell at index `idx`, from the eight
    /// bytes around it.
    pub fn next_byte(&self, idx: usize) -> (v: u8)
        requires
            self.wf(),
            idx < self.cells.len(),
            1 <= idx as int / self.stride() <= self.height,
            1 <= idx as int % self.stride() <= self.width,
        ensures
            v == cell_byte(
                next_cell(
                    self.grid(),
                    idx as int / self.stride() - 1,
                    idx as int % self.stride() - 1,
                ),
            ),
    {
        assert(self.width + 2 <= (self.height + 2) * (self.width + 2)) by (nonlinear_arith);
        let pw: usize = self.width + 2;
        proof {
            let y = idx as int / self.stride();
            let x = idx as int % self.stride();
            lemma_index_cell(idx as int, self.height + 2, self.stride());
            self.lemma_neighbor(y, x, -1, -1);
            self.lemma_neighbor(y, x, -1, 0);
            self.lemma_neighbor(y, x, -1, 1);
            self.lemma_neighbor(y, x, 0, -1);
            self.lemma_neighbor(y, x, 0, 0);
            self.lemma_neighbor(y, x, 0, 1);
            self.lemma_neighbor(y, x, 1, -1);
            self.lemma_neighbor(y, x, 1, 0);
            self.lemma_neighbor(y, x, 1, 1);
        }
        let count: u8 = self.cells[idx - pw - 1] + self.cells[idx - pw] + self.cells[idx - pw + 1]
            + self.cells[idx - 1] + self.cells[idx + 1] + self.cells[idx + pw - 1]
            + self.cells[idx + pw] + self.cells[idx + pw + 1];
        let cell: u8 = self.cells[idx];
        if (cell == 1 && (count == 2 || count == 3)) || (cell == 0 && count == 3) {
            1
        } else {
            0
        }
    }

    /// Row `r` of the interior, one generation later.
    pub fn stepped_row(&self, r: usize) -> (row: Vec<u8>)
        requires
            self.wf(),
            r < self.height,
        ensures
            row.len() == self.width,
            forall|c: int|
                0 <= c < self.width ==> #[trigger] row@[c] == cell_byte(
                    next_cell(self.grid(), r as int, c),
                ),
    {
        assert(self.width + 2 <= (self.height + 2) * (self.width + 2)) by (nonlinear_arith);
        let pw: usize = self.width + 2;
        let mut row: Vec<u8> = Vec::new();
        let mut c: usize = 0;
        while c < self.width
            invariant
                c <= self.width,
                r < self.height,
                pw == self.width + 2,
                self.wf(),
                row.len() == c,
                forall|k: int|
                    0 <= k < c ==> #[trigger] row@[k] == cell_byte(
                        next_cell(self.grid(), r as int, k),
                    ),
            decreases self.width - c,
        {
            proof {
                lemma_cell_index(r + 1, c + 1, self.height + 2, pw as int);
            }
            let v: u8 = self.next_byte((r + 1) * pw + (c + 1));
            row.push(v);
            c = c + 1;
        }
        row
    }

    /// Steps the interior one generation into `next`, cell by cell. Every
    /// new cell is computed from this buffer alone.
    pub fn step_into(&self, next: &mut PaddedBuffer)
        requires
            self.wf(),
            old(next).wf(),
            old(next).width == self.width,
            old(next).height == self.height,
        ensures
            final(next).wf(),
            final(next).width == self.width,
            final(next).height == self.height,
            final(next).grid() == step(self.grid()),
    {
        let width: usize = self.width;
        let height: usize = self.height;
        assert(width + 2 <= (height + 2) * (width + 2)) by (nonlinear_arith);
        let pw: usize = width + 2;
        assert(height + 2 <= (height + 2) * (width + 2)) by (nonlinear_arith);
        let ghost g = self.grid();
        let ghost len = self.cells.len() as int;
        let mut y: usize = 1;
        while y <= height
            invariant
                1 <= y <= height + 1,
                height + 2 <= usize::MAX,
                pw == width + 2,
                width == self.width,
                height == self.height,
                self.wf(),
                g == self.grid(),
                len == (height + 2) * (width + 2),
                next.width == width,
                next.height == height,
                next.cells.len() == len,
                binary(next.cells@),
                forall|i: int|
                    0 <= i < len && next.on_border(i) ==> #[trigger] next.cells@[i] == 0,
                forall|i: int|
                    0 <= i < len && 1 <= i / (pw as int) < y && 1 <= i % (pw as int) <= width
                        ==> #[trigger] next.cells@[i] == cell_byte(
                        next_cell(g, i / (pw as int) - 1, i % (pw as int) - 1),
                    ),
            decreases height + 1 - y,
        {
            let mut x: usize = 1;
            while x <= width
                invariant
                    1 <= y <= height,
                    1 <= x <= width + 1,
                    pw == width + 2,
                    width == self.width,
                    height == self.height,
                    self.wf(),
                    g == self.grid(),
                    len == (height + 2) * (width + 2),
                    next.width == width,
                    next.height == height,
                    next.cells.len() == len,
                    binary(next.cells@),
                    forall|i: int|
                        0 <= i < len && next.on_border(i) ==> #[trigger] next.cells@[i] == 0,
                    forall|i: int|
                        0 <= i < len && 1 <= i / (pw as int) && 1 <= i % (pw as int) <= width && (
                        i / (pw as int) < y || (i / (pw as int) == y && i % (pw as int) < x))
                            ==> #[trigger] next.cells@[i] == cell_byte(
                            next_cell(g, i / (pw as int) - 1, i % (pw as int) - 1),
                        ),
                decreases width + 1 - x,
            {
                proof {
                    lemma_cell_index(y as int, x as int, height + 2, pw as int);
                }
                let idx: usize = y * pw + x;
                let v: u8 = self.next_byte(idx);
                let ghost before = next.cells@;
                next.cells[idx] = v;
                x = x + 1;
                proof {
                    assert forall|i: int|
                        0 <= i < len && 1 <= i / (pw as int) && 1 <= i % (pw as int) <= width && (
                        i / (pw as int) < y || (i / (pw as int) == y && i % (pw as int)
                            < x)) implies #[trigger] next.cells@[i] == cell_byte(
                        next_cell(g, i / (pw as int) - 1, i % (pw as int) - 1),
                    ) by {
                        lemma_index_cell(i, height + 2, pw as int);
                        assert(i != idx ==> next.cells@[i] == before[i]);
                    }
                    assert forall|i: int| 0 <= i < len && next.on_border(i) implies #[trigger] next.cells@[i]
                        == 0 by {
                        assert(i != idx);
                        assert(next.cells@[i] == before[i]);
                    }
                    assert forall|i: int| 0 <= i < len implies #[trigger] next.cells@[i] <= 1 by {
                        assert(i != idx ==> next.cells@[i] == before[i]);
                    }
                }
            }
            y = y + 1;
        }
        proof {
            let a = next.grid();
            let z = step(g);
            assert(a.len() == z.len());
            assert forall|r: int| 0 <= r < height implies a[r] == z[r] by {
                assert(z[r].len() == width_of(g));
                assert(g[0].len() == width);
                assert forall|c: int| 0 <= c < width implies a[r][c] == z[r][c] by {
                    lemma_cell_index(r + 1, c + 1, height + 2, pw as int);
                }
                assert(a[r] =~= z[r]);
            }
            assert(a =~= z);
        }
    }
}

/// A flat grid with rows of `w` cells, `n` generations later. The grid has
/// as many rows as fit in the buffer; bytes after the last whole row stay as
/// they are.
pub open spec fn flat_run(flat: Seq<u8>, w: int, n: nat) -> Seq<u8> {
    let h = flat.len() as int / w;
    flat_of(crate::life::run(flat_cells(flat, h, w), n), h, w, flat)
}

/// The whole rows of a flat buffer fit in it.
pub proof fn lemma_rows_fit(len: int, w: int)
    requires
        0 <= len,
        0 < w,
    ensures
        0 <= len / w,
        (len / w) * w <= len,
{
    vstd::arithmetic::div_mod::lemma_fundamental_div_mod(len, w);
    vstd::arithmetic::mul::lemma_mul_is_commutative(w, len / w);
    vstd::arithmetic::div_mod::lemma_div_pos_is_pos(len, w);
}

/// Writing the cells that a buffer of 0 and 1 pictures back over it changes
/// nothing.
pub proof fn lemma_flat_of_cells(flat: Seq<u8>, h: int, w: int)
    requires
        binary(flat),
        0 <= h,
        0 <= w,
        h * w <= flat.len(),
    ensures
        flat_of(flat_cells(flat, h, w), h, w, flat) == flat,
{
    let back = flat_of(flat_cells(flat, h, w), h, w, flat);
    assert forall|i: int| 0 <= i < flat.len() implies back[i] == flat[i] by {
        if i < h * w {
            assert(0 < w) by (nonlinear_arith)
                requires
                    0 <= i < h * w,
                    0 <= w,
            ;
            lemma_index_cell(i, h, w);
            assert(flat[i] <= 1);
        }
    }
    assert(back =~= flat);
}

/// The cells that `flat_of` wrote are the cells of the grid it was given.
pub proof fn lemma_cells_of_flat(g: Seq<Seq<bool>>, h: int, w: int, base: Seq<u8>)
    requires
        0 <= h,
        0 <= w,
        h * w <= base.len(),
        g.len() == h,
        forall|r: int| 0 <= r < h ==> (#[trigger] g[r]).len() == w,
    ensures
        flat_cells(flat_of(g, h, w, base), h, w) == g,
        binary(base) ==> binary(flat_of(g, h, w, base)),
        flat_of(g, h, w, base).len() == base.len(),
{
    let f = flat_of(g, h, w, base);
    let a = flat_cells(f, h, w);
    assert forall|r: int| 0 <= r < h implies a[r] == g[r] by {
        assert forall|c: int| 0 <= c < w implies a[r][c] == g[r][c] by {
            lemma_cell_index(r, c, h, w);
        }
        assert(a[r] =~= g[r]);
    }
    assert(a =~= g);
    if binary(base) {
        assert forall|i: int| 0 <= i < f.len() implies #[trigger] f[i] <= 1 by {
            if i >= h * w {
                assert(base[i] <= 1);
            }
        }
    }
}

} // verus!
