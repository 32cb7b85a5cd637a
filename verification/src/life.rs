//! The automaton itself, as mathematics: a grid is a sequence of rows of
//! cells, cells outside the grid are dead, and one generation applies the
//! survival and birth rule to every cell at once.

use vstd::prelude::*;

verus! {

/// Every row is as long as the first one.
pub open spec fn is_rect(g: Seq<Seq<bool>>) -> bool {
    forall|r: int| 0 <= r < g.len() ==> (#[trigger] g[r]).len() == g[0].len()
}

/// Number of columns: the length of the first row, 0 for a grid without rows.
pub open spec fn width_of(g: Seq<Seq<bool>>) -> nat {
    if g.len() == 0 {
        0
    } else {
        g[0].len()
    }
}

/// Whether the cell at row `r`, column `c` is alive. Any position outside the
/// grid is dead: the edge is bounded, nothing wraps around.
pub open spec fn alive(g: Seq<Seq<bool>>, r: int, c: int) -> bool {
    0 <= r < g.len() && 0 <= c < g[r].len() && g[r][c]
}

/// 1 for a live cell, 0 for a dead one.
pub open spec fn ones(b: bool) -> nat {
    if b {
        1
    } else {
        0
    }
}

/// How many of the eight cells around (`r`, `c`) are alive.
pub open spec fn live_neighbors(g: Seq<Seq<bool>>, r: int, c: int) -> nat {
    ones(alive(g, r - 1, c - 1)) + ones(alive(g, r - 1, c)) + ones(alive(g, r - 1, c + 1))
        + ones(alive(g, r, c - 1)) + ones(alive(g, r, c + 1))
        + ones(alive(g, r + 1, c - 1)) + ones(alive(g, r + 1, c)) + ones(alive(g, r + 1, c + 1))
}

/// The rule: a live cell survives with two or three live neighbours, a dead
/// cell is born with exactly three.
pub open spec fn rule(was_alive: bool, neighbors: nat) -> bool {
    if was_alive {
        neighbors == 2 || neighbors == 3
    } else {
        neighbors == 3
    }
}

/// State of the cell at (`r`, `c`) one generation later.
pub open spec fn next_cell(g: Seq<Seq<bool>>, r: int, c: int) -> bool {
    rule(alive(g, r, c), live_neighbors(g, r, c))
}

/// The grid one generation later: same number of rows, each as wide as the
/// first row of `g`.
pub open spec fn step(g: Seq<Seq<bool>>) -> Seq<Seq<bool>> {
    Seq::new(g.len(), |r: int| Seq::new(width_of(g), |c: int| next_cell(g, r, c)))
}

/// The grid after `n` generations.
pub open spec fn run(g: Seq<Seq<bool>>, n: nat) -> Seq<Seq<bool>>
    decreases n,
{
    if n == 0 {
        g
    } else {
        step(run(g, (n - 1) as nat))
    }
}

/// Zero generations leave a grid as it is.
pub proof fn lemma_run_zero(g: Seq<Seq<bool>>)
    ensures
        run(g, 0) == g,
{
}

/// A step keeps the shape of a rectangular grid.
pub proof fn lemma_step_shape(g: Seq<Seq<bool>>)
    ensures
        step(g).len() == g.len(),
        is_rect(step(g)),
        width_of(step(g)) == width_of(g),
        forall|r: int| 0 <= r < g.len() ==> (#[trigger] step(g)[r]).len() == width_of(g),
{
}

/// Any number of generations keeps the shape of a rectangular grid.
pub proof fn lemma_run_shape(g: Seq<Seq<bool>>, n: nat)
    requires
        is_rect(g),
    ensures
        run(g, n).len() == g.len(),
        is_rect(run(g, n)),
        width_of(run(g, n)) == width_of(g),
    decreases n,
{
    if n > 0 {
        lemma_run_shape(g, (n - 1) as nat);
        lemma_step_shape(run(g, (n - 1) as nat));
    }
}

/// The grid that a vector of rows of cells holds.
pub open spec fn rows(grid: Seq<Vec<bool>>) -> Seq<Seq<bool>> {
    Seq::new(grid.len(), |r: int| grid[r]@)
}

/// Live cells in row `nr`, columns `lo..hi`, the cell (`r`, `c`) itself not
/// counted.
pub open spec fn row_count(g: Seq<Seq<bool>>, r: int, c: int, nr: int, lo: int, hi: int) -> nat
    decreases hi - lo,
{
    if hi <= lo {
        0
    } else {
        row_count(g, r, c, nr, lo, hi - 1) + ones((nr != r || hi - 1 != c) && alive(g, nr, hi - 1))
    }
}

/// Live cells in rows `rlo..rhi`, columns `clo..chi`, the cell (`r`, `c`)
/// itself not counted.
pub open spec fn window_count(
    g: Seq<Seq<bool>>,
    r: int,
    c: int,
    rlo: int,
    rhi: int,
    clo: int,
    chi: int,
) -> nat
    decreases rhi - rlo,
{
    if rhi <= rlo {
        0
    } else {
        window_count(g, r, c, rlo, rhi - 1, clo, chi) + row_count(g, r, c, rhi - 1, clo, chi)
    }
}

/// Counting over the three-by-three window around a cell, cut off at the
/// edge of the grid, counts its live neighbours.
pub proof fn lemma_window_is_neighbors(g: Seq<Seq<bool>>, r: int, c: int)
    requires
        is_rect(g),
        0 <= r < g.len(),
        0 <= c < width_of(g),
    ensures
        window_count(
            g,
            r,
            c,
            if r == 0 {
                0
            } else {
                r - 1
            },
            if r + 1 < g.len() {
                r + 2
            } else {
                g.len() as int
            },
            if c == 0 {
                0
            } else {
                c - 1
            },
            if c + 1 < width_of(g) {
                c + 2
            } else {
                width_of(g) as int
            },
        ) == live_neighbors(g, r, c),
{
    reveal_with_fuel(row_count, 4);
    reveal_with_fuel(window_count, 4);
    assert(g[r].len() == g[0].len());
    if r > 0 {
        assert(g[r - 1].len() == g[0].len());
    }
    if r + 1 < g.len() {
        assert(g[r + 1].len() == g[0].len());
    }
}

/// Whether (`r`, `c`) is a position of the grid.
pub open spec fn inside(g: Seq<Seq<bool>>, r: int, c: int) -> bool {
    0 <= r < g.len() && 0 <= c < g[r].len()
}

/// A cell of the first or last row or column of a rectangular grid counts
/// only the neighbours that lie inside the grid: at most five, and at most
/// three in a corner. Nothing is counted from the opposite edge.
pub proof fn lemma_edge_neighbors(g: Seq<Seq<bool>>, r: int, c: int)
    requires
        is_rect(g),
        0 <= r < g.len(),
        0 <= c < width_of(g),
    ensures
        r == 0 || r == g.len() - 1 || c == 0 || c == width_of(g) - 1 ==> live_neighbors(g, r, c)
            <= 5,
        (r == 0 || r == g.len() - 1) && (c == 0 || c == width_of(g) - 1) ==> live_neighbors(
            g,
            r,
            c,
        ) <= 3,
        r == 0 ==> live_neighbors(g, r, c) == ones(alive(g, r, c - 1)) + ones(alive(g, r, c + 1))
            + ones(alive(g, r + 1, c - 1)) + ones(alive(g, r + 1, c)) + ones(
            alive(g, r + 1, c + 1),
        ),
        c == 0 ==> live_neighbors(g, r, c) == ones(alive(g, r - 1, c)) + ones(
            alive(g, r - 1, c + 1),
        ) + ones(alive(g, r, c + 1)) + ones(alive(g, r + 1, c)) + ones(alive(g, r + 1, c + 1)),
{
    if r > 0 {
        assert(g[r - 1].len() == g[0].len());
    }
    if r + 1 < g.len() {
        assert(g[r + 1].len() == g[0].len());
    }
    assert(g[r].len() == g[0].len());
}

/// A cell counts no more neighbours than the cell (`r + dr`, `c + dc`) of
/// another grid that holds the same cells wherever the first grid has a
/// position: what the edge cuts off can only be missing from the count.
pub proof fn lemma_edge_counts_no_more(
    g: Seq<Seq<bool>>,
    r: int,
    c: int,
    big: Seq<Seq<bool>>,
    dr: int,
    dc: int,
)
    requires
        forall|i: int, j: int|
            inside(g, i, j) ==> #[trigger] alive(g, i, j) == alive(big, i + dr, j + dc),
    ensures
        live_neighbors(g, r, c) <= live_neighbors(big, r + dr, c + dc),
{
    assert(alive(g, r - 1, c - 1) ==> alive(big, r - 1 + dr, c - 1 + dc));
    assert(alive(g, r - 1, c) ==> alive(big, r - 1 + dr, c + dc));
    assert(alive(g, r - 1, c + 1) ==> alive(big, r - 1 + dr, c + 1 + dc));
    assert(alive(g, r, c - 1) ==> alive(big, r + dr, c - 1 + dc));
    assert(alive(g, r, c + 1) ==> alive(big, r + dr, c + 1 + dc));
    assert(alive(g, r + 1, c - 1) ==> alive(big, r + 1 + dr, c - 1 + dc));
    assert(alive(g, r + 1, c) ==> alive(big, r + 1 + dr, c + dc));
    assert(alive(g, r + 1, c + 1) ==> alive(big, r + 1 + dr, c + 1 + dc));
}

/// A cell at the edge counts strictly fewer neighbours than the cell
/// (`r + dr`, `c + dc`) of another grid that holds the same cells wherever
/// the first grid has a position, if in that other grid a neighbour is alive
/// where the first grid has ended: the neighbour `a` rows and `b` columns
/// away.
pub proof fn lemma_edge_counts_fewer(
    g: Seq<Seq<bool>>,
    r: int,
    c: int,
    big: Seq<Seq<bool>>,
    dr: int,
    dc: int,
    a: int,
    b: int,
)
    requires
        forall|i: int, j: int|
            inside(g, i, j) ==> #[trigger] alive(g, i, j) == alive(big, i + dr, j + dc),
        -1 <= a <= 1,
        -1 <= b <= 1,
        a != 0 || b != 0,
        !inside(g, r + a, c + b),
        alive(big, r + dr + a, c + dc + b),
    ensures
        live_neighbors(g, r, c) < live_neighbors(big, r + dr, c + dc),
{
    assert(alive(g, r - 1, c - 1) ==> alive(big, r - 1 + dr, c - 1 + dc));
    assert(alive(g, r - 1, c) ==> alive(big, r - 1 + dr, c + dc));
    assert(alive(g, r - 1, c + 1) ==> alive(big, r - 1 + dr, c + 1 + dc));
    assert(alive(g, r, c - 1) ==> alive(big, r + dr, c - 1 + dc));
    assert(alive(g, r, c + 1) ==> alive(big, r + dr, c + 1 + dc));
    assert(alive(g, r + 1, c - 1) ==> alive(big, r + 1 + dr, c - 1 + dc));
    assert(alive(g, r + 1, c) ==> alive(big, r + 1 + dr, c + dc));
    assert(alive(g, r + 1, c + 1) ==> alive(big, r + 1 + dr, c + 1 + dc));
    assert(!alive(g, r + a, c + b));
}

/// A grid without a live cell has none after any number of generations.
pub proof fn lemma_dead_stays_dead(g: Seq<Seq<bool>>, n: nat, r: int, c: int)
    requires
        forall|i: int, j: int| !#[trigger] alive(g, i, j),
    ensures
        !alive(run(g, n), r, c),
    decreases n,
{
    if n > 0 {
        let before = run(g, (n - 1) as nat);
        assert forall|i: int, j: int| !#[trigger] alive(before, i, j) by {
            lemma_dead_stays_dead(g, (n - 1) as nat, i, j);
        }
        assert(live_neighbors(before, r, c) == 0);
    }
}

} // verus!
