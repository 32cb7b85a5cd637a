//! The bit-packed kernel with its rows split into contiguous chunks, one
//! chunk per worker. Every worker reads the one shared board and returns the
//! rows of its own chunk together with the index of their first row; the
//! chunks are then put back by that index, so the board that comes out does
//! not depend on how many workers there were or on which finished first.

use crate::bitboard::{
    cells, is_next_row, lemma_next_rows_are_step, next_row, well_formed, words, zero_row,
};
use crate::life::{run, step};
use crate::parallel::par_map;
use vstd::prelude::*;

verus! {

/// What a worker returns, as mathematics: the index of the first row of its
/// chunk, and the rows it computed.
pub open spec fn part_view(part: (usize, Vec<Vec<u64>>)) -> (int, Seq<Seq<u64>>) {
    (part.0 as int, words(part.1@))
}

/// What the workers return, in the order in which it is put together.
pub open spec fn parts_view(parts: Seq<(usize, Vec<Vec<u64>>)>) -> Seq<(int, Seq<Seq<u64>>)> {
    Seq::new(parts.len(), |k: int| part_view(parts[k]))
}

/// `part` is what a worker owes for the chunk of at most `size` rows that
/// begins at row `start`: that index, and the next generation of each row of
/// the chunk.
pub open spec fn is_chunk(
    board: Seq<Seq<u64>>,
    width: int,
    start: int,
    size: int,
    part: (int, Seq<Seq<u64>>),
) -> bool {
    &&& part.0 == start
    &&& part.1.len() == if board.len() - start <= size {
        board.len() - start
    } else {
        size
    }
    &&& forall|i: int|
        0 <= i < part.1.len() ==> is_next_row(board, width, start + i, #[trigger] part.1[i])
}

/// `base` with `rows` written over it from row `start` on. Rows that would
/// fall outside `base` are dropped.
pub open spec fn overlay(base: Seq<Seq<u64>>, start: int, rows: Seq<Seq<u64>>) -> Seq<Seq<u64>> {
    Seq::new(
        base.len(),
        |r: int|
            if start <= r < start + rows.len() {
                rows[r - start]
            } else {
                base[r]
            },
    )
}

/// A board of `height` rows of `wpr` zero words, with the first `n` parts
/// written over it in turn.
pub open spec fn placed(parts: Seq<(int, Seq<Seq<u64>>)>, n: nat, height: nat, wpr: nat) -> Seq<
    Seq<u64>,
>
    decreases n,
{
    if n == 0 {
        Seq::new(height, |r: int| Seq::new(wpr, |i: int| 0u64))
    } else {
        overlay(placed(parts, (n - 1) as nat, height, wpr), parts[n - 1].0, parts[n - 1].1)
    }
}

/// Whether one of the first `n` parts holds row `r`.
pub open spec fn covered(parts: Seq<(int, Seq<Seq<u64>>)>, n: nat, r: int) -> bool {
    exists|k: int| 0 <= k < n && (#[trigger] parts[k]).0 <= r < parts[k].0 + parts[k].1.len()
}

/// Every row of every part is row `start + i` of the generation after
/// `board`.
pub open spec fn honest(parts: Seq<(int, Seq<Seq<u64>>)>, board: Seq<Seq<u64>>, width: int) -> bool {
    forall|k: int, i: int|
        0 <= k < parts.len() && 0 <= i < parts[k].1.len() ==> is_next_row(
            board,
            width,
            parts[k].0 + i,
            #[trigger] parts[k].1[i],
        )
}

/// Rows per chunk for `workers` workers: `height / workers`, rounded up.
pub fn chunk_size(height: usize, workers: usize) -> (size: usize)
    requires
        workers >= 1,
    ensures
        size == (height + workers - 1) / (workers as int),
        size <= height,
        height > 0 ==> size >= 1,
{
    let q: usize = height / workers;
    let rem: usize = height % workers;
    proof {
        let h = height as int;
        let w = workers as int;
        vstd::arithmetic::div_mod::lemma_fundamental_div_mod(h, w);
        assert(h == w * q + rem);
        vstd::arithmetic::mul::lemma_mul_is_commutative(w, q as int);
        if rem == 0 {
            vstd::arithmetic::div_mod::lemma_fundamental_div_mod_converse(
                h + w - 1,
                w,
                q as int,
                w - 1,
            );
        } else {
            assert((q + 1) * w == q * w + w) by (nonlinear_arith);
            vstd::arithmetic::div_mod::lemma_fundamental_div_mod_converse(
                h + w - 1,
                w,
                q + 1,
                rem - 1,
            );
            assert(q * w >= q) by (nonlinear_arith)
                requires
                    w >= 1,
                    q >= 0,
            ;
        }
        if h > 0 && rem == 0 {
            assert(q >= 1) by (nonlinear_arith)
                requires
                    h == q * w,
                    h > 0,
                    w >= 1,
                    q >= 0,
            ;
        }
        assert(q <= h) by (nonlinear_arith)
            requires
                h == q * w + rem,
                rem >= 0,
                w >= 1,
                q >= 0,
        ;
    }
    if rem == 0 {
        q
    } else {
        q + 1
    }
}

/// The first row of every chunk: 0, `size`, twice `size`, and so on below
/// `height`.
pub fn chunk_starts(height: usize, size: usize) -> (starts: Vec<usize>)
    requires
        size >= 1,
    ensures
        forall|k: int| 0 <= k < starts.len() ==> #[trigger] starts@[k] == k * size,
        forall|k: int| 0 <= k < starts.len() ==> #[trigger] starts@[k] < height,
        starts.len() * size >= height,
{
    let mut starts: Vec<usize> = Vec::new();
    let mut s: usize = 0;
    assert(starts.len() * size == 0) by (nonlinear_arith)
        requires
            starts.len() == 0,
    ;
    while s < height
        invariant
            size >= 1,
            s <= height,
            forall|k: int| 0 <= k < starts.len() ==> #[trigger] starts@[k] == k * size,
            forall|k: int| 0 <= k < starts.len() ==> #[trigger] starts@[k] < height,
            s == starts.len() * size || (s == height && starts.len() * size >= height),
        decreases height - s,
    {
        assert(s == starts.len() * size);
        starts.push(s);
        assert(starts.len() * size == s + size) by (nonlinear_arith)
            requires
                s == (starts.len() - 1) * size,
        ;
        if height - s <= size {
            s = height;
        } else {
            s = s + size;
        }
    }
    starts
}

/// One worker's share: the chunk of at most `size` rows that begins at row
/// `start`, stepped one generation, with `start` recorded beside it.
pub fn step_chunk(board: &Vec<Vec<u64>>, width: usize, start: usize, size: usize) -> (part: (
    usize,
    Vec<Vec<u64>>,
))
    requires
        well_formed(words(board@), width as int),
        start <= board.len(),
    ensures
        is_chunk(words(board@), width as int, start as int, size as int, part_view(part)),
{
    let height: usize = board.len();
    let end: usize = if height - start <= size {
        height
    } else {
        start + size
    };
    let zeros: Vec<u64> = zero_row(width / 64);
    let mut local: Vec<Vec<u64>> = Vec::new();
    let mut r: usize = start;
    while r < end
        invariant
            start <= r <= end,
            end <= height,
            height == board.len(),
            well_formed(words(board@), width as int),
            zeros@ == Seq::new((width / 64) as nat, |i: int| 0u64),
            local.len() == r - start,
            forall|i: int|
                0 <= i < local.len() ==> is_next_row(
                    words(board@),
                    width as int,
                    start + i,
                    (#[trigger] local@[i])@,
                ),
        decreases end - r,
    {
        let row: Vec<u64> = next_row(board, width, &zeros, r);
        local.push(row);
        r = r + 1;
    }
    assert forall|i: int| 0 <= i < local.len() implies is_next_row(
        words(board@),
        width as int,
        start + i,
        #[trigger] words(local@)[i],
    ) by {
        assert(words(local@)[i] == local@[i]@);
    }
    (start, local)
}

/// Hands every chunk to a worker of the pool. The parts come back in the
/// order of the chunk starts.
pub fn fan_out(board: &Vec<Vec<u64>>, width: usize, starts: &Vec<usize>, size: usize) -> (parts: Vec<
    (usize, Vec<Vec<u64>>),
>)
    requires
        well_formed(words(board@), width as int),
        forall|k: int| 0 <= k < starts.len() ==> #[trigger] starts@[k] <= board.len(),
    ensures
        parts.len() == starts.len(),
        forall|k: int|
            0 <= k < starts.len() ==> is_chunk(
                words(board@),
                width as int,
                starts@[k] as int,
                size as int,
                part_view(#[trigger] parts@[k]),
            ),
{
    let worker = |k: usize| -> (part: (usize, Vec<Vec<u64>>))
        requires
            k < starts.len(),
        ensures
            is_chunk(
                words(board@),
                width as int,
                starts@[k as int] as int,
                size as int,
                part_view(part),
            ),
        { step_chunk(board, width, starts[k], size) };
    par_map(starts.len(), worker)
}

/// The number of threads in rayon's current pool, from
/// `rayon::current_num_threads`. It depends on the machine and on how the
/// pool was set up, so nothing is claimed of it.
#[verifier::external_body]
fn pool_threads() -> (n: usize) {
    rayon::current_num_threads()
}

/// Puts the parts back into one board of `height` rows: starting from rows
/// of `wpr` zero words, every part is written at the row index recorded with
/// it, one part after the other.
pub fn assemble(height: usize, wpr: usize, parts: Vec<(usize, Vec<Vec<u64>>)>) -> (next: Vec<
    Vec<u64>,
>)
    requires
        forall|k: int|
            0 <= k < parts.len() ==> (#[trigger] parts@[k]).0 + parts@[k].1.len() <= height,
    ensures
        words(next@) == placed(parts_view(parts@), parts.len() as nat, height as nat, wpr as nat),
{
    let mut next: Vec<Vec<u64>> = Vec::new();
    let mut r: usize = 0;
    while r < height
        invariant
            r <= height,
            next.len() == r,
            forall|k: int|
                0 <= k < r ==> (#[trigger] next@[k])@ == Seq::new(wpr as nat, |i: int| 0u64),
        decreases height - r,
    {
        next.push(zero_row(wpr));
        r = r + 1;
    }
    let ghost all = parts@;
    let ghost views = parts_view(all);
    assert(words(next@) =~= placed(views, 0, height as nat, wpr as nat));
    let mut parts = parts;
    let mut k: usize = 0;
    let total: usize = parts.len();
    while k < total
        invariant
            k <= total,
            total == all.len(),
            parts.len() == total,
            next.len() == height,
            forall|j: int| k <= j < total ==> #[trigger] parts@[j] == all[j],
            forall|j: int| 0 <= j < total ==> (#[trigger] all[j]).0 + all[j].1.len() <= height,
            views == parts_view(all),
            words(next@) == placed(views, k as nat, height as nat, wpr as nat),
        decreases total - k,
    {
        let mut taken: (usize, Vec<Vec<u64>>) = (0, Vec::new());
        std::mem::swap(&mut parts[k], &mut taken);
        let start: usize = taken.0;
        let mut rows: Vec<Vec<u64>> = taken.1;
        let ghost chunk = words(rows@);
        let ghost base = words(next@);
        let count: usize = rows.len();
        let mut i: usize = 0;
        while i < count
            invariant
                i <= count,
                count == rows.len(),
                count == chunk.len(),
                start + count <= height,
                next.len() == height,
                base.len() == height,
                forall|j: int| i <= j < count ==> (#[trigger] rows@[j])@ == chunk[j],
                forall|q: int|
                    0 <= q < height ==> (#[trigger] next@[q])@ == if start <= q < start + i {
                        chunk[q - start]
                    } else {
                        base[q]
                    },
            decreases count - i,
        {
            let mut row: Vec<u64> = Vec::new();
            std::mem::swap(&mut rows[i], &mut row);
            next[start + i] = row;
            i = i + 1;
        }
        k = k + 1;
        assert(views[k - 1] == part_view(all[k - 1]));
        assert(words(next@) =~= overlay(base, start as int, chunk));
    }
    next
}

/// What the first `n` parts leave in a row that one of them holds is that
/// row of the next generation, whatever the order of the parts.
pub proof fn lemma_placed_rows(
    parts: Seq<(int, Seq<Seq<u64>>)>,
    n: nat,
    height: nat,
    wpr: nat,
    board: Seq<Seq<u64>>,
    width: int,
)
    requires
        n <= parts.len(),
        honest(parts, board, width),
    ensures
        placed(parts, n, height, wpr).len() == height,
        forall|r: int|
            0 <= r < height && covered(parts, n, r) ==> is_next_row(
                board,
                width,
                r,
                #[trigger] placed(parts, n, height, wpr)[r],
            ),
    decreases n,
{
    if n > 0 {
        let m = (n - 1) as nat;
        lemma_placed_rows(parts, m, height, wpr, board, width);
        let base = placed(parts, m, height, wpr);
        let last = parts[n - 1];
        let now = placed(parts, n, height, wpr);
        assert forall|r: int| 0 <= r < height && covered(parts, n, r) implies is_next_row(
            board,
            width,
            r,
            #[trigger] now[r],
        ) by {
            if last.0 <= r < last.0 + last.1.len() {
                let i = r - last.0;
                assert(now[r] == last.1[i]);
                assert(is_next_row(board, width, parts[n - 1].0 + i, parts[n - 1].1[i]));
            } else {
                let k = choose|k: int|
                    0 <= k < n && (#[trigger] parts[k]).0 <= r < parts[k].0 + parts[k].1.len();
                assert(k < m);
                assert(covered(parts, m, r));
                assert(now[r] == base[r]);
            }
        }
    }
}

/// Honest parts that between them hold every row assemble into the next
/// generation, in whatever order they arrive and however the rows were
/// divided among them.
pub proof fn lemma_partition_is_step(
    parts: Seq<(int, Seq<Seq<u64>>)>,
    board: Seq<Seq<u64>>,
    width: int,
)
    requires
        well_formed(board, width),
        honest(parts, board, width),
        forall|r: int| 0 <= r < board.len() ==> covered(parts, parts.len(), r),
    ensures
        well_formed(placed(parts, parts.len(), board.len(), (width / 64) as nat), width),
        cells(placed(parts, parts.len(), board.len(), (width / 64) as nat), width) == step(
            cells(board, width),
        ),
{
    let next = placed(parts, parts.len(), board.len(), (width / 64) as nat);
    lemma_placed_rows(parts, parts.len(), board.len(), (width / 64) as nat, board, width);
    assert forall|r: int| 0 <= r < board.len() implies is_next_row(
        board,
        width,
        r,
        #[trigger] next[r],
    ) by {
        assert(covered(parts, parts.len(), r));
    }
    lemma_next_rows_are_step(board, width, next);
}

/// The partitioned kernel and the serial one give the same words: a board
/// assembled from honest parts that hold every row equals any well-formed
/// board that pictures the next generation.
pub proof fn lemma_partition_equals_serial(
    parts: Seq<(int, Seq<Seq<u64>>)>,
    board: Seq<Seq<u64>>,
    width: int,
    serial: Seq<Seq<u64>>,
)
    requires
        well_formed(board, width),
        honest(parts, board, width),
        forall|r: int| 0 <= r < board.len() ==> covered(parts, parts.len(), r),
        well_formed(serial, width),
        cells(serial, width) == step(cells(board, width)),
    ensures
        placed(parts, parts.len(), board.len(), (width / 64) as nat) == serial,
{
    lemma_partition_is_step(parts, board, width);
    crate::bitboard::lemma_same_cells_same_words(
        placed(parts, parts.len(), board.len(), (width / 64) as nat),
        serial,
        width,
    );
}

/// Chunks of `size` rows that begin at multiples of `size` do not overlap: a
/// row lies in one chunk only, so no two workers ever write the same row.
pub proof fn lemma_chunks_disjoint(size: int, j: int, k: int, r: int)
    requires
        size >= 1,
        j * size <= r < j * size + size,
        k * size <= r < k * size + size,
    ensures
        j == k,
{
    assert(j == k) by (nonlinear_arith)
        requires
            size >= 1,
            j * size <= r < j * size + size,
            k * size <= r < k * size + size,
    ;
}

/// Every row below `height` lies in a chunk, the one numbered `r / size`,
/// if there are enough chunks to reach `height`.
pub proof fn lemma_chunk_of_row(height: int, size: int, chunks: int, r: int)
    requires
        size >= 1,
        0 <= r < height,
        chunks * size >= height,
    ensures
        0 <= r / size < chunks,
        (r / size) * size <= r < (r / size) * size + size,
{
    let k = r / size;
    vstd::arithmetic::div_mod::lemma_fundamental_div_mod(r, size);
    vstd::arithmetic::mul::lemma_mul_is_commutative(size, k);
    assert(k >= 0 && k * size <= r < k * size + size) by (nonlinear_arith)
        requires
            r == k * size + r % size,
            0 <= r % size < size,
            r >= 0,
            size >= 1,
    ;
    if k >= chunks {
        assert(k * size >= chunks * size) by (nonlinear_arith)
            requires
                k >= chunks,
                size >= 1,
        ;
    }
}

/// The generation after `board`, computed in chunks of
/// `height / workers` rows, rounded up; no workers count as one.
pub fn step_with_workers(board: &Vec<Vec<u64>>, width: usize, workers: usize) -> (next: Vec<
    Vec<u64>,
>)
    requires
        well_formed(words(board@), width as int),
    ensures
        next.len() == board.len(),
        well_formed(words(next@), width as int),
        cells(words(next@), width as int) == step(cells(words(board@), width as int)),
{
    let height: usize = board.len();
    let threads: usize = if workers == 0 {
        1
    } else {
        workers
    };
    let size: usize = chunk_size(height, threads);
    if size == 0 {
        let empty: Vec<Vec<u64>> = Vec::new();
        assert(cells(words(empty@), width as int) =~= step(cells(words(board@), width as int)));
        return empty;
    }
    let starts: Vec<usize> = chunk_starts(height, size);
    let parts: Vec<(usize, Vec<Vec<u64>>)> = fan_out(board, width, &starts, size);
    let ghost b = words(board@);
    let ghost views = parts_view(parts@);
    proof {
        assert forall|k: int| 0 <= k < views.len() implies is_chunk(
            b,
            width as int,
            k * size,
            size as int,
            #[trigger] views[k],
        ) by {
            assert(views[k] == part_view(parts@[k]));
            assert(starts@[k] == k * size);
        }
        assert forall|r: int| 0 <= r < b.len() implies covered(views, views.len(), r) by {
            let k = r / (size as int);
            lemma_chunk_of_row(height as int, size as int, starts.len() as int, r);
            assert(is_chunk(b, width as int, k * size, size as int, views[k]));
            assert(views[k].0 <= r < views[k].0 + views[k].1.len());
        }
        assert forall|k: int, i: int|
            0 <= k < views.len() && 0 <= i < views[k].1.len() implies is_next_row(
            b,
            width as int,
            views[k].0 + i,
            #[trigger] views[k].1[i],
        ) by {
            assert(is_chunk(b, width as int, k * size, size as int, views[k]));
        }
        assert forall|k: int| 0 <= k < parts.len() implies (#[trigger] parts@[k]).0 + parts@[k].1.len()
            <= height by {
            assert(is_chunk(b, width as int, k * size, size as int, views[k]));
            assert(views[k] == part_view(parts@[k]));
        }
    }
    let next: Vec<Vec<u64>> = assemble(height, width / 64, parts);
    proof {
        lemma_partition_is_step(views, b, width as int);
        lemma_placed_rows(views, views.len(), height as nat, (width / 64) as nat, b, width as int);
        assert(words(next@).len() == next.len());
    }
    next
}

/// The generation after `board`, with one chunk of rows for every thread of
/// the pool.
pub fn compute_next_generation(board: &Vec<Vec<u64>>, width: usize) -> (next: Vec<Vec<u64>>)
    requires
        well_formed(words(board@), width as int),
    ensures
        next.len() == board.len(),
        well_formed(words(next@), width as int),
        cells(words(next@), width as int) == step(cells(words(board@), width as int)),
{
    let threads: usize = pool_threads();
    step_with_workers(board, width, threads)
}

/// The board after `iterations` generations, every generation computed in
/// parallel chunks of rows.
pub fn gol_five(initial: Vec<Vec<u64>>, width: usize, iterations: usize) -> (board: Vec<Vec<u64>>)
    requires
        well_formed(words(initial@), width as int),
    ensures
        board.len() == initial.len(),
        well_formed(words(board@), width as int),
        cells(words(board@), width as int) == run(
            cells(words(initial@), width as int),
            iterations as nat,
        ),
        iterations == 0 ==> board == initial,
{
    let ghost start = cells(words(initial@), width as int);
    let mut board: Vec<Vec<u64>> = initial;
    let mut done: usize = 0;
    while done < iterations
        invariant
            done <= iterations,
            board.len() == initial.len(),
            well_formed(words(board@), width as int),
            cells(words(board@), width as int) == run(start, done as nat),
            done == 0 ==> board == initial,
        decreases iterations - done,
    {
        board = compute_next_generation(&board, width);
        done = done + 1;
    }
    board
}

} // verus!
