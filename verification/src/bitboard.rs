//! Bit-packed boards: every row is a sequence of 64-bit words, and bit `b` of
//! word `wi` is the cell in column `wi * 64 + b`.

use crate::life::{alive, next_cell, ones, rule, step};
use vstd::prelude::*;

verus! {

/// Bit `b` of `word`; false for a bit index outside 0..64.
pub open spec fn bit(word: u64, b: int) -> bool {
    0 <= b < 64 && (word >> (b as u64)) & 1 == 1
}

/// The cell in column `c` of a packed row; dead outside the row.
pub open spec fn row_cell(row: Seq<u64>, c: int) -> bool {
    0 <= c < 64 * row.len() && bit(row[c / 64], c % 64)
}

/// The rows of a board as sequences of words.
pub open spec fn words(board: Seq<Vec<u64>>) -> Seq<Seq<u64>> {
    Seq::new(board.len(), |r: int| board[r]@)
}

/// A board of `width` cells per row: `width` is a multiple of 64 and every
/// row has `width / 64` words.
pub open spec fn well_formed(board: Seq<Seq<u64>>, width: int) -> bool {
    &&& width >= 0
    &&& width % 64 == 0
    &&& forall|r: int| 0 <= r < board.len() ==> (#[trigger] board[r]).len() == width / 64
}

/// The cells that a board pictures.
pub open spec fn cells(board: Seq<Seq<u64>>, width: int) -> Seq<Seq<bool>> {
    Seq::new(board.len(), |r: int| Seq::new(width as nat, |c: int| row_cell(board[r], c)))
}

/// Live cells among columns `c - 1`, `c`, `c + 1` of a packed row.
pub open spec fn row_triple(row: Seq<u64>, c: int) -> nat {
    ones(row_cell(row, c - 1)) + ones(row_cell(row, c)) + ones(row_cell(row, c + 1))
}

/// The next state of column `c` of `cur`, given the packed rows above and
/// below it.
pub open spec fn word_rule(prev: Seq<u64>, cur: Seq<u64>, nxt: Seq<u64>, c: int) -> bool {
    rule(
        row_cell(cur, c),
        (row_triple(prev, c) + ones(row_cell(cur, c - 1)) + ones(row_cell(cur, c + 1))
            + row_triple(nxt, c)) as nat,
    )
}

/// The row above (`r - 1`) or below (`r + 1`) in the board, or a row of
/// zero words where the board ends.
pub open spec fn row_or_zeros(board: Seq<Seq<u64>>, width: int, r: int) -> Seq<u64> {
    if 0 <= r < board.len() {
        board[r]
    } else {
        Seq::new((width / 64) as nat, |i: int| 0u64)
    }
}

/// `row` is row `r` of the generation after `board`.
pub open spec fn is_next_row(board: Seq<Seq<u64>>, width: int, r: int, row: Seq<u64>) -> bool {
    &&& row.len() == width / 64
    &&& forall|c: int|
        0 <= c < width ==> #[trigger] row_cell(row, c) == next_cell(cells(board, width), r, c)
}

/// No bit of the zero word is set.
pub proof fn lemma_zero_word(b: int)
    ensures
        !bit(0u64, b),
{
    if 0 <= b < 64 {
        let j: u64 = b as u64;
        assert((0u64 >> j) & 1 != 1) by (bit_vector);
    }
}

/// Setting bit `k` of a word changes that bit and no other.
pub proof fn lemma_set_bit(w: u64, k: u64, b: int)
    requires
        k < 64,
    ensures
        bit(w | (1u64 << k), b) == ((0 <= b < 64 && b == k) || bit(w, b)),
{
    if 0 <= b < 64 {
        let j: u64 = b as u64;
        assert((((w | (1u64 << k)) >> j) & 1 == 1) == (j == k || ((w >> j) & 1 == 1)))
            by (bit_vector)
            requires
                k < 64,
                j < 64,
        ;
    }
}

/// Two words with the same bits agree once their top `k` bits are shifted out.
proof fn lemma_low_bits_agree(x: u64, y: u64, k: u64)
    requires
        k <= 63,
        forall|b: int| 0 <= b < 64 ==> bit(x, b) == bit(y, b),
    ensures
        x << k == y << k,
    decreases 63 - k,
{
    let j: u64 = (63 - k) as u64;
    assert(bit(x, j as int) == bit(y, j as int));
    if k == 63 {
        assert(x << k == y << k) by (bit_vector)
            requires
                k == 63,
                j == 0,
                ((x >> j) & 1 == 1) == ((y >> j) & 1 == 1),
        ;
    } else {
        let k1: u64 = (k + 1) as u64;
        lemma_low_bits_agree(x, y, k1);
        assert(x << k == y << k) by (bit_vector)
            requires
                k < 63,
                k1 == k + 1,
                j == 63 - k,
                x << k1 == y << k1,
                ((x >> j) & 1 == 1) == ((y >> j) & 1 == 1),
        ;
    }
}

/// Two words with the same 64 bits are the same word.
pub proof fn lemma_word_ext(x: u64, y: u64)
    requires
        forall|b: int| 0 <= b < 64 ==> bit(x, b) == bit(y, b),
    ensures
        x == y,
{
    lemma_low_bits_agree(x, y, 0);
    assert(x == y) by (bit_vector)
        requires
            x << 0u64 == y << 0u64,
    ;
}

/// A cell of the pictured grid is the cell of its packed row, and where the
/// board has no such row, the cell of a row of zero words: dead.
pub proof fn lemma_cells_alive(board: Seq<Seq<u64>>, width: int, r: int, c: int)
    requires
        well_formed(board, width),
    ensures
        alive(cells(board, width), r, c) == row_cell(row_or_zeros(board, width, r), c),
{
    if !(0 <= r < board.len()) {
        let z = row_or_zeros(board, width, r);
        if 0 <= c < 64 * z.len() {
            lemma_zero_word(c % 64);
        }
    }
}

/// Bit `b` of `word`, as 0 or 1.
pub fn bit_at(word: u64, b: u64) -> (v: u8)
    requires
        b < 64,
    ensures
        v == ones(bit(word, b as int)),
{
    let low: u64 = (word >> b) & 1;
    assert(low == 0 || low == 1) by (bit_vector)
        requires
            low == (word >> b) & 1,
    ;
    if low == 1 {
        1
    } else {
        0
    }
}

/// The cell in bit `b` of word `wi` of a packed row, as 0 or 1.
pub fn center(row: &Vec<u64>, wi: usize, b: u64) -> (v: u8)
    requires
        wi < row.len(),
        b < 64,
    ensures
        v == ones(row_cell(row@, wi * 64 + b)),
{
    bit_at(row[wi], b)
}

/// The cell one column to the west of bit `b` of word `wi`, as 0 or 1: the
/// bit below in the same word, or bit 63 of the word before; 0 where the row
/// begins.
pub fn west(row: &Vec<u64>, wi: usize, b: u64) -> (v: u8)
    requires
        wi < row.len(),
        b < 64,
    ensures
        v == ones(row_cell(row@, wi * 64 + b - 1)),
{
    if b > 0 {
        bit_at(row[wi], b - 1)
    } else if wi > 0 {
        bit_at(row[wi - 1], 63)
    } else {
        0
    }
}

/// The cell one column to the east of bit `b` of word `wi`, as 0 or 1: the
/// bit above in the same word, or bit 0 of the word after; 0 where the row
/// ends.
pub fn east(row: &Vec<u64>, wi: usize, b: u64) -> (v: u8)
    requires
        wi < row.len(),
        b < 64,
    ensures
        v == ones(row_cell(row@, wi * 64 + b + 1)),
{
    if b < 63 {
        bit_at(row[wi], b + 1)
    } else if wi + 1 < row.len() {
        bit_at(row[wi + 1], 0)
    } else {
        0
    }
}

/// The eight neighbour bits of bit `b` of word `wi` of `cur`, summed. `prev`
/// and `nxt` are the rows above and below.
pub fn neighbor_count(prev: &Vec<u64>, cur: &Vec<u64>, nxt: &Vec<u64>, wi: usize, b: u64) -> (count:
    u8)
    requires
        prev.len() == cur.len(),
        nxt.len() == cur.len(),
        wi < cur.len(),
        b < 64,
    ensures
        count == row_triple(prev@, wi * 64 + b) + ones(row_cell(cur@, wi * 64 + b - 1)) + ones(
            row_cell(cur@, wi * 64 + b + 1),
        ) + row_triple(nxt@, wi * 64 + b),
        count <= 8,
{
    let w: u8 = west(cur, wi, b);
    let e: u8 = east(cur, wi, b);
    let n: u8 = center(prev, wi, b);
    let nw: u8 = west(prev, wi, b);
    let ne: u8 = east(prev, wi, b);
    let s: u8 = center(nxt, wi, b);
    let sw: u8 = west(nxt, wi, b);
    let se: u8 = east(nxt, wi, b);
    w + e + n + nw + ne + s + sw + se
}

/// Word `wi` of the next generation of `cur`, given the rows above and below.
pub fn next_word(prev: &Vec<u64>, cur: &Vec<u64>, nxt: &Vec<u64>, wi: usize) -> (word: u64)
    requires
        prev.len() == cur.len(),
        nxt.len() == cur.len(),
        wi < cur.len(),
    ensures
        forall|b: int|
            0 <= b < 64 ==> #[trigger] bit(word, b) == word_rule(prev@, cur@, nxt@, wi * 64 + b),
{
    let mut new_word: u64 = 0;
    let cw: u64 = cur[wi];
    let mut b: u64 = 0;
    proof {
        assert forall|j: int| 0 <= j < 64 implies !#[trigger] bit(new_word, j) by {
            lemma_zero_word(j);
        }
    }
    while b < 64
        invariant
            b <= 64,
            prev.len() == cur.len(),
            nxt.len() == cur.len(),
            wi < cur.len(),
            cw == cur@[wi as int],
            forall|j: int|
                0 <= j < 64 ==> #[trigger] bit(new_word, j) == (j < b && word_rule(
                    prev@,
                    cur@,
                    nxt@,
                    wi * 64 + j,
                )),
        decreases 64 - b,
    {
        let count: u8 = neighbor_count(prev, cur, nxt, wi, b);
        let is_alive: bool = bit_at(cw, b) == 1;
        let born: bool = if is_alive {
            count == 2 || count == 3
        } else {
            count == 3
        };
        let ghost before = new_word;
        if born {
            new_word = new_word | (1u64 << b);
        }
        proof {
            assert(born == word_rule(prev@, cur@, nxt@, wi * 64 + b));
            assert forall|j: int| 0 <= j < 64 implies #[trigger] bit(new_word, j) == (j < b + 1
                && word_rule(prev@, cur@, nxt@, wi * 64 + j)) by {
                if born {
                    lemma_set_bit(before, b, j);
                }
            }
        }
        b = b + 1;
    }
    new_word
}

/// A row of `n` zero words.
pub fn zero_row(n: usize) -> (row: Vec<u64>)
    ensures
        row@ == Seq::new(n as nat, |i: int| 0u64),
{
    let mut row: Vec<u64> = Vec::new();
    let mut i: usize = 0;
    while i < n
        invariant
            i <= n,
            row@ == Seq::new(i as nat, |k: int| 0u64),
        decreases n - i,
    {
        row.push(0);
        i = i + 1;
        assert(row@ =~= Seq::new(i as nat, |k: int| 0u64));
    }
    row
}

/// On a well-formed board the word rule, fed with the rows above and below
/// (zero words where the board ends), is the rule of the automaton on the
/// pictured grid.
pub proof fn lemma_word_rule_is_next_cell(board: Seq<Seq<u64>>, width: int, r: int, c: int)
    requires
        well_formed(board, width),
        0 <= r < board.len(),
        0 <= c < width,
    ensures
        word_rule(
            row_or_zeros(board, width, r - 1),
            board[r],
            row_or_zeros(board, width, r + 1),
            c,
        ) == next_cell(cells(board, width), r, c),
{
    let g = cells(board, width);
    lemma_cells_alive(board, width, r - 1, c - 1);
    lemma_cells_alive(board, width, r - 1, c);
    lemma_cells_alive(board, width, r - 1, c + 1);
    lemma_cells_alive(board, width, r, c - 1);
    lemma_cells_alive(board, width, r, c);
    lemma_cells_alive(board, width, r, c + 1);
    lemma_cells_alive(board, width, r + 1, c - 1);
    lemma_cells_alive(board, width, r + 1, c);
    lemma_cells_alive(board, width, r + 1, c + 1);
}

/// Row `r` of the generation after `board`. `zeros` stands in for the row
/// above the first and the row below the last.
pub fn next_row(board: &Vec<Vec<u64>>, width: usize, zeros: &Vec<u64>, r: usize) -> (row: Vec<u64>)
    requires
        well_formed(words(board@), width as int),
        r < board.len(),
        zeros@ == Seq::new((width / 64) as nat, |i: int| 0u64),
    ensures
        is_next_row(words(board@), width as int, r as int, row@),
{
    let wpr: usize = width / 64;
    let ghost b = words(board@);
    assert(b[r as int] == board@[r as int]@);
    let cur: &Vec<u64> = &board[r];
    let prev: &Vec<u64> = if r > 0 {
        assert(b[r - 1] == board@[r - 1]@);
        &board[r - 1]
    } else {
        zeros
    };
    let nxt: &Vec<u64> = if r + 1 < board.len() {
        assert(b[r + 1] == board@[r + 1]@);
        &board[r + 1]
    } else {
        zeros
    };
    assert(prev@ == row_or_zeros(b, width as int, r - 1));
    assert(nxt@ == row_or_zeros(b, width as int, r + 1));
    let mut row: Vec<u64> = Vec::new();
    let mut wi: usize = 0;
    while wi < wpr
        invariant
            wi <= wpr,
            wpr == width / 64,
            prev.len() == wpr,
            cur.len() == wpr,
            nxt.len() == wpr,
            row.len() == wi,
            forall|k: int, j: int|
                0 <= k < wi && 0 <= j < 64 ==> #[trigger] bit(row@[k], j) == word_rule(
                    prev@,
                    cur@,
                    nxt@,
                    k * 64 + j,
                ),
        decreases wpr - wi,
    {
        let word: u64 = next_word(prev, cur, nxt, wi);
        row.push(word);
        wi = wi + 1;
    }
    proof {
        assert forall|c: int| 0 <= c < width implies #[trigger] row_cell(row@, c) == next_cell(
            cells(b, width as int),
            r as int,
            c,
        ) by {
            lemma_word_rule_is_next_cell(b, width as int, r as int, c);
            assert(bit(row@[c / 64], c % 64) == word_rule(prev@, cur@, nxt@, (c / 64) * 64 + c % 64));
        }
    }
    row
}

/// A board whose every row is the next row of `board` pictures the next
/// generation.
pub proof fn lemma_next_rows_are_step(board: Seq<Seq<u64>>, width: int, next: Seq<Seq<u64>>)
    requires
        well_formed(board, width),
        next.len() == board.len(),
        forall|r: int| 0 <= r < board.len() ==> is_next_row(board, width, r, #[trigger] next[r]),
    ensures
        well_formed(next, width),
        cells(next, width) == step(cells(board, width)),
{
    let g = cells(board, width);
    let a = cells(next, width);
    let z = step(g);
    assert(a.len() == z.len());
    assert forall|r: int| 0 <= r < a.len() implies a[r] == z[r] by {
        assert(is_next_row(board, width, r, next[r]));
        assert(a[r].len() == z[r].len());
        assert forall|c: int| 0 <= c < a[r].len() implies a[r][c] == z[r][c] by {
            assert(row_cell(next[r], c) == next_cell(g, r, c));
        }
        assert(a[r] =~= z[r]);
    }
    assert(a =~= z);
}

/// Two well-formed boards that picture the same cells hold the same words.
pub proof fn lemma_same_cells_same_words(a: Seq<Seq<u64>>, b: Seq<Seq<u64>>, width: int)
    requires
        well_formed(a, width),
        well_formed(b, width),
        cells(a, width) == cells(b, width),
    ensures
        a == b,
{
    let ga = cells(a, width);
    let gb = cells(b, width);
    assert(a.len() == ga.len());
    assert(b.len() == gb.len());
    assert forall|r: int| 0 <= r < a.len() implies a[r] == b[r] by {
        assert(a[r].len() == b[r].len());
        assert forall|wi: int| 0 <= wi < a[r].len() implies a[r][wi] == b[r][wi] by {
            assert forall|j: int| 0 <= j < 64 implies bit(a[r][wi], j) == bit(b[r][wi], j) by {
                let c = wi * 64 + j;
                assert(ga[r][c] == row_cell(a[r], c));
                assert(gb[r][c] == row_cell(b[r], c));
            }
            lemma_word_ext(a[r][wi], b[r][wi]);
        }
        assert(a[r] =~= b[r]);
    }
    assert(a =~= b);
}

} // verus!
