//! The mathematical model of a grid and of the Sudoku rules.
//!
//! A grid is a sequence of rows, each a sequence of cells; a cell is empty or
//! holds a digit. `n` is the side of the grid and `b` the side of a block,
//! with `n == b * b`. Everything here is specification: the executable types
//! state their contracts over these functions.

use vstd::prelude::*;

verus! {

/// A grid: its rows from top to bottom, each with its cells from left to right.
pub type Grid = Seq<Seq<Option<u8>>>;

/// The block sides this library supports, with the grid side each gives.
pub open spec fn dims(n: int, b: int) -> bool {
    (b == 1 && n == 1) || (b == 2 && n == 4) || (b == 3 && n == 9) || (b == 4 && n == 16)
}

/// `g` has `n` rows of `n` cells.
pub open spec fn shaped(g: Grid, n: int) -> bool {
    g.len() == n && forall|r: int| 0 <= r < n ==> (#[trigger] g[r]).len() == n
}

/// Whether a cell holds digit `d`.
pub open spec fn holds(cell: Option<u8>, d: int) -> bool {
    cell matches Some(v) && v == d
}

/// Every digit in `g` lies in 1 to `n`.
pub open spec fn in_range(g: Grid, n: int) -> bool {
    forall|r: int, c: int|
        0 <= r < n && 0 <= c < n ==> (#[trigger] g[r][c] matches Some(v) ==> 1 <= v <= n)
}

/// Some cell of row `r` holds `d`.
pub open spec fn in_row(g: Grid, n: int, r: int, d: int) -> bool {
    exists|c: int| 0 <= c < n && holds(#[trigger] g[r][c], d)
}

/// Some cell of column `c` holds `d`.
pub open spec fn in_col(g: Grid, n: int, c: int, d: int) -> bool {
    exists|r: int| 0 <= r < n && holds(#[trigger] g[r][c], d)
}

/// Some cell of the block in block-row `br` and block-column `bc` holds `d`.
pub open spec fn in_block(g: Grid, n: int, b: int, br: int, bc: int, d: int) -> bool {
    exists|r: int, c: int|
        0 <= r < n && 0 <= c < n && r / b == br && c / b == bc && holds(#[trigger] g[r][c], d)
}

/// `d` is a digit that no cell in the row, the column or the block of
/// `(r, c)` holds.
pub open spec fn candidate(g: Grid, n: int, b: int, r: int, c: int, d: int) -> bool {
    &&& 1 <= d <= n
    &&& !in_row(g, n, r, d)
    &&& !in_col(g, n, c, d)
    &&& !in_block(g, n, b, r / b, c / b, d)
}

/// The candidates of cell `(r, c)`.
pub open spec fn candidates(g: Grid, n: int, b: int, r: int, c: int) -> Set<int> {
    Set::new(|d: int| candidate(g, n, b, r, c, d))
}

/// Two different cells share a row, a column or a block.
pub open spec fn same_unit(b: int, r1: int, c1: int, r2: int, c2: int) -> bool {
    r1 == r2 || c1 == c2 || (r1 / b == r2 / b && c1 / b == c2 / b)
}

/// No row, column or block holds a digit twice.
pub open spec fn legal(g: Grid, n: int, b: int) -> bool {
    forall|r1: int, c1: int, r2: int, c2: int|
        0 <= r1 < n && 0 <= c1 < n && 0 <= r2 < n && 0 <= c2 < n && (r1 != r2 || c1 != c2)
            && same_unit(b, r1, c1, r2, c2) && (#[trigger] g[r1][c1]) is Some ==> g[r1][c1]
            != #[trigger] g[r2][c2]
}

/// No cell is empty.
pub open spec fn full(g: Grid, n: int) -> bool {
    forall|r: int, c: int| 0 <= r < n && 0 <= c < n ==> (#[trigger] g[r][c]) is Some
}

/// Every row, column and block holds every digit from 1 to `n`.
pub open spec fn complete(g: Grid, n: int, b: int) -> bool {
    &&& forall|r: int, d: int| 0 <= r < n && 1 <= d <= n ==> #[trigger] in_row(g, n, r, d)
    &&& forall|c: int, d: int| 0 <= c < n && 1 <= d <= n ==> #[trigger] in_col(g, n, c, d)
    &&& forall|br: int, bc: int, d: int|
        0 <= br < b && 0 <= bc < b && 1 <= d <= n ==> #[trigger] in_block(g, n, b, br, bc, d)
}

/// A solved grid: every row, column and block holds each digit from 1 to `n`
/// exactly once.
pub open spec fn solved(g: Grid, n: int, b: int) -> bool {
    &&& shaped(g, n)
    &&& in_range(g, n)
    &&& full(g, n)
    &&& legal(g, n, b)
    &&& complete(g, n, b)
}

/// Every cell that `g` has filled holds the same digit in `h`.
pub open spec fn extends(h: Grid, g: Grid, n: int) -> bool {
    forall|r: int, c: int|
        0 <= r < n && 0 <= c < n && (#[trigger] g[r][c]) is Some ==> h[r][c] == g[r][c]
}

/// `g` with cell `(r, c)` set to `value`.
pub open spec fn with_cell(g: Grid, r: int, c: int, value: Option<u8>) -> Grid {
    g.update(r, g[r].update(c, value))
}

/// `(r1, c1)` comes before `(r2, c2)` when the cells are read row by row.
pub open spec fn before(r1: int, c1: int, r2: int, c2: int) -> bool {
    r1 < r2 || (r1 == r2 && c1 < c2)
}

/// How many cells of row `r` before column `c` are empty.
pub open spec fn empty_in_row(g: Grid, r: int, c: int) -> nat
    decreases c,
{
    if c <= 0 {
        0
    } else {
        empty_in_row(g, r, c - 1) + if g[r][c - 1] is None {
            1nat
        } else {
            0nat
        }
    }
}

/// How many cells of the first `r` rows are empty.
pub open spec fn empty_in_rows(g: Grid, n: int, r: int) -> nat
    decreases r,
{
    if r <= 0 {
        0
    } else {
        empty_in_rows(g, n, r - 1) + empty_in_row(g, r - 1, n)
    }
}

/// How many cells of `g` are empty.
pub open spec fn empty_count(g: Grid, n: int) -> nat {
    empty_in_rows(g, n, n)
}

/// The block index of a row or column, and the bounds the loops need.
pub proof fn lemma_block_index(n: int, b: int, r: int)
    requires
        dims(n, b),
        0 <= r < n,
    ensures
        0 <= r / b < b,
        (r / b) * b <= r < (r / b) * b + b,
{
}

/// Row `br * b + i` lies in block-row `br`.
pub proof fn lemma_block_cell(n: int, b: int, br: int, i: int)
    requires
        dims(n, b),
        0 <= br < b,
        0 <= i < b,
    ensures
        0 <= br * b + i < n,
        (br * b + i) / b == br,
{
}

proof fn lemma_empty_in_row_update_other(g: Grid, r: int, c: int, h: Grid, k: int)
    requires
        0 <= k <= g[r].len(),
        h[r].len() == g[r].len(),
        forall|j: int| 0 <= j < k && j != c ==> h[r][j] == g[r][j],
        !(0 <= c < k),
    ensures
        empty_in_row(h, r, k) == empty_in_row(g, r, k),
    decreases k,
{
    if k > 0 {
        lemma_empty_in_row_update_other(g, r, c, h, k - 1);
    }
}

proof fn lemma_empty_in_row_fill(g: Grid, r: int, c: int, h: Grid, k: int)
    requires
        0 <= c < k <= g[r].len(),
        h[r].len() == g[r].len(),
        forall|j: int| 0 <= j < k && j != c ==> h[r][j] == g[r][j],
        g[r][c] is None,
        h[r][c] is Some,
    ensures
        empty_in_row(h, r, k) + 1 == empty_in_row(g, r, k),
    decreases k,
{
    if k - 1 == c {
        lemma_empty_in_row_update_other(g, r, c, h, k - 1);
    } else {
        lemma_empty_in_row_fill(g, r, c, h, k - 1);
    }
}

proof fn lemma_empty_in_rows_fill(g: Grid, n: int, r: int, c: int, d: u8, k: int)
    requires
        shaped(g, n),
        0 <= r < n,
        0 <= c < n,
        0 <= k <= n,
        g[r][c] is None,
    ensures
        empty_in_rows(with_cell(g, r, c, Some(d)), n, k) + (if r < k {
            1int
        } else {
            0int
        }) == empty_in_rows(g, n, k),
    decreases k,
{
    let h = with_cell(g, r, c, Some(d));
    if k > 0 {
        lemma_empty_in_rows_fill(g, n, r, c, d, k - 1);
        if k - 1 == r {
            lemma_empty_in_row_fill(g, r, c, h, n);
        } else {
            lemma_empty_in_row_update_other(g, k - 1, -1, h, n);
        }
    }
}

/// Filling an empty cell leaves one empty cell fewer.
pub proof fn lemma_fill_empty_count(g: Grid, n: int, r: int, c: int, d: u8)
    requires
        shaped(g, n),
        0 <= r < n,
        0 <= c < n,
        g[r][c] is None,
    ensures
        empty_count(with_cell(g, r, c, Some(d)), n) + 1 == empty_count(g, n),
        shaped(with_cell(g, r, c, Some(d)), n),
{
    lemma_empty_in_rows_fill(g, n, r, c, d, n);
}

/// Clearing a cell of a legal grid leaves it legal.
pub proof fn lemma_clear_legal(g: Grid, n: int, b: int, r: int, c: int)
    requires
        shaped(g, n),
        0 <= r < n,
        0 <= c < n,
        legal(g, n, b),
    ensures
        legal(with_cell(g, r, c, None), n, b),
        shaped(with_cell(g, r, c, None), n),
        in_range(g, n) ==> in_range(with_cell(g, r, c, None), n),
{
}

/// Placing a candidate in an empty cell of a legal grid leaves it legal, in
/// range and an extension of what it was.
pub proof fn lemma_place_candidate(g: Grid, n: int, b: int, r: int, c: int, d: u8)
    requires
        dims(n, b),
        shaped(g, n),
        0 <= r < n,
        0 <= c < n,
        g[r][c] is None,
        candidate(g, n, b, r, c, d as int),
    ensures
        legal(g, n, b) ==> legal(with_cell(g, r, c, Some(d)), n, b),
        in_range(g, n) ==> in_range(with_cell(g, r, c, Some(d)), n),
        extends(with_cell(g, r, c, Some(d)), g, n),
{
}

// ---------------------------------------------------------------------------
// The first duplicate, when the cells are read row by row
// ---------------------------------------------------------------------------
/// Cell `(r, c)` holds a digit that an earlier cell of its row holds.
pub open spec fn repeats_in_row(g: Grid, r: int, c: int) -> bool {
    g[r][c] is Some && exists|c2: int| 0 <= c2 < c && #[trigger] g[r][c2] == g[r][c]
}

/// Cell `(r, c)` holds a digit that an earlier cell of its column holds.
pub open spec fn repeats_in_col(g: Grid, r: int, c: int) -> bool {
    g[r][c] is Some && exists|r2: int| 0 <= r2 < r && #[trigger] g[r2][c] == g[r][c]
}

/// Cell `(r, c)` holds a digit that an earlier cell of its block holds.
pub open spec fn repeats_in_block(g: Grid, n: int, b: int, r: int, c: int) -> bool {
    g[r][c] is Some && exists|r2: int, c2: int|
        0 <= r2 < n && 0 <= c2 < n && before(r2, c2, r, c) && r2 / b == r / b && c2 / b == c / b
            && #[trigger] g[r2][c2] == g[r][c]
}

/// Cell `(r, c)` holds a digit that an earlier cell of its row, column or block holds.
pub open spec fn repeats(g: Grid, n: int, b: int, r: int, c: int) -> bool {
    repeats_in_row(g, r, c) || repeats_in_col(g, r, c) || repeats_in_block(g, n, b, r, c)
}

/// `(r, c)` is the first cell, read row by row, that repeats a digit of one of its units.
pub open spec fn first_repeat(g: Grid, n: int, b: int, r: int, c: int) -> bool {
    &&& 0 <= r < n && 0 <= c < n
    &&& repeats(g, n, b, r, c)
    &&& forall|r2: int, c2: int|
        0 <= r2 < n && 0 <= c2 < n && before(r2, c2, r, c) ==> !#[trigger] repeats(g, n, b, r2, c2)
}

/// A grid in which no cell repeats a digit of an earlier cell of its units is legal.
pub proof fn lemma_no_repeat_legal(g: Grid, n: int, b: int)
    requires
        forall|r: int, c: int| 0 <= r < n && 0 <= c < n ==> !#[trigger] repeats(g, n, b, r, c),
    ensures
        legal(g, n, b),
{
    assert forall|r1: int, c1: int, r2: int, c2: int|
        0 <= r1 < n && 0 <= c1 < n && 0 <= r2 < n && 0 <= c2 < n && (r1 != r2 || c1 != c2)
            && same_unit(b, r1, c1, r2, c2) && (#[trigger] g[r1][c1]) is Some implies g[r1][c1]
        != #[trigger] g[r2][c2] by {
        if g[r1][c1] == g[r2][c2] {
            if before(r1, c1, r2, c2) {
                assert(!repeats(g, n, b, r2, c2));
            } else {
                assert(!repeats(g, n, b, r1, c1));
            }
        }
    }
}

/// Cells read row by row come in the order of their numbers `r * n + c`.
pub proof fn lemma_cell_order(n: int, r1: int, c1: int, r2: int, c2: int)
    requires
        0 <= c1 < n,
        0 <= c2 < n,
    ensures
        before(r1, c1, r2, c2) <==> r1 * n + c1 < r2 * n + c2,
{
    if r1 < r2 {
        assert(r1 * n + n <= r2 * n) by (nonlinear_arith)
            requires
                r1 + 1 <= r2,
                0 < n,
        ;
    } else if r1 > r2 {
        assert(r2 * n + n <= r1 * n) by (nonlinear_arith)
            requires
                r2 + 1 <= r1,
                0 < n,
        ;
    }
}

// ---------------------------------------------------------------------------
// A full legal grid is solved
// ---------------------------------------------------------------------------
/// `n` different digits from 1 to `n` are all of them.
pub proof fn lemma_all_digits(s: Seq<int>, n: int, d: int)
    requires
        s.len() == n,
        forall|i: int| 0 <= i < n ==> 1 <= #[trigger] s[i] <= n,
        forall|i: int, j: int| 0 <= i < j < n ==> s[i] != s[j],
        1 <= d <= n,
    ensures
        exists|i: int| 0 <= i < n && #[trigger] s[i] == d,
{
    s.unique_seq_to_set();
    vstd::set_lib::lemma_int_range(1, n + 1);
    let every = vstd::set_lib::set_int_range(1, n + 1);
    vstd::set_lib::lemma_subset_equality(s.to_set(), every);
    assert(every.contains(d));
}

/// The digit of a cell of a full grid.
pub open spec fn digit_at(g: Grid, r: int, c: int) -> int {
    g[r][c].unwrap() as int
}

/// In a full legal grid every row, column and block holds every digit.
pub proof fn lemma_full_legal_solved(g: Grid, n: int, b: int)
    requires
        dims(n, b),
        shaped(g, n),
        in_range(g, n),
        full(g, n),
        legal(g, n, b),
    ensures
        solved(g, n, b),
{
    assert forall|r: int, d: int| 0 <= r < n && 1 <= d <= n implies #[trigger] in_row(g, n, r, d) by {
        let s = Seq::new(n as nat, |c: int| digit_at(g, r, c));
        lemma_all_digits(s, n, d);
        let c = choose|c: int| 0 <= c < n && #[trigger] s[c] == d;
    }
    assert forall|c: int, d: int| 0 <= c < n && 1 <= d <= n implies #[trigger] in_col(g, n, c, d) by {
        let s = Seq::new(n as nat, |r: int| digit_at(g, r, c));
        lemma_all_digits(s, n, d);
    }
    assert forall|br: int, bc: int, d: int|
        0 <= br < b && 0 <= bc < b && 1 <= d <= n implies #[trigger] in_block(
        g,
        n,
        b,
        br,
        bc,
        d,
    ) by {
        let s = Seq::new(n as nat, |t: int| digit_at(g, br * b + t / b, bc * b + t % b));
        assert forall|i: int, j: int| 0 <= i < j < n implies s[i] != s[j] by {
            lemma_block_cell(n, b, br, i / b);
            lemma_block_cell(n, b, bc, i % b);
        }
        lemma_all_digits(s, n, d);
    }
}

// ---------------------------------------------------------------------------
// Solutions of a grid
// ---------------------------------------------------------------------------
/// `s` is a solution of `g`: a solved grid that extends it.
pub open spec fn solution_of(s: Grid, g: Grid, n: int, b: int) -> bool {
    solved(s, n, b) && extends(s, g, n)
}

/// What a solution holds in a cell that the grid leaves empty is a candidate of that cell.
pub proof fn lemma_solution_candidate(s: Grid, g: Grid, n: int, b: int, r: int, c: int)
    requires
        dims(n, b),
        solution_of(s, g, n, b),
        0 <= r < n,
        0 <= c < n,
        g[r][c] is None,
    ensures
        s[r][c] is Some,
        candidate(g, n, b, r, c, digit_at(s, r, c)),
{
}

/// A solution of a grid is a solution of the grid with one of the
/// solution's own digits filled in.
pub proof fn lemma_solution_with_cell(s: Grid, g: Grid, n: int, b: int, r: int, c: int)
    requires
        shaped(g, n),
        solution_of(s, g, n, b),
        0 <= r < n,
        0 <= c < n,
    ensures
        solution_of(s, with_cell(g, r, c, s[r][c]), n, b),
{
}

} // verus!
