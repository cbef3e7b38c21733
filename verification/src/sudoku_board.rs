//! The board: a grid of optional digits, with the digits used in each row,
//! column and block kept beside it.

use crate::grid::{
    before, candidate, candidates, dims, first_repeat, full, holds, in_block, in_col, in_range,
    in_row, legal, lemma_block_index, lemma_cell_order, lemma_no_repeat_legal, repeats,
    repeats_in_block, repeats_in_col, repeats_in_row, shaped, with_cell, Grid,
};
use crate::literal::{
    chars_of, display_border, display_rows, display_text, lemma_text_round_trip, literal_text,
    next_token, parsed_cell, parsed_grid, push_cell, push_decimal, row_text, rows_text,
    token_cell, tokens, tokens_from,
};
use crate::number_options::NumberOptions;
use core::ops::Not;
use vstd::prelude::*;
use vstd::string::StringExecFns;

verus! {

/// The board of the common puzzle: nine by nine, with blocks of three by three.
pub type DefaultBoard = SudokuBoard<9, 3>;

/// Struct that keeps track of the numbers in the board and also what values are already used
/// in each row/column/block
#[derive(Eq, PartialEq, Debug)]
pub struct SudokuBoard<const SIZE: usize, const BLOCK_SIZE: usize> {
    pub numbers: [[Option<u8>; SIZE]; SIZE],
    rows: [NumberOptions<SIZE>; SIZE],
    cols: [NumberOptions<SIZE>; SIZE],
    blocks: [[NumberOptions<SIZE>; BLOCK_SIZE]; BLOCK_SIZE],
}

/// The unit in which a validating parse met a digit for the second time.
#[derive(Clone, Copy, Eq, PartialEq, Debug)]
pub enum BoardError {
    RowError(usize),
    ColError(usize),
    BlockError(usize, usize),
}

/// What a used-set becomes when a cell that held `prev` is given `value`.
pub open spec fn used_after(used: Set<int>, prev: Option<u8>, value: Option<u8>) -> Set<int> {
    let cleared = match prev {
        Some(p) => used.remove(p as int),
        None => used,
    };
    match value {
        Some(v) => cleared.insert(v as int),
        None => cleared,
    }
}

/// `g` with the cells cleared that `keep` does not keep: cell `(r, c)` goes
/// by entry `r * n + c`.
pub open spec fn retained(g: Grid, keep: Seq<bool>, n: int) -> Grid {
    Seq::new(
        n as nat,
        |r: int|
            Seq::new(
                n as nat,
                |c: int|
                    if keep[r * n + c] {
                        g[r][c]
                    } else {
                        None
                    },
            ),
    )
}

/// The unit that a repeated digit at `(r, c)` is blamed on: the row, else the
/// column, else the block.
pub open spec fn blamed(g: Grid, n: int, b: int, r: int, c: int) -> BoardError {
    if repeats_in_row(g, r, c) {
        BoardError::RowError(r as usize)
    } else if repeats_in_col(g, r, c) {
        BoardError::ColError(c as usize)
    } else {
        BoardError::BlockError((r / b) as usize, (c / b) as usize)
    }
}

/// The error of the first cell, read row by row, that repeats a digit of an
/// earlier cell of its row, column or block; none in a grid without one.
pub open spec fn first_error(g: Grid, n: int, b: int) -> Option<BoardError> {
    if exists|r: int, c: int| first_repeat(g, n, b, r, c) {
        let (r, c) = choose|r: int, c: int| first_repeat(g, n, b, r, c);
        Some(blamed(g, n, b, r, c))
    } else {
        None
    }
}

/// The first cell that repeats a digit is the one that `first_error` blames.
pub proof fn lemma_first_error_is(g: Grid, n: int, b: int, r: int, c: int)
    requires
        first_repeat(g, n, b, r, c),
    ensures
        first_error(g, n, b) == Some(blamed(g, n, b, r, c)),
{
}

/// A grid in which no cell repeats a digit has no first error and is legal.
pub proof fn lemma_first_error_none(g: Grid, n: int, b: int)
    requires
        forall|r: int, c: int| 0 <= r < n && 0 <= c < n ==> !#[trigger] repeats(g, n, b, r, c),
    ensures
        first_error(g, n, b) is None,
        legal(g, n, b),
{
    lemma_no_repeat_legal(g, n, b);
}

impl<const SIZE: usize, const BLOCK_SIZE: usize> SudokuBoard<SIZE, BLOCK_SIZE> {
    /// The sizes are a supported pair: `SIZE == BLOCK_SIZE * BLOCK_SIZE`, at most 16.
    pub open spec fn dims_ok() -> bool {
        dims(SIZE as int, BLOCK_SIZE as int)
    }

    /// The grid of the board.
    pub closed spec fn grid(self) -> Grid {
        Seq::new(SIZE as nat, |r: int| self.numbers@[r]@)
    }

    /// The digits the board records as used in row `r`.
    pub closed spec fn row_used(self, r: int) -> Set<int> {
        self.rows@[r]@
    }

    /// The digits the board records as used in column `c`.
    pub closed spec fn col_used(self, c: int) -> Set<int> {
        self.cols@[c]@
    }

    /// The digits the board records as used in the block at `(br, bc)`.
    pub closed spec fn block_used(self, br: int, bc: int) -> Set<int> {
        self.blocks@[br]@[bc]@
    }

    /// The sizes are supported and every digit of the grid lies in 1 to `SIZE`.
    pub open spec fn wf(self) -> bool {
        &&& Self::dims_ok()
        &&& shaped(self.grid(), SIZE as int)
        &&& in_range(self.grid(), SIZE as int)
    }

    /// The used-sets hold exactly the digits of their row, column or block.
    pub open spec fn consistent(self) -> bool {
        &&& forall|r: int, d: int|
            0 <= r < SIZE ==> (#[trigger] self.row_used(r).contains(d) <==> in_row(
                self.grid(),
                SIZE as int,
                r,
                d,
            ))
        &&& forall|c: int, d: int|
            0 <= c < SIZE ==> (#[trigger] self.col_used(c).contains(d) <==> in_col(
                self.grid(),
                SIZE as int,
                c,
                d,
            ))
        &&& forall|br: int, bc: int, d: int|
            0 <= br < BLOCK_SIZE && 0 <= bc < BLOCK_SIZE ==> (#[trigger] self.block_used(
                br,
                bc,
            ).contains(d) <==> in_block(self.grid(), SIZE as int, BLOCK_SIZE as int, br, bc, d))
    }

    /// Whether `d` is a digit from 1 to 16 that none of the used-sets of cell
    /// `(r, c)` holds.
    pub open spec fn unused(self, r: int, c: int, d: int) -> bool {
        &&& 1 <= d <= 16
        &&& !self.row_used(r).contains(d)
        &&& !self.col_used(c).contains(d)
        &&& !self.block_used(r / (BLOCK_SIZE as int), c / (BLOCK_SIZE as int)).contains(d)
    }

    /// The digits from 1 to `SIZE` that the used-sets of cell `(r, c)` do not hold.
    pub open spec fn possible(self, r: int, c: int) -> Set<int> {
        Set::new(
            |d: int|
                1 <= d <= SIZE && !self.row_used(r).contains(d) && !self.col_used(c).contains(d)
                    && !self.block_used(r / (BLOCK_SIZE as int), c / (BLOCK_SIZE as int)).contains(
                    d,
                ),
        )
    }

    /// On a consistent board the possible digits of a cell are its candidates.
    pub proof fn lemma_possible_candidates(self, r: int, c: int)
        requires
            self.wf(),
            self.consistent(),
            0 <= r < SIZE,
            0 <= c < SIZE,
        ensures
            self.possible(r, c) == candidates(self.grid(), SIZE as int, BLOCK_SIZE as int, r, c),
    {
        lemma_block_index(SIZE as int, BLOCK_SIZE as int, r);
        lemma_block_index(SIZE as int, BLOCK_SIZE as int, c);
    }

    /// Two consistent boards with the same grid are the same board.
    pub proof fn lemma_same_grid(self, other: Self)
        requires
            Self::dims_ok(),
            self.consistent(),
            other.consistent(),
            self.grid() == other.grid(),
        ensures
            self == other,
    {
        assert forall|r: int| 0 <= r < SIZE implies self.numbers@[r] == other.numbers@[r] by {
            assert(self.grid()[r] == other.grid()[r]);
        }
        assert(self.numbers =~= other.numbers);
        assert forall|r: int| 0 <= r < SIZE implies self.rows@[r] == other.rows@[r] by {
            assert forall|d: int| 1 <= d <= 16 implies self.rows@[r].has(d) == other.rows@[r].has(
                d,
            ) by {
                assert(self.row_used(r).contains(d) == other.row_used(r).contains(d));
            }
            self.rows@[r].lemma_ext_equal(other.rows@[r]);
        }
        assert(self.rows =~= other.rows);
        assert forall|c: int| 0 <= c < SIZE implies self.cols@[c] == other.cols@[c] by {
            assert forall|d: int| 1 <= d <= 16 implies self.cols@[c].has(d) == other.cols@[c].has(
                d,
            ) by {
                assert(self.col_used(c).contains(d) == other.col_used(c).contains(d));
            }
            self.cols@[c].lemma_ext_equal(other.cols@[c]);
        }
        assert(self.cols =~= other.cols);
        assert forall|br: int| 0 <= br < BLOCK_SIZE implies self.blocks@[br] == other.blocks@[br] by {
            assert forall|bc: int| 0 <= bc < BLOCK_SIZE implies self.blocks@[br]@[bc]
                == other.blocks@[br]@[bc] by {
                assert forall|d: int| 1 <= d <= 16 implies self.blocks@[br]@[bc].has(d)
                    == other.blocks@[br]@[bc].has(d) by {
                    assert(self.block_used(br, bc).contains(d) == other.block_used(
                        br,
                        bc,
                    ).contains(d));
                }
                self.blocks@[br]@[bc].lemma_ext_equal(other.blocks@[br]@[bc]);
            }
        }
        assert(self.blocks =~= other.blocks);
    }

    /// Writing a board and reading the literal gives the same board again:
    /// the same grid and the same used-sets.
    pub proof fn lemma_literal_round_trip(self, again: Self)
        requires
            self.wf(),
            self.consistent(),
            again.consistent(),
            again.grid() == parsed_grid(literal_text(self.grid(), SIZE as int), SIZE as int),
        ensures
            again == self,
    {
        lemma_text_round_trip(self.grid(), SIZE as int);
        again.lemma_same_grid(self);
    }

    /// A board with every cell empty and nothing recorded as used.
    pub fn new() -> (r: Self)
        requires
            Self::dims_ok(),
        ensures
            r.wf(),
            r.consistent(),
            legal(r.grid(), SIZE as int, BLOCK_SIZE as int),
            forall|i: int, j: int| 0 <= i < SIZE && 0 <= j < SIZE ==> r.grid()[i][j] is None,
            forall|i: int| 0 <= i < SIZE ==> r.row_used(i) =~= Set::<int>::empty(),
            forall|i: int| 0 <= i < SIZE ==> r.col_used(i) =~= Set::<int>::empty(),
            forall|i: int, j: int|
                0 <= i < BLOCK_SIZE && 0 <= j < BLOCK_SIZE ==> r.block_used(i, j)
                    =~= Set::<int>::empty(),
    {
        let none: NumberOptions<SIZE> = NumberOptions::default();
        let r = SudokuBoard {
            numbers: [[None; SIZE]; SIZE],
            cols: [none; SIZE],
            rows: [none; SIZE],
            blocks: [[none; BLOCK_SIZE]; BLOCK_SIZE],
        };
        r
    }

    /// Gives cell `(row, col)` the value `value`: the digit the cell held
    /// leaves the used-sets of its row, column and block, then the new digit
    /// enters them. Nothing is checked: a digit may come to stand twice in a
    /// unit.
    pub fn set_number(&mut self, value: Option<u8>, row: usize, col: usize)
        requires
            old(self).wf(),
            row < SIZE,
            col < SIZE,
            value matches Some(v) ==> 1 <= v <= SIZE,
        ensures
            final(self).wf(),
            final(self).grid() == with_cell(old(self).grid(), row as int, col as int, value),
            forall|r: int|
                0 <= r < SIZE ==> #[trigger] final(self).row_used(r) == if r == row {
                    used_after(old(self).row_used(r), old(self).grid()[row as int][col as int], value)
                } else {
                    old(self).row_used(r)
                },
            forall|c: int|
                0 <= c < SIZE ==> #[trigger] final(self).col_used(c) == if c == col {
                    used_after(old(self).col_used(c), old(self).grid()[row as int][col as int], value)
                } else {
                    old(self).col_used(c)
                },
            forall|br: int, bc: int|
                0 <= br < BLOCK_SIZE && 0 <= bc < BLOCK_SIZE ==> #[trigger] final(self).block_used(
                    br,
                    bc,
                ) == if br == row / BLOCK_SIZE && bc == col / BLOCK_SIZE {
                    used_after(
                        old(self).block_used(br, bc),
                        old(self).grid()[row as int][col as int],
                        value,
                    )
                } else {
                    old(self).block_used(br, bc)
                },
            old(self).consistent() && (old(self).grid()[row as int][col as int] is None || legal(
                old(self).grid(),
                SIZE as int,
                BLOCK_SIZE as int,
            )) ==> final(self).consistent(),
            legal(old(self).grid(), SIZE as int, BLOCK_SIZE as int) && (value matches Some(v)
                ==> candidate(
                with_cell(old(self).grid(), row as int, col as int, None),
                SIZE as int,
                BLOCK_SIZE as int,
                row as int,
                col as int,
                v as int,
            )) ==> legal(final(self).grid(), SIZE as int, BLOCK_SIZE as int),
    {
        let block_row = row / BLOCK_SIZE;
        let block_col = col / BLOCK_SIZE;
        let prev = self.numbers[row][col];
        if let Some(val) = prev {
            let mut used = self.rows[row];
            used.remove_number(val);
            self.rows[row] = used;
            let mut used = self.cols[col];
            used.remove_number(val);
            self.cols[col] = used;
            let mut used = self.blocks[block_row][block_col];
            used.remove_number(val);
            self.blocks[block_row][block_col] = used;
            self.numbers[row][col] = None;
        }
        if let Some(val) = value {
            let mut used = self.rows[row];
            used.add_number(val);
            self.rows[row] = used;
            let mut used = self.cols[col];
            used.add_number(val);
            self.cols[col] = used;
            let mut used = self.blocks[block_row][block_col];
            used.add_number(val);
            self.blocks[block_row][block_col] = used;
            self.numbers[row][col] = value;
        }
        proof {
            let g = old(self).grid();
            let h = self.grid();
            assert(h =~~= with_cell(g, row as int, col as int, value));
            if old(self).consistent() && (prev is None || legal(
                g,
                SIZE as int,
                BLOCK_SIZE as int,
            )) {
                Self::lemma_set_consistent(*old(self), *self, row as int, col as int, value);
            }
            if legal(g, SIZE as int, BLOCK_SIZE as int) {
                let cleared = with_cell(g, row as int, col as int, None);
                if let Some(v) = value {
                    if candidate(
                        cleared,
                        SIZE as int,
                        BLOCK_SIZE as int,
                        row as int,
                        col as int,
                        v as int,
                    ) {
                        assert(with_cell(cleared, row as int, col as int, value) =~~= h);
                    }
                }
            }
        }
    }

    /// Giving a cell a value in the way `set_number` does keeps a board
    /// consistent, if the cell was empty or no unit held a digit twice.
    proof fn lemma_set_consistent(before: Self, after: Self, row: int, col: int, value: Option<u8>)
        requires
            Self::dims_ok(),
            0 <= row < SIZE,
            0 <= col < SIZE,
            before.consistent(),
            before.grid()[row][col] is None || legal(
                before.grid(),
                SIZE as int,
                BLOCK_SIZE as int,
            ),
            after.grid() == with_cell(before.grid(), row, col, value),
            forall|r: int|
                0 <= r < SIZE ==> #[trigger] after.row_used(r) == if r == row {
                    used_after(before.row_used(r), before.grid()[row][col], value)
                } else {
                    before.row_used(r)
                },
            forall|c: int|
                0 <= c < SIZE ==> #[trigger] after.col_used(c) == if c == col {
                    used_after(before.col_used(c), before.grid()[row][col], value)
                } else {
                    before.col_used(c)
                },
            forall|br: int, bc: int|
                0 <= br < BLOCK_SIZE && 0 <= bc < BLOCK_SIZE ==> #[trigger] after.block_used(br, bc)
                    == if br == row / (BLOCK_SIZE as int) && bc == col / (BLOCK_SIZE as int) {
                    used_after(before.block_used(br, bc), before.grid()[row][col], value)
                } else {
                    before.block_used(br, bc)
                },
        ensures
            after.consistent(),
    {
        let n = SIZE as int;
        let b = BLOCK_SIZE as int;
        let g = before.grid();
        let h = after.grid();
        assert forall|r1: int, c1: int| 0 <= r1 < n && 0 <= c1 < n implies #[trigger] h[r1][c1] == (
        if r1 == row && c1 == col {
            value
        } else {
            g[r1][c1]
        }) by {}
        assert forall|r: int, d: int| 0 <= r < n implies (#[trigger] after.row_used(r).contains(d)
            <==> in_row(h, n, r, d)) by {
            if in_row(g, n, r, d) {
                let c = choose|c: int| 0 <= c < n && holds(#[trigger] g[r][c], d);
                if !(r == row && c == col) {
                    assert(holds(h[r][c], d));
                }
            }
            if in_row(h, n, r, d) {
                let c = choose|c: int| 0 <= c < n && holds(#[trigger] h[r][c], d);
            }
            if r == row && holds(value, d) {
                assert(holds(h[row][col], d));
            }
        }
        assert forall|c: int, d: int| 0 <= c < n implies (#[trigger] after.col_used(c).contains(d)
            <==> in_col(h, n, c, d)) by {
            if in_col(g, n, c, d) {
                let r = choose|r: int| 0 <= r < n && holds(#[trigger] g[r][c], d);
                if !(r == row && c == col) {
                    assert(holds(h[r][c], d));
                }
            }
            if in_col(h, n, c, d) {
                let r = choose|r: int| 0 <= r < n && holds(#[trigger] h[r][c], d);
            }
            if c == col && holds(value, d) {
                assert(holds(h[row][col], d));
            }
        }
        assert forall|br: int, bc: int, d: int| 0 <= br < b && 0 <= bc < b implies (
        #[trigger] after.block_used(br, bc).contains(d) <==> in_block(h, n, b, br, bc, d)) by {
            if in_block(g, n, b, br, bc, d) {
                let (r, c) = choose|r: int, c: int|
                    0 <= r < n && 0 <= c < n && r / b == br && c / b == bc && holds(
                        #[trigger] g[r][c],
                        d,
                    );
                if !(r == row && c == col) {
                    assert(holds(h[r][c], d));
                }
            }
        }
    }

    /// Clears every cell that `keep` does not keep, where `keep` has one
    /// entry for each cell, row by row.
    pub fn retain(&mut self, keep: &Vec<bool>)
        requires
            old(self).wf(),
            old(self).consistent(),
            legal(old(self).grid(), SIZE as int, BLOCK_SIZE as int),
            keep.len() == SIZE * SIZE,
        ensures
            final(self).wf(),
            final(self).consistent(),
            legal(final(self).grid(), SIZE as int, BLOCK_SIZE as int),
            final(self).grid() == retained(old(self).grid(), keep@, SIZE as int),
    {
        let ghost g = self.grid();
        let ghost n = SIZE as int;
        let mut index: usize = 0;
        let mut row: usize = 0;
        while row < SIZE
            invariant
                n == SIZE,
                row <= SIZE,
                index == row * SIZE,
                keep.len() == SIZE * SIZE,
                self.wf(),
                self.consistent(),
                legal(self.grid(), n, BLOCK_SIZE as int),
                forall|r: int, c: int|
                    0 <= r < n && 0 <= c < n ==> #[trigger] self.grid()[r][c] == if before(
                        r,
                        c,
                        row as int,
                        0,
                    ) && !keep@[r * n + c] {
                        None
                    } else {
                        g[r][c]
                    },
            decreases SIZE - row,
        {
            let mut col: usize = 0;
            while col < SIZE
                invariant
                    n == SIZE,
                    row < SIZE,
                    col <= SIZE,
                    index == row * SIZE + col,
                    keep.len() == SIZE * SIZE,
                    self.wf(),
                    self.consistent(),
                    legal(self.grid(), n, BLOCK_SIZE as int),
                    forall|r: int, c: int|
                        0 <= r < n && 0 <= c < n ==> #[trigger] self.grid()[r][c] == if before(
                            r,
                            c,
                            row as int,
                            col as int,
                        ) && !keep@[r * n + c] {
                            None
                        } else {
                            g[r][c]
                        },
                decreases SIZE - col,
            {
                proof {
                    assert(row * SIZE + col < SIZE * SIZE) by (nonlinear_arith)
                        requires
                            row < SIZE,
                            col < SIZE,
                    ;
                }
                if !keep[index] {
                    self.set_number(None, row, col);
                }
                index = index + 1;
                col = col + 1;
            }
            proof {
                assert((row + 1) * SIZE == row * SIZE + SIZE) by (nonlinear_arith);
            }
            row = row + 1;
        }
        proof {
            let h = self.grid();
            let k = retained(g, keep@, n);
            assert forall|r: int| 0 <= r < n implies h[r] == k[r] by {
            }
        }
    }

    /// What cell `(row, col)` holds.
    pub fn get_number(&self, row: usize, col: usize) -> (r: Option<u8>)
        requires
            row < SIZE,
            col < SIZE,
        ensures
            r == self.grid()[row as int][col as int],
    {
        self.numbers[row][col]
    }

    /// The complement of the union of the three used-sets of the cell. The
    /// grid itself is not consulted, so a filled cell has possible digits too.
    pub fn get_possible(&self, row: usize, col: usize) -> (r: NumberOptions<SIZE>)
        requires
            Self::dims_ok(),
            row < SIZE,
            col < SIZE,
        ensures
            r.digits() == self.possible(row as int, col as int),
            forall|d: int| #[trigger] r.has(d) == self.unused(row as int, col as int, d),
    {
        let used = self.rows[row] | self.cols[col] | self.blocks[row / BLOCK_SIZE][col
            / BLOCK_SIZE];
        let r = used.not();
        r
    }

    /// What the scan of a literal knows when it is about to fill `(row, col)`
    /// from token `k` at position `pos`.
    pub open spec fn scanned(
        self,
        text: Seq<char>,
        pos: int,
        more: bool,
        k: int,
        row: int,
        col: int,
    ) -> bool {
        &&& 0 <= pos <= text.len()
        &&& 0 <= row <= SIZE
        &&& 0 <= col < SIZE
        &&& k == row * SIZE + col
        &&& 0 <= k <= tokens(text).len()
        &&& more ==> tokens_from(text, pos) == tokens(text).skip(k)
        &&& !more ==> tokens(text).len() == k
        &&& self.wf()
        &&& self.consistent()
        &&& forall|r: int, c: int|
            0 <= r < SIZE && 0 <= c < SIZE ==> #[trigger] self.grid()[r][c] == if before(
                r,
                c,
                row,
                col,
            ) {
                parsed_cell(text, r * SIZE + c, SIZE as int)
            } else {
                None
            }
    }

    /// The scan has read the whole grid: every cell holds what its token puts there.
    proof fn lemma_scan_done(self, text: Seq<char>, pos: int, more: bool, k: int, row: int, col: int)
        requires
            self.scanned(text, pos, more, k, row, col),
            !more || row >= SIZE,
        ensures
            self.grid() == parsed_grid(text, SIZE as int),
    {
        let n = SIZE as int;
        let g = self.grid();
        let p = parsed_grid(text, n);
        assert forall|r: int| 0 <= r < n implies g[r] == p[r] by {
            assert forall|c: int| 0 <= c < n implies g[r][c] == p[r][c] by {
                if !before(r, c, row, col) {
                    lemma_cell_order(n, r, c, row, col);
                }
            }
        }
    }

    /// The scan moves on by one cell.
    proof fn lemma_scan_next(
        before_board: Self,
        after_board: Self,
        text: Seq<char>,
        pos: int,
        end: int,
        k: int,
        row: int,
        col: int,
    )
        requires
            before_board.scanned(text, pos, true, k, row, col),
            row < SIZE,
            pos < end <= text.len(),
            tokens_from(text, pos).len() > 0,
            tokens_from(text, pos).drop_first() == tokens_from(text, end),
            after_board.wf(),
            after_board.consistent(),
            after_board.grid() == with_cell(
                before_board.grid(),
                row,
                col,
                token_cell(tokens_from(text, pos)[0], SIZE as int),
            ),
        ensures
            after_board.scanned(
                text,
                end,
                true,
                k + 1,
                if col + 1 == SIZE {
                    row + 1
                } else {
                    row
                },
                if col + 1 == SIZE {
                    0
                } else {
                    col + 1
                },
            ),
            parsed_cell(text, k, SIZE as int) == token_cell(
                tokens_from(text, pos)[0],
                SIZE as int,
            ),
    {
        let n = SIZE as int;
        let all = tokens(text);
        assert(all.skip(k).drop_first() =~= all.skip(k + 1));
        assert((row + 1) * n == row * n + n) by (nonlinear_arith);
        let h = after_board.grid();
        let row2 = if col + 1 == SIZE {
            row + 1
        } else {
            row
        };
        let col2 = if col + 1 == SIZE {
            0
        } else {
            col + 1
        };
        assert forall|r: int, c: int| 0 <= r < SIZE && 0 <= c < SIZE implies #[trigger] h[r][c]
            == if before(r, c, row2, col2) {
            parsed_cell(text, r * SIZE + c, SIZE as int)
        } else {
            None
        } by {
        }
    }

    /// Reads a board from a literal. The tokens, which whitespace separates,
    /// fill the cells row by row: a decimal number from 1 to `SIZE` puts that
    /// digit in its cell, any other token leaves its cell empty. Cells for
    /// which no token is left stay empty, and tokens beyond the last cell are
    /// ignored. Nothing is checked: a digit may come to stand twice in a unit.
    pub fn from_literal(literal: &str) -> (r: Self)
        requires
            Self::dims_ok(),
        ensures
            r.wf(),
            r.consistent(),
            r.grid() == parsed_grid(literal@, SIZE as int),
    {
        let chars = chars_of(literal);
        let ghost text = literal@;
        let mut board = Self::new();
        let mut pos: usize = 0;
        let mut row: usize = 0;
        let mut col: usize = 0;
        let mut more = true;
        let ghost mut k: int = 0;
        proof {
            assert(tokens(text).skip(0) =~= tokens(text));
        }
        while more && row < SIZE
            invariant
                chars@ == text,
                board.scanned(text, pos as int, more, k, row as int, col as int),
            decreases
                    chars.len() - pos + if more {
                        1int
                    } else {
                        0int
                    },
        {
            match next_token(&chars, pos, SIZE) {
                None => {
                    more = false;
                },
                Some((end, cell)) => {
                    let ghost before_board = board;
                    board.set_number(cell, row, col);
                    proof {
                        Self::lemma_scan_next(
                            before_board,
                            board,
                            text,
                            pos as int,
                            end as int,
                            k,
                            row as int,
                            col as int,
                        );
                        k = k + 1;
                    }
                    col = col + 1;
                    if col == SIZE {
                        col = 0;
                        row = row + 1;
                    }
                    pos = end;
                },
            }
        }
        proof {
            board.lemma_scan_done(text, pos as int, more, k, row as int, col as int);
        }
        board
    }

    /// Reads a board from a literal as `from_literal` does, but stops at the
    /// first digit that its row, its column or its block already holds, and
    /// names that unit: the row if it is the row, else the column if it is the
    /// column, else the block. A board that is returned is legal.
    pub fn from_literal_checked(literal: &str) -> (r: Result<Self, BoardError>)
        requires
            Self::dims_ok(),
        ensures
            match r {
                Ok(board) => {
                    &&& first_error(
                        parsed_grid(literal@, SIZE as int),
                        SIZE as int,
                        BLOCK_SIZE as int,
                    ) is None
                    &&& board.wf()
                    &&& board.consistent()
                    &&& board.grid() == parsed_grid(literal@, SIZE as int)
                    &&& legal(board.grid(), SIZE as int, BLOCK_SIZE as int)
                },
                Err(error) => first_error(
                    parsed_grid(literal@, SIZE as int),
                    SIZE as int,
                    BLOCK_SIZE as int,
                ) == Some(error),
            },
    {
        let chars = chars_of(literal);
        let ghost text = literal@;
        let ghost n = SIZE as int;
        let ghost b = BLOCK_SIZE as int;
        let ghost p = parsed_grid(text, n);
        let mut board = Self::new();
        let mut pos: usize = 0;
        let mut row: usize = 0;
        let mut col: usize = 0;
        let mut more = true;
        let ghost mut k: int = 0;
        proof {
            assert(tokens(text).skip(0) =~= tokens(text));
        }
        while more && row < SIZE
            invariant
                n == SIZE,
                b == BLOCK_SIZE,
                chars@ == text,
                text == literal@,
                p == parsed_grid(text, n),
                board.scanned(text, pos as int, more, k, row as int, col as int),
                forall|r: int, c: int|
                    0 <= r < n && 0 <= c < n && before(r, c, row as int, col as int)
                        ==> !#[trigger] repeats(p, n, b, r, c),
            decreases
                    chars.len() - pos + if more {
                        1int
                    } else {
                        0int
                    },
        {
            match next_token(&chars, pos, SIZE) {
                None => {
                    more = false;
                },
                Some((end, cell)) => {
                    let ghost before_board = board;
                    proof {
                        Self::lemma_scan_cell(board, text, pos as int, k, row as int, col as int);
                    }
                    if let Some(number) = cell {
                        proof {
                            lemma_block_index(n, b, row as int);
                            lemma_block_index(n, b, col as int);
                        }
                        if board.rows[row].has_number(number) {
                            proof {
                                lemma_first_error_is(p, n, b, row as int, col as int);
                            }
                            return Err(BoardError::RowError(row));
                        }
                        if board.cols[col].has_number(number) {
                            proof {
                                lemma_first_error_is(p, n, b, row as int, col as int);
                            }
                            return Err(BoardError::ColError(col));
                        }
                        let block_row = row / BLOCK_SIZE;
                        let block_col = col / BLOCK_SIZE;
                        if board.blocks[block_row][block_col].has_number(number) {
                            proof {
                                lemma_first_error_is(p, n, b, row as int, col as int);
                            }
                            return Err(BoardError::BlockError(block_row, block_col));
                        }
                    }
                    board.set_number(cell, row, col);
                    proof {
                        Self::lemma_scan_next(
                            before_board,
                            board,
                            text,
                            pos as int,
                            end as int,
                            k,
                            row as int,
                            col as int,
                        );
                        k = k + 1;
                    }
                    col = col + 1;
                    if col == SIZE {
                        col = 0;
                        row = row + 1;
                    }
                    pos = end;
                },
            }
        }
        proof {
            board.lemma_scan_done(text, pos as int, more, k, row as int, col as int);
            lemma_first_error_none(p, n, b);
        }
        Ok(board)
    }

    /// While the scan stands at `(row, col)`, a digit is recorded as used in a
    /// unit of that cell exactly when the cell would repeat it there.
    proof fn lemma_scan_cell(board: Self, text: Seq<char>, pos: int, k: int, row: int, col: int)
        requires
            board.scanned(text, pos, true, k, row, col),
            row < SIZE,
            tokens_from(text, pos).len() > 0,
        ensures
            ({
                let n = SIZE as int;
                let b = BLOCK_SIZE as int;
                let p = parsed_grid(text, n);
                &&& p[row][col] == token_cell(tokens_from(text, pos)[0], n)
                &&& p[row][col] matches Some(d) ==> {
                    &&& board.row_used(row).contains(d as int) == repeats_in_row(p, row, col)
                    &&& board.col_used(col).contains(d as int) == repeats_in_col(p, row, col)
                    &&& board.block_used(row / b, col / b).contains(d as int) == repeats_in_block(
                        p,
                        n,
                        b,
                        row,
                        col,
                    )
                }
            }),
    {
        let n = SIZE as int;
        let b = BLOCK_SIZE as int;
        let p = parsed_grid(text, n);
        let g = board.grid();
        lemma_block_index(n, b, row);
        lemma_block_index(n, b, col);
        assert forall|r: int, c: int| 0 <= r < n && 0 <= c < n implies #[trigger] g[r][c] == if before(
            r,
            c,
            row,
            col,
        ) {
            p[r][c]
        } else {
            None
        } by {}
        if let Some(d) = p[row][col] {
            // row
            if in_row(g, n, row, d as int) {
                let c2 = choose|c2: int| 0 <= c2 < n && holds(#[trigger] g[row][c2], d as int);
            }
            if repeats_in_row(p, row, col) {
                let c2 = choose|c2: int| 0 <= c2 < col && #[trigger] p[row][c2] == p[row][col];
                assert(holds(g[row][c2], d as int));
            }
            // column
            if in_col(g, n, col, d as int) {
                let r2 = choose|r2: int| 0 <= r2 < n && holds(#[trigger] g[r2][col], d as int);
            }
            if repeats_in_col(p, row, col) {
                let r2 = choose|r2: int| 0 <= r2 < row && #[trigger] p[r2][col] == p[row][col];
                assert(holds(g[r2][col], d as int));
            }
            // block
            if in_block(g, n, b, row / b, col / b, d as int) {
                let (r2, c2) = choose|r2: int, c2: int|
                    0 <= r2 < n && 0 <= c2 < n && r2 / b == row / b && c2 / b == col / b && holds(
                        #[trigger] g[r2][c2],
                        d as int,
                    );
            }
            if repeats_in_block(p, n, b, row, col) {
                let (r2, c2) = choose|r2: int, c2: int|
                    0 <= r2 < n && 0 <= c2 < n && before(r2, c2, row, col) && r2 / b == row / b
                        && c2 / b == col / b && #[trigger] p[r2][c2] == p[row][col];
                assert(holds(g[r2][c2], d as int));
            }
        }
    }

    /// Return a more compact representation of the board, in the format "1 2 3 _ _ 6 7 8 _"
    /// without newlines
    pub fn to_literal(&self) -> (r: String)
        ensures
            r@ == literal_text(self.grid(), SIZE as int),
    {
        let mut result = String::new();
        let mut row: usize = 0;
        while row < SIZE
            invariant
                row <= SIZE,
                result@ == rows_text(self.grid(), SIZE as int, row as int),
            decreases SIZE - row,
        {
            let ghost start = result@;
            let mut col: usize = 0;
            while col < SIZE
                invariant
                    row < SIZE,
                    col <= SIZE,
                    result@ == start + row_text(self.grid(), row as int, col as int),
                decreases SIZE - col,
            {
                push_cell(&mut result, self.numbers[row][col]);
                col = col + 1;
            }
            row = row + 1;
        }
        result
    }

    /// Returns a readable representation of the board
    pub fn board_to_string(&self) -> (r: String)
        requires
            Self::dims_ok(),
        ensures
            r@ == display_text(self.grid(), SIZE as int),
    {
        let mut result = String::new();
        Self::push_border(&mut result);
        proof {
            reveal_strlit("\n");
            reveal_strlit(" | ");
            reveal_strlit("|\n");
        }
        result.append("\n");
        let ghost head = result@;
        let mut row: usize = 0;
        while row < SIZE
            invariant
                row <= SIZE,
                SIZE <= 255,
                result@ == head + display_rows(self.grid(), SIZE as int, row as int),
                " | "@ == seq![' ', '|', ' '],
                "|\n"@ == seq!['|', '\n'],
            decreases SIZE - row,
        {
            push_decimal(&mut result, row as u8);
            result.append(" | ");
            let ghost labelled = result@;
            let mut col: usize = 0;
            while col < SIZE
                invariant
                    row < SIZE,
                    col <= SIZE,
                    result@ == labelled + row_text(self.grid(), row as int, col as int),
                decreases SIZE - col,
            {
                push_cell(&mut result, self.numbers[row][col]);
                col = col + 1;
            }
            result.append("|\n");
            row = row + 1;
        }
        Self::push_border(&mut result);
        result
    }

    fn push_border(text: &mut String)
        ensures
            final(text)@ == old(text)@ + display_border(),
    {
        proof {
            reveal_strlit("  ---------------------");
        }
        text.append("  ---------------------");
    }

    /// Whether no cell is empty.
    #[inline]
    pub fn is_full(&self) -> (r: bool)
        ensures
            r == full(self.grid(), SIZE as int),
    {
        let mut row: usize = 0;
        while row < SIZE
            invariant
                row <= SIZE,
                forall|i: int, j: int|
                    0 <= i < row && 0 <= j < SIZE ==> (#[trigger] self.grid()[i][j]) is Some,
            decreases SIZE - row,
        {
            let mut col: usize = 0;
            while col < SIZE
                invariant
                    row < SIZE,
                    col <= SIZE,
                    forall|i: int, j: int|
                        0 <= i < row && 0 <= j < SIZE ==> (#[trigger] self.grid()[i][j]) is Some,
                    forall|j: int| 0 <= j < col ==> (#[trigger] self.grid()[row as int][j]) is Some,
                decreases SIZE - col,
            {
                if self.numbers[row][col].is_none() {
                    return false;
                }
                col = col + 1;
            }
            row = row + 1;
        }
        true
    }
}

impl<const SIZE: usize, const BLOCK_SIZE: usize> Clone for SudokuBoard<SIZE, BLOCK_SIZE> {
    fn clone(&self) -> (r: Self)
        ensures
            r == *self,
    {
        SudokuBoard {
            numbers: self.numbers,
            rows: self.rows,
            cols: self.cols,
            blocks: self.blocks,
        }
    }
}

} // verus!
