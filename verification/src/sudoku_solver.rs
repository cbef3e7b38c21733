//! The solver: deduction to the fixpoint, then search on the cell with the
//! fewest candidates, with an explicit stack of boards.

use crate::chance::random_ratio;
use crate::deduction::{
    all_candidates, applied, develop, first_hidden_digit, hidden_deduction, hidden_in_unit,
    lemma_develop, lemma_hidden_single_is, lemma_least_of, lemma_naked_single_is, lemma_once_in,
    naked_at, naked_deduction, once_in, only_at, open_count, open_for, recorded, unit_cells,
    Options, Unit,
};
use crate::grid::{
    before, candidates, dims, empty_count, extends, full, legal, lemma_full_legal_solved,
    shaped, solution_of, solved, Grid,
};
use crate::literal::literal_text;
use crate::number_options::{ascending, lemma_ascending, NumberOptions};
use crate::search::{
    branch_cell, children, dead_end, is_narrowest, lemma_branch_cell_is, lemma_branch_lighter,
    lemma_child_keeps, lemma_dead_end_unsolvable, lemma_propagate, lemma_propagate_keeps,
    lemma_propagate_trace, lemma_round_branch, lemma_round_drop, lemma_round_full,
    lemma_search_any_budget, lemma_search_empty, lemma_search_finds, lemma_search_sound,
    lemma_weight_positive, propagate, search, stack_legal, stack_ok, stack_weight, tried_steps,
    width,
};
use crate::solve_report::{Message, ReportStep, StepView};
use crate::sudoku_board::SudokuBoard;
use core::ops::Not;
use rand::rngs::ThreadRng;
use vstd::prelude::*;

verus! {

/// For each cell the digits it may take, as the rules are given them.
pub type Possibilities<const SIZE: usize> = [[NumberOptions<SIZE>; SIZE]; SIZE];

/// The digits from 1 to `SIZE` that `p` offers each cell.
pub open spec fn options_of<const SIZE: usize>(p: Possibilities<SIZE>) -> Options {
    Seq::new(SIZE as nat, |r: int| Seq::new(SIZE as nat, |c: int| p@[r]@[c].digits()))
}

/// The grids of a stack of boards.
pub open spec fn grids_of<const SIZE: usize, const BLOCK_SIZE: usize>(
    stack: Seq<SudokuBoard<SIZE, BLOCK_SIZE>>,
) -> Seq<Grid> {
    stack.map_values(|board: SudokuBoard<SIZE, BLOCK_SIZE>| board.grid())
}

/// The steps of a stack of steps, as contracts see them.
pub open spec fn views_of<const SIZE: usize, const BLOCK_SIZE: usize>(
    steps: Seq<ReportStep<SIZE, BLOCK_SIZE>>,
) -> Seq<StepView> {
    steps.map_values(|step: ReportStep<SIZE, BLOCK_SIZE>| step@)
}

/// What `solve` returns for a board with grid `g` and what it records with
/// the given budget: the outcome of the search that starts from `g` alone.
pub open spec fn solve_outcome(g: Grid, budget: nat, n: int, b: int) -> (
    Option<Grid>,
    Seq<StepView>,
) {
    search(
        seq![g],
        Seq::<StepView>::empty(),
        Seq::<StepView>::empty(),
        budget,
        literal_text(g, n),
        n,
        b,
    )
}

/// Main struct to solve boards
/// Constant type parameters are used to increase performance and avoid heap allocations
pub struct SudokuSolver<const SIZE: usize, const BLOCK_SIZE: usize> {
    record_steps: usize,
    pub steps: Vec<ReportStep<SIZE, BLOCK_SIZE>>,
}

impl<const SIZE: usize, const BLOCK_SIZE: usize> SudokuSolver<SIZE, BLOCK_SIZE> {
    /// How many steps the solver records at most.
    pub closed spec fn budget(self) -> nat {
        self.record_steps as nat
    }

    /// The steps recorded so far.
    pub closed spec fn trace(self) -> Seq<StepView> {
        self.steps@.map_values(|s: ReportStep<SIZE, BLOCK_SIZE>| s@)
    }

    /// A solver that records at most `record_steps` steps.
    pub fn new(record_steps: usize) -> (r: Self)
        ensures
            r.budget() == record_steps,
            r.trace() == Seq::<StepView>::empty(),
    {
        let r = SudokuSolver { record_steps, steps: Vec::with_capacity(record_steps) };
        r
    }

    /// The steps recorded so far.
    pub fn recorded_steps(&self) -> (r: &Vec<ReportStep<SIZE, BLOCK_SIZE>>)
        ensures
            views_of(r@) == self.trace(),
    {
        &self.steps
    }

    /// Whether the budget allows another step.
    pub fn should_report_step(&self) -> (r: bool)
        ensures
            r == (self.trace().len() < self.budget()),
    {
        self.steps.len() < self.record_steps
    }

    /// Records a step with the literal of `board`, while the budget lasts.
    fn record(
        &mut self,
        board: &SudokuBoard<SIZE, BLOCK_SIZE>,
        message: Message,
        highlight_row: Option<u8>,
        highlight_col: Option<u8>,
        highlight_block: Option<[u8; 2]>,
    )
        ensures
            final(self).budget() == old(self).budget(),
            final(self).trace() == recorded(
                old(self).trace(),
                old(self).budget(),
                StepView {
                    message,
                    highlight_row,
                    highlight_col,
                    highlight_block: match highlight_block {
                        Some(pair) => Some((pair@[0], pair@[1])),
                        None => None,
                    },
                    literal: literal_text(board.grid(), SIZE as int),
                },
            ),
    {
        if self.should_report_step() {
            let step = ReportStep {
                message,
                highlight_row,
                highlight_col,
                highlight_block,
                literal: board.to_literal(),
            };
            self.steps.push(step);
        }
    }

    /// Return a nested array of all the values that can be put in each cell
    pub fn generate_possibilities(board: &SudokuBoard<SIZE, BLOCK_SIZE>) -> (r: Possibilities<SIZE>)
        requires
            SudokuBoard::<SIZE, BLOCK_SIZE>::dims_ok(),
        ensures
            forall|i: int, j: int|
                0 <= i < SIZE && 0 <= j < SIZE ==> (#[trigger] r@[i]@[j]).digits()
                    == board.possible(i, j),
            forall|i: int, j: int, d: int|
                0 <= i < SIZE && 0 <= j < SIZE ==> #[trigger] r@[i]@[j].has(d) == board.unused(
                    i,
                    j,
                    d,
                ),
            board.wf() && board.consistent() ==> options_of(r) == all_candidates(
                board.grid(),
                SIZE as int,
                BLOCK_SIZE as int,
            ),
    {
        let none: NumberOptions<SIZE> = NumberOptions::default();
        let mut result = [[none; SIZE]; SIZE];
        let mut row: usize = 0;
        while row < SIZE
            invariant
                SudokuBoard::<SIZE, BLOCK_SIZE>::dims_ok(),
                row <= SIZE,
                forall|i: int, j: int|
                    0 <= i < row && 0 <= j < SIZE ==> (#[trigger] result@[i]@[j]).digits()
                        == board.possible(i, j),
                forall|i: int, j: int, d: int|
                    0 <= i < row && 0 <= j < SIZE ==> #[trigger] result@[i]@[j].has(d)
                        == board.unused(i, j, d),
            decreases SIZE - row,
        {
            let mut col: usize = 0;
            while col < SIZE
                invariant
                    SudokuBoard::<SIZE, BLOCK_SIZE>::dims_ok(),
                    row < SIZE,
                    col <= SIZE,
                    forall|i: int, j: int|
                        0 <= i < row && 0 <= j < SIZE ==> (#[trigger] result@[i]@[j]).digits()
                            == board.possible(i, j),
                    forall|j: int|
                        0 <= j < col ==> (#[trigger] result@[row as int]@[j]).digits()
                            == board.possible(row as int, j),
                    forall|i: int, j: int, d: int|
                        0 <= i < row && 0 <= j < SIZE ==> #[trigger] result@[i]@[j].has(d)
                            == board.unused(i, j, d),
                    forall|j: int, d: int|
                        0 <= j < col ==> #[trigger] result@[row as int]@[j].has(d) == board.unused(
                            row as int,
                            j,
                            d,
                        ),
                decreases SIZE - col,
            {
                result[row][col] = board.get_possible(row, col);
                col = col + 1;
            }
            row = row + 1;
        }
        proof {
            if board.wf() && board.consistent() {
                let o = options_of(result);
                let a = all_candidates(board.grid(), SIZE as int, BLOCK_SIZE as int);
                assert forall|i: int| 0 <= i < SIZE implies o[i] == a[i] by {
                    assert forall|j: int| 0 <= j < SIZE implies o[i][j] == a[i][j] by {
                    }
                }
            }
        }
        result
    }

    /// Search for a cell that can only contain one number, because all the other ones are already
    /// taken in the row/column/block.
    /// Return whether a cell meeting the condition was found.
    pub fn sole_candidates(
        &mut self,
        board: &mut SudokuBoard<SIZE, BLOCK_SIZE>,
        possibilities: &Possibilities<SIZE>,
    ) -> (r: bool)
        requires
            old(board).wf(),
            old(board).consistent(),
        ensures
            applied(
                naked_deduction(old(board).grid(), options_of(*possibilities), SIZE as int),
                old(board).grid(),
                old(self).trace(),
                old(self).budget(),
                r,
                final(board).grid(),
                final(self).trace(),
            ),
            !r ==> *final(board) == *old(board),
            final(board).wf(),
            final(board).consistent(),
            final(self).budget() == old(self).budget(),
    {
        let ghost g = board.grid();
        let ghost o = options_of(*possibilities);
        let mut row: usize = 0;
        while row < SIZE
            invariant
                row <= SIZE,
                *board == *old(board),
                *self == *old(self),
                board.wf(),
                board.consistent(),
                g == board.grid(),
                o == options_of(*possibilities),
                forall|i: int, j: int|
                    0 <= i < row && 0 <= j < SIZE ==> !#[trigger] naked_at(g, o, i, j),
            decreases SIZE - row,
        {
            let mut col: usize = 0;
            while col < SIZE
                invariant
                    row < SIZE,
                    col <= SIZE,
                    *board == *old(board),
                    *self == *old(self),
                    board.wf(),
                    board.consistent(),
                    g == board.grid(),
                    o == options_of(*possibilities),
                    forall|i: int, j: int|
                        0 <= i < row && 0 <= j < SIZE ==> !#[trigger] naked_at(g, o, i, j),
                    forall|j: int| 0 <= j < col ==> !#[trigger] naked_at(g, o, row as int, j),
                decreases SIZE - col,
            {
                // Skip cells with known numbers
                if board.get_number(row, col).is_none() {
                    let possible = possibilities[row][col];
                    if possible.count() == 1 {
                        let first = possible.first();
                        let value = first.unwrap();
                        proof {
                            lemma_naked_single_is(g, o, SIZE as int, row as int, col as int);
                            lemma_least_of(o[row as int][col as int], value as int);
                        }
                        board.set_number(Some(value), row, col);
                        self.record(
                            board,
                            Message::CanContainOnly(value, row + 1, col + 1),
                            Some(row as u8),
                            Some(col as u8),
                            None,
                        );
                        return true;
                    }
                }
                col = col + 1;
            }
            row = row + 1;
        }
        false
    }

    /// Cell `t` of unit `u` of a kind.
    fn unit_cell(kind: Unit, u: usize, t: usize) -> (cell: (usize, usize))
        requires
            dims(SIZE as int, BLOCK_SIZE as int),
            u < SIZE,
            t < SIZE,
        ensures
            cell.0 < SIZE,
            cell.1 < SIZE,
            (cell.0 as int, cell.1 as int) == unit_cells(
                kind,
                SIZE as int,
                BLOCK_SIZE as int,
                u as int,
            )[t as int],
    {
        match kind {
            Unit::Row => (u, t),
            Unit::Col => (t, u),
            Unit::Block => (
                (u / BLOCK_SIZE) * BLOCK_SIZE + t / BLOCK_SIZE,
                (u % BLOCK_SIZE) * BLOCK_SIZE + t % BLOCK_SIZE,
            ),
        }
    }

    /// The hidden single of one unit: the smallest digit that exactly one of
    /// its empty cells may take, and that cell.
    fn unique_in_unit(
        board: &SudokuBoard<SIZE, BLOCK_SIZE>,
        possibilities: &Possibilities<SIZE>,
        kind: Unit,
        u: usize,
    ) -> (r: Option<(u8, usize, usize)>)
        requires
            board.wf(),
            u < SIZE,
        ensures
            match hidden_in_unit(
                board.grid(),
                options_of(*possibilities),
                unit_cells(kind, SIZE as int, BLOCK_SIZE as int, u as int),
                SIZE as int,
            ) {
                Some(p) => r == Some((p.digit as u8, p.row as usize, p.col as usize)) && 1
                    <= p.digit <= SIZE && 0 <= p.row < SIZE && 0 <= p.col < SIZE
                    && board.grid()[p.row][p.col] is None,
                None => r is None,
            },
    {
        let ghost g = board.grid();
        let ghost o = options_of(*possibilities);
        let ghost cells = unit_cells(kind, SIZE as int, BLOCK_SIZE as int, u as int);
        let mut at_least_one: NumberOptions<SIZE> = NumberOptions::default();
        let mut more_than_one: NumberOptions<SIZE> = NumberOptions::default();
        let mut t: usize = 0;
        while t < SIZE
            invariant
                t <= SIZE,
                u < SIZE,
                board.wf(),
                g == board.grid(),
                o == options_of(*possibilities),
                cells == unit_cells(kind, SIZE as int, BLOCK_SIZE as int, u as int),
                forall|d: int|
                    1 <= d <= SIZE ==> (at_least_one.has(d) <==> open_count(g, o, cells, t as int, d)
                        >= 1),
                forall|d: int|
                    1 <= d <= SIZE ==> (more_than_one.has(d) <==> open_count(
                        g,
                        o,
                        cells,
                        t as int,
                        d,
                    ) >= 2),
            decreases SIZE - t,
        {
            let (row, col) = Self::unit_cell(kind, u, t);
            if board.get_number(row, col).is_none() {
                let possible = possibilities[row][col];
                more_than_one = more_than_one | (at_least_one & possible);
                at_least_one = at_least_one | possible;
            }
            t = t + 1;
        }
        let unique = at_least_one & more_than_one.not();
        proof {
            assert forall|d: int| 1 <= d <= SIZE implies (unique.has(d) <==> once_in(
                g,
                o,
                cells,
                d,
            )) by {
                lemma_once_in(g, o, cells, d);
            }
            unique.lemma_ordered();
        }
        if unique.count() != 0 {
            let digits = unique.as_vec();
            let first = digits[0];
            proof {
                assert(first_hidden_digit(g, o, cells, SIZE as int, first as int)) by {
                    assert forall|e: int| 1 <= e < first implies !#[trigger] once_in(
                        g,
                        o,
                        cells,
                        e,
                    ) by {
                        if once_in(g, o, cells, e) {
                            assert(unique.digits().contains(e));
                            let i = choose|i: int| 0 <= i < digits.len() && #[trigger] digits[i] == e;
                        }
                    }
                }
            }
            let ghost only = choose|t: int| only_at(g, o, cells, t, first as int);
            let mut t: usize = 0;
            while t < SIZE
                invariant
                    t <= SIZE,
                    u < SIZE,
                    1 <= first <= SIZE,
                    board.wf(),
                    g == board.grid(),
                    o == options_of(*possibilities),
                    cells == unit_cells(kind, SIZE as int, BLOCK_SIZE as int, u as int),
                    first_hidden_digit(g, o, cells, SIZE as int, first as int),
                    only_at(g, o, cells, only, first as int),
                    forall|i: int| 0 <= i < t ==> !#[trigger] open_for(g, o, cells, i, first as int),
                decreases SIZE - t,
            {
                let (row, col) = Self::unit_cell(kind, u, t);
                if board.get_number(row, col).is_none() {
                    if possibilities[row][col].has_number(first) {
                        proof {
                            assert(open_for(g, o, cells, t as int, first as int));
                        }
                        return Some((first, row, col));
                    }
                }
                t = t + 1;
            }
            None
        } else {
            proof {
                assert forall|d: int| 1 <= d <= SIZE implies !#[trigger] once_in(g, o, cells, d) by {
                    if once_in(g, o, cells, d) {
                        assert(unique.digits().contains(d));
                    }
                }
            }
            None
        }
    }

    /// The first hidden single of a kind of unit, placed and recorded.
    fn unique_candidates(
        &mut self,
        board: &mut SudokuBoard<SIZE, BLOCK_SIZE>,
        possibilities: &Possibilities<SIZE>,
        kind: Unit,
    ) -> (r: bool)
        requires
            old(board).wf(),
            old(board).consistent(),
        ensures
            applied(
                hidden_deduction(
                    old(board).grid(),
                    options_of(*possibilities),
                    kind,
                    SIZE as int,
                    BLOCK_SIZE as int,
                ),
                old(board).grid(),
                old(self).trace(),
                old(self).budget(),
                r,
                final(board).grid(),
                final(self).trace(),
            ),
            !r ==> *final(board) == *old(board),
            final(board).wf(),
            final(board).consistent(),
            final(self).budget() == old(self).budget(),
    {
        let ghost g = board.grid();
        let ghost o = options_of(*possibilities);
        let ghost n = SIZE as int;
        let ghost b = BLOCK_SIZE as int;
        let mut u: usize = 0;
        while u < SIZE
            invariant
                u <= SIZE,
                *board == *old(board),
                *self == *old(self),
                board.wf(),
                board.consistent(),
                g == board.grid(),
                o == options_of(*possibilities),
                n == SIZE,
                b == BLOCK_SIZE,
                forall|v: int|
                    0 <= v < u ==> (#[trigger] hidden_in_unit(g, o, unit_cells(kind, n, b, v), n))
                        is None,
            decreases SIZE - u,
        {
            match Self::unique_in_unit(board, possibilities, kind, u) {
                Some((first, row, col)) => {
                    proof {
                        lemma_hidden_single_is(g, o, kind, n, b, u as int);
                    }
                    board.set_number(Some(first), row, col);
                    match kind {
                        Unit::Row => {
                            self.record(
                                board,
                                Message::NumberOnlyFitsInRow(first, u + 1),
                                Some(row as u8),
                                None,
                                None,
                            );
                        },
                        Unit::Col => {
                            self.record(
                                board,
                                Message::NumberOnlyFitsInCol(first, u + 1),
                                None,
                                Some(col as u8),
                                None,
                            );
                        },
                        Unit::Block => {
                            let block_row = u / BLOCK_SIZE;
                            let block_col = u % BLOCK_SIZE;
                            self.record(
                                board,
                                Message::NumberOnlyFitsInBlock(first, block_row + 1, block_col + 1),
                                None,
                                None,
                                Some([block_row as u8, block_col as u8]),
                            );
                        },
                    }
                    return true;
                },
                None => {},
            }
            u = u + 1;
        }
        false
    }

    /// Search for a situation where, in a row/column, a number can only be put in one cell.
    /// The type parameter makes the code search on columns instead of rows.
    /// Return whether a cell meeting the condition was found.
    pub fn unique_candidates_lines<const INVERT: bool>(
        &mut self,
        board: &mut SudokuBoard<SIZE, BLOCK_SIZE>,
        possibilities: &Possibilities<SIZE>,
    ) -> (r: bool)
        requires
            old(board).wf(),
            old(board).consistent(),
        ensures
            applied(
                hidden_deduction(
                    old(board).grid(),
                    options_of(*possibilities),
                    if INVERT {
                        Unit::Col
                    } else {
                        Unit::Row
                    },
                    SIZE as int,
                    BLOCK_SIZE as int,
                ),
                old(board).grid(),
                old(self).trace(),
                old(self).budget(),
                r,
                final(board).grid(),
                final(self).trace(),
            ),
            !r ==> *final(board) == *old(board),
            final(board).wf(),
            final(board).consistent(),
            final(self).budget() == old(self).budget(),
    {
        if INVERT {
            self.unique_candidates(board, possibilities, Unit::Col)
        } else {
            self.unique_candidates(board, possibilities, Unit::Row)
        }
    }

    /// Search for a situation where, in a block, a number can only be put in one cell.
    /// Return whether a cell meeting the condition was found.
    pub fn unique_candidates_blocks(
        &mut self,
        board: &mut SudokuBoard<SIZE, BLOCK_SIZE>,
        possibilities: &Possibilities<SIZE>,
    ) -> (r: bool)
        requires
            old(board).wf(),
            old(board).consistent(),
        ensures
            applied(
                hidden_deduction(
                    old(board).grid(),
                    options_of(*possibilities),
                    Unit::Block,
                    SIZE as int,
                    BLOCK_SIZE as int,
                ),
                old(board).grid(),
                old(self).trace(),
                old(self).budget(),
                r,
                final(board).grid(),
                final(self).trace(),
            ),
            !r ==> *final(board) == *old(board),
            final(board).wf(),
            final(board).consistent(),
            final(self).budget() == old(self).budget(),
    {
        self.unique_candidates(board, possibilities, Unit::Block)
    }

    /// Fill a cell whose value can be known for certain. Return whether it was able to find
    /// a cell that met this condition
    pub fn develop(&mut self, board: &mut SudokuBoard<SIZE, BLOCK_SIZE>) -> (r: bool)
        requires
            old(board).wf(),
            old(board).consistent(),
        ensures
            applied(
                develop(old(board).grid(), SIZE as int, BLOCK_SIZE as int),
                old(board).grid(),
                old(self).trace(),
                old(self).budget(),
                r,
                final(board).grid(),
                final(self).trace(),
            ),
            !r ==> *final(board) == *old(board),
            final(board).wf(),
            final(board).consistent(),
            final(self).budget() == old(self).budget(),
            extends(final(board).grid(), old(board).grid(), SIZE as int),
            legal(old(board).grid(), SIZE as int, BLOCK_SIZE as int) ==> legal(
                final(board).grid(),
                SIZE as int,
                BLOCK_SIZE as int,
            ),
    {
        proof {
            if develop(board.grid(), SIZE as int, BLOCK_SIZE as int) is Some {
                lemma_develop(board.grid(), SIZE as int, BLOCK_SIZE as int);
            }
        }
        let possibilities = Self::generate_possibilities(board);
        if self.sole_candidates(board, &possibilities) {
            return true;
        }
        if self.unique_candidates_lines::<false>(board, &possibilities) {
            return true;
        }
        if self.unique_candidates_lines::<true>(board, &possibilities) {
            return true;
        }
        if self.unique_candidates_blocks(board, &possibilities) {
            return true;
        }
        false
    }

    /// Get a the cell with the least number of possibilities to try next. If multiple cells
    /// have the same number of possibilities, it returns the last one.
    pub fn find_next_to_try(board: &SudokuBoard<SIZE, BLOCK_SIZE>) -> (r: Option<[usize; 2]>)
        requires
            board.wf(),
            board.consistent(),
        ensures
            match r {
                Some(cell) => cell@[0] < SIZE && cell@[1] < SIZE && branch_cell(
                    board.grid(),
                    SIZE as int,
                    BLOCK_SIZE as int,
                ) == Some((cell@[0] as int, cell@[1] as int)),
                None => branch_cell(board.grid(), SIZE as int, BLOCK_SIZE as int) is None,
            },
    {
        let ghost g = board.grid();
        let ghost n = SIZE as int;
        let ghost b = BLOCK_SIZE as int;
        let mut results: [Option<[usize; 2]>; SIZE] = [None; SIZE];
        let mut row: usize = 0;
        while row < SIZE
            invariant
                row <= SIZE,
                board.wf(),
                board.consistent(),
                g == board.grid(),
                n == SIZE,
                b == BLOCK_SIZE,
                Self::tracked_upto(g, results@, row as int, 0, true),
            decreases SIZE - row,
        {
            let mut col: usize = 0;
            while col < SIZE
                invariant
                    row < SIZE,
                    col <= SIZE,
                    board.wf(),
                    board.consistent(),
                    g == board.grid(),
                    n == SIZE,
                    b == BLOCK_SIZE,
                    Self::tracked_upto(g, results@, row as int, col as int, true),
                decreases SIZE - col,
            {
                if board.get_number(row, col).is_none() {
                    let possible = board.get_possible(row, col);
                    let count = possible.count();
                    proof {
                        board.lemma_possible_candidates(row as int, col as int);
                        assert(width(g, n, b, row as int, col as int) == count);
                    }
                    if count == 0 {
                        return None;
                    }
                    results[(count - 1) as usize] = Some([row, col]);
                }
                col = col + 1;
            }
            row = row + 1;
        }
        let mut i: usize = 0;
        while i < SIZE
            invariant
                i <= SIZE,
                board.wf(),
                g == board.grid(),
                n == SIZE,
                b == BLOCK_SIZE,
                Self::tracked_upto(g, results@, SIZE as int, 0, true),
                forall|m: int| 0 <= m < i ==> (#[trigger] results@[m]) is None,
            decreases SIZE - i,
        {
            let x = results[i];
            if x.is_some() {
                proof {
                    let cell = x.unwrap();
                    Self::lemma_found(g, results@, i as int, true);
                }
                return x;
            }
            i = i + 1;
        }
        proof {
            Self::lemma_none_tracked(g, results@, true);
        }
        None
    }

    /// Whether `(r2, c2)` is a cell that the scan has passed when it stands at `(r, c)`.
    pub open spec fn passed(r2: int, c2: int, r: int, c: int) -> bool {
        0 <= r2 < SIZE && 0 <= c2 < SIZE && before(r2, c2, r, c)
    }

    /// What the scan for the branching cell knows when it stands at `(r, c)`:
    /// no empty cell passed is without candidates, and for each number of
    /// candidates `results` holds an empty cell passed that has so many, if
    /// there is one: with `strict`, the last of them.
    pub open spec fn tracked_upto(
        g: Grid,
        results: Seq<Option<[usize; 2]>>,
        r: int,
        c: int,
        strict: bool,
    ) -> bool {
        let n = SIZE as int;
        let b = BLOCK_SIZE as int;
        &&& results.len() == SIZE
        &&& forall|r2: int, c2: int|
            Self::passed(r2, c2, r, c) && g[r2][c2] is None ==> 1 <= #[trigger] width(
                g,
                n,
                b,
                r2,
                c2,
            ) <= SIZE
        &&& forall|m: int|
            0 <= m < SIZE ==> match #[trigger] results[m] {
                Some(cell) => {
                    &&& Self::passed(cell@[0] as int, cell@[1] as int, r, c)
                    &&& g[cell@[0] as int][cell@[1] as int] is None
                    &&& width(g, n, b, cell@[0] as int, cell@[1] as int) == m + 1
                    &&& forall|r2: int, c2: int|
                        strict && Self::passed(r2, c2, r, c) && g[r2][c2] is None && #[trigger] width(
                            g,
                            n,
                            b,
                            r2,
                            c2,
                        ) == m + 1 ==> !before(cell@[0] as int, cell@[1] as int, r2, c2)
                },
                None => forall|r2: int, c2: int|
                    Self::passed(r2, c2, r, c) && g[r2][c2] is None ==> #[trigger] width(
                        g,
                        n,
                        b,
                        r2,
                        c2,
                    ) != m + 1,
            }
    }

    proof fn lemma_track(
        g: Grid,
        results: Seq<Option<[usize; 2]>>,
        updated: Seq<Option<[usize; 2]>>,
        r: int,
        c: int,
        count: int,
        strict: bool,
    )
        requires
            0 <= r < SIZE,
            0 <= c < SIZE,
            Self::tracked_upto(g, results, r, c, strict),
            g[r][c] is None,
            width(g, SIZE as int, BLOCK_SIZE as int, r, c) == count,
            1 <= count <= SIZE,
            updated.len() == SIZE,
            updated[count - 1] matches Some(cell) && cell@[0] == r && cell@[1] == c,
            forall|m: int| 0 <= m < SIZE && m != count - 1 ==> updated[m] == results[m],
        ensures
            Self::tracked_upto(g, updated, r, c + 1, strict),
    {
        let n = SIZE as int;
        let b = BLOCK_SIZE as int;
        assert forall|m: int| 0 <= m < SIZE implies match #[trigger] updated[m] {
            Some(cell) => {
                &&& Self::passed(cell@[0] as int, cell@[1] as int, r, c + 1)
                &&& g[cell@[0] as int][cell@[1] as int] is None
                &&& width(g, n, b, cell@[0] as int, cell@[1] as int) == m + 1
                &&& forall|r2: int, c2: int|
                    strict && Self::passed(r2, c2, r, c + 1) && g[r2][c2] is None && #[trigger] width(
                        g,
                        n,
                        b,
                        r2,
                        c2,
                    ) == m + 1 ==> !before(cell@[0] as int, cell@[1] as int, r2, c2)
            },
            None => forall|r2: int, c2: int|
                Self::passed(r2, c2, r, c + 1) && g[r2][c2] is None ==> #[trigger] width(
                    g,
                    n,
                    b,
                    r2,
                    c2,
                ) != m + 1,
        } by {
        }
    }

    proof fn lemma_skip(g: Grid, results: Seq<Option<[usize; 2]>>, r: int, c: int, strict: bool)
        requires
            0 <= r < SIZE,
            0 <= c < SIZE,
            Self::tracked_upto(g, results, r, c, strict),
            g[r][c] is Some || (!strict && g[r][c] is None && 1 <= width(
                g,
                SIZE as int,
                BLOCK_SIZE as int,
                r,
                c,
            ) <= SIZE && results[width(g, SIZE as int, BLOCK_SIZE as int, r, c) - 1] is Some),
        ensures
            Self::tracked_upto(g, results, r, c + 1, strict),
    {
        let n = SIZE as int;
        let b = BLOCK_SIZE as int;
        assert forall|m: int| 0 <= m < SIZE implies match #[trigger] results[m] {
            Some(cell) => {
                &&& Self::passed(cell@[0] as int, cell@[1] as int, r, c + 1)
                &&& g[cell@[0] as int][cell@[1] as int] is None
                &&& width(g, n, b, cell@[0] as int, cell@[1] as int) == m + 1
                &&& forall|r2: int, c2: int|
                    strict && Self::passed(r2, c2, r, c + 1) && g[r2][c2] is None && #[trigger] width(
                        g,
                        n,
                        b,
                        r2,
                        c2,
                    ) == m + 1 ==> !before(cell@[0] as int, cell@[1] as int, r2, c2)
            },
            None => forall|r2: int, c2: int|
                Self::passed(r2, c2, r, c + 1) && g[r2][c2] is None ==> #[trigger] width(
                    g,
                    n,
                    b,
                    r2,
                    c2,
                ) != m + 1,
        } by {
        }
    }

    proof fn lemma_next_row(g: Grid, results: Seq<Option<[usize; 2]>>, r: int, strict: bool)
        requires
            0 <= r < SIZE,
            Self::tracked_upto(g, results, r, SIZE as int, strict),
        ensures
            Self::tracked_upto(g, results, r + 1, 0, strict),
    {
        let n = SIZE as int;
        let b = BLOCK_SIZE as int;
        assert forall|m: int| 0 <= m < SIZE implies match #[trigger] results[m] {
            Some(cell) => {
                &&& Self::passed(cell@[0] as int, cell@[1] as int, r + 1, 0)
                &&& g[cell@[0] as int][cell@[1] as int] is None
                &&& width(g, n, b, cell@[0] as int, cell@[1] as int) == m + 1
                &&& forall|r2: int, c2: int|
                    strict && Self::passed(r2, c2, r + 1, 0) && g[r2][c2] is None && #[trigger] width(
                        g,
                        n,
                        b,
                        r2,
                        c2,
                    ) == m + 1 ==> !before(cell@[0] as int, cell@[1] as int, r2, c2)
            },
            None => forall|r2: int, c2: int|
                Self::passed(r2, c2, r + 1, 0) && g[r2][c2] is None ==> #[trigger] width(
                    g,
                    n,
                    b,
                    r2,
                    c2,
                ) != m + 1,
        } by {
        }
    }

    proof fn lemma_found(g: Grid, results: Seq<Option<[usize; 2]>>, i: int, strict: bool)
        requires
            0 <= i < SIZE,
            Self::tracked_upto(g, results, SIZE as int, 0, strict),
            forall|m: int| 0 <= m < i ==> (#[trigger] results[m]) is None,
            results[i] is Some,
        ensures
            results[i].unwrap()@[0] < SIZE,
            results[i].unwrap()@[1] < SIZE,
            !dead_end(g, SIZE as int, BLOCK_SIZE as int),
            is_narrowest(
                g,
                SIZE as int,
                BLOCK_SIZE as int,
                results[i].unwrap()@[0] as int,
                results[i].unwrap()@[1] as int,
            ),
            strict ==> branch_cell(g, SIZE as int, BLOCK_SIZE as int) == Some(
                (results[i].unwrap()@[0] as int, results[i].unwrap()@[1] as int),
            ),
    {
        let n = SIZE as int;
        let b = BLOCK_SIZE as int;
        let cell = results[i].unwrap();
        let r = cell@[0] as int;
        let c = cell@[1] as int;
        assert(is_narrowest(g, n, b, r, c)) by {
            assert forall|r2: int, c2: int|
                0 <= r2 < n && 0 <= c2 < n && g[r2][c2] is None implies #[trigger] width(
                g,
                n,
                b,
                r2,
                c2,
            ) >= width(g, n, b, r, c) by {
                let w = width(g, n, b, r2, c2) as int;
                if w < i + 1 {
                    assert(results[w - 1] is None);
                }
            }
        }
        if strict {
            lemma_branch_cell_is(g, n, b, r, c);
        }
    }

    proof fn lemma_none_tracked(g: Grid, results: Seq<Option<[usize; 2]>>, strict: bool)
        requires
            Self::tracked_upto(g, results, SIZE as int, 0, strict),
            forall|m: int| 0 <= m < SIZE ==> (#[trigger] results[m]) is None,
        ensures
            full(g, SIZE as int),
    {
        let n = SIZE as int;
        let b = BLOCK_SIZE as int;
        assert forall|r: int, c: int| 0 <= r < n && 0 <= c < n implies (#[trigger] g[r][c])
            is Some by {
            if g[r][c] is None {
                let w = width(g, n, b, r, c) as int;
                assert(results[w - 1] is None);
            }
        }
    }

    /// Deduces on `board` until the rules find nothing more.
    fn develop_all(&mut self, board: &mut SudokuBoard<SIZE, BLOCK_SIZE>)
        requires
            old(board).wf(),
            old(board).consistent(),
        ensures
            (final(board).grid(), final(self).trace()) == propagate(
                old(board).grid(),
                old(self).trace(),
                old(self).budget(),
                SIZE as int,
                BLOCK_SIZE as int,
            ),
            final(board).wf(),
            final(board).consistent(),
            final(self).budget() == old(self).budget(),
    {
        let ghost n = SIZE as int;
        let ghost b = BLOCK_SIZE as int;
        let ghost budget = self.budget();
        let ghost fix = propagate(board.grid(), self.trace(), budget, n, b);
        let mut progress = true;
        while progress
            invariant
                n == SIZE,
                b == BLOCK_SIZE,
                board.wf(),
                board.consistent(),
                self.budget() == budget,
                propagate(board.grid(), self.trace(), budget, n, b) == fix,
                !progress ==> develop(board.grid(), n, b) is None,
            decreases
                    empty_count(board.grid(), n) + if progress {
                        1nat
                    } else {
                        0nat
                    },
        {
            proof {
                if develop(board.grid(), n, b) is Some {
                    lemma_develop(board.grid(), n, b);
                }
            }
            progress = self.develop(board);
        }
    }

    /// Puts on the stack, for each candidate of the empty cell `(row, col)`
    /// in ascending order, the board with that digit in the cell; with
    /// `reporting`, the steps that announce them go on the other stack.
    fn push_children(
        current: &SudokuBoard<SIZE, BLOCK_SIZE>,
        row: usize,
        col: usize,
        reporting: bool,
        stack: &mut Vec<SudokuBoard<SIZE, BLOCK_SIZE>>,
        info_stack: &mut Vec<ReportStep<SIZE, BLOCK_SIZE>>,
    )
        requires
            current.wf(),
            current.consistent(),
            row < SIZE,
            col < SIZE,
            current.grid()[row as int][col as int] is None,
            forall|k: int|
                0 <= k < old(stack)@.len() ==> (#[trigger] old(stack)@[k]).wf()
                    && old(stack)@[k].consistent(),
        ensures
            forall|k: int|
                0 <= k < final(stack)@.len() ==> (#[trigger] final(stack)@[k]).wf()
                    && final(stack)@[k].consistent(),
            grids_of(final(stack)@) == grids_of(old(stack)@) + children(
                current.grid(),
                row as int,
                col as int,
                ascending(
                    candidates(
                        current.grid(),
                        SIZE as int,
                        BLOCK_SIZE as int,
                        row as int,
                        col as int,
                    ),
                    SIZE as int,
                ),
            ),
            views_of(final(info_stack)@) == if reporting {
                views_of(old(info_stack)@) + tried_steps(
                    current.grid(),
                    SIZE as int,
                    row as int,
                    col as int,
                    ascending(
                        candidates(
                            current.grid(),
                            SIZE as int,
                            BLOCK_SIZE as int,
                            row as int,
                            col as int,
                        ),
                        SIZE as int,
                    ),
                )
            } else {
                views_of(old(info_stack)@)
            },
    {
        let ghost n = SIZE as int;
        let ghost b = BLOCK_SIZE as int;
        let ghost g = current.grid();
        let ghost rest = grids_of(stack@);
        let ghost pending1 = views_of(info_stack@);
        let possible = current.get_possible(row, col);
        let digits = possible.as_vec();
        proof {
            possible.lemma_ordered_ascending(candidates(g, n, b, row as int, col as int), n);
        }
        let mut i: usize = 0;
        while i < digits.len()
            invariant
                i <= digits.len(),
                n == SIZE,
                b == BLOCK_SIZE,
                row < SIZE,
                col < SIZE,
                current.wf(),
                current.consistent(),
                g == current.grid(),
                g[row as int][col as int] is None,
                forall|k: int| 0 <= k < digits.len() ==> 1 <= #[trigger] digits@[k] <= SIZE,
                forall|k: int|
                    0 <= k < stack@.len() ==> (#[trigger] stack@[k]).wf()
                        && stack@[k].consistent(),
                grids_of(stack@) == rest + children(
                    g,
                    row as int,
                    col as int,
                    digits@.take(i as int),
                ),
                views_of(info_stack@) == if reporting {
                    pending1 + tried_steps(g, n, row as int, col as int, digits@.take(i as int))
                } else {
                    pending1
                },
            decreases digits.len() - i,
        {
            let possible = digits[i];
            let mut child = current.clone();
            child.set_number(Some(possible), row, col);
            if reporting {
                let step = ReportStep {
                    message: Message::Tried(possible, row, col),
                    highlight_row: Some(row as u8),
                    highlight_col: Some(col as u8),
                    highlight_block: None,
                    literal: child.to_literal(),
                };
                info_stack.push(step);
                proof {
                    assert(pending1 + tried_steps(
                        g,
                        n,
                        row as int,
                        col as int,
                        digits@.take(i as int + 1),
                    ) =~= (pending1 + tried_steps(
                        g,
                        n,
                        row as int,
                        col as int,
                        digits@.take(i as int),
                    )).push(step@));
                }
            }
            stack.push(child);
            proof {
                assert(rest + children(g, row as int, col as int, digits@.take(i as int + 1)) =~= (
                rest + children(g, row as int, col as int, digits@.take(i as int))).push(
                    child.grid(),
                ));
            }
            i = i + 1;
        }
    }

    /// `r` and `trace` are what `solve` returns and records for `board` with
    /// the given budget.
    pub open spec fn solves(
        board: SudokuBoard<SIZE, BLOCK_SIZE>,
        budget: nat,
        r: Option<SudokuBoard<SIZE, BLOCK_SIZE>>,
        trace: Seq<StepView>,
    ) -> bool {
        let outcome = solve_outcome(board.grid(), budget, SIZE as int, BLOCK_SIZE as int);
        &&& trace == outcome.1
        &&& match r {
            Some(s) => s.wf() && s.consistent() && outcome.0 == Some(s.grid()),
            None => outcome.0 is None,
        }
    }

    /// The budget changes nothing of what `solve` returns: with any two
    /// budgets it returns the same board for a board, or nothing both times.
    pub proof fn lemma_solve_any_budget(
        board: SudokuBoard<SIZE, BLOCK_SIZE>,
        budget1: nat,
        r1: Option<SudokuBoard<SIZE, BLOCK_SIZE>>,
        trace1: Seq<StepView>,
        budget2: nat,
        r2: Option<SudokuBoard<SIZE, BLOCK_SIZE>>,
        trace2: Seq<StepView>,
    )
        requires
            Self::solves(board, budget1, r1, trace1),
            Self::solves(board, budget2, r2, trace2),
        ensures
            r1 == r2,
    {
        let n = SIZE as int;
        let b = BLOCK_SIZE as int;
        let g = board.grid();
        lemma_search_any_budget(
            seq![g],
            Seq::<StepView>::empty(),
            Seq::<StepView>::empty(),
            budget1,
            literal_text(g, n),
            Seq::<StepView>::empty(),
            Seq::<StepView>::empty(),
            budget2,
            literal_text(g, n),
            n,
            b,
        );
        if r1 is Some {
            r1.unwrap().lemma_same_grid(r2.unwrap());
        }
    }

    /// `solve` is deterministic: on two boards with the same grid and with
    /// the same budget it returns the same board, or nothing both times,
    /// and records the same steps.
    pub proof fn lemma_solve_deterministic(
        first: SudokuBoard<SIZE, BLOCK_SIZE>,
        second: SudokuBoard<SIZE, BLOCK_SIZE>,
        budget: nat,
        r1: Option<SudokuBoard<SIZE, BLOCK_SIZE>>,
        trace1: Seq<StepView>,
        r2: Option<SudokuBoard<SIZE, BLOCK_SIZE>>,
        trace2: Seq<StepView>,
    )
        requires
            first.grid() == second.grid(),
            Self::solves(first, budget, r1, trace1),
            Self::solves(second, budget, r2, trace2),
        ensures
            r1 == r2,
            trace1 == trace2,
    {
        if r1 is Some {
            r1.unwrap().lemma_same_grid(r2.unwrap());
        }
    }

    /// Solves `board`: deduction to the fixpoint, then search on the cell
    /// with the fewest candidates, the largest candidate first. Returns the
    /// first full board that the search reaches, or `None` when it has
    /// explored every branch without reaching one. The steps taken are
    /// recorded in `steps`, which is emptied first, while the budget lasts.
    pub fn solve(&mut self, board: &SudokuBoard<SIZE, BLOCK_SIZE>) -> (r: Option<
        SudokuBoard<SIZE, BLOCK_SIZE>,
    >)
        requires
            board.wf(),
            board.consistent(),
        ensures
            final(self).budget() == old(self).budget(),
            Self::solves(*board, old(self).budget(), r, final(self).trace()),
            r matches Some(s) ==> full(s.grid(), SIZE as int) && extends(
                s.grid(),
                board.grid(),
                SIZE as int,
            ),
            r matches Some(s) ==> (legal(board.grid(), SIZE as int, BLOCK_SIZE as int) ==> solved(
                s.grid(),
                SIZE as int,
                BLOCK_SIZE as int,
            )),
            r is None ==> forall|s: Grid|
                !#[trigger] solution_of(s, board.grid(), SIZE as int, BLOCK_SIZE as int),
    {
        let ghost n = SIZE as int;
        let ghost b = BLOCK_SIZE as int;
        let ghost budget = self.budget();
        let ghost base = board.grid();
        let ghost origin = literal_text(base, n);
        let ghost goal = solve_outcome(base, budget, n, b);
        let mut stack: Vec<SudokuBoard<SIZE, BLOCK_SIZE>> = Vec::new();
        let mut info_stack: Vec<ReportStep<SIZE, BLOCK_SIZE>> = Vec::new();
        self.steps.clear();
        stack.push(board.clone());
        proof {
            assert(grids_of(stack@) =~= seq![base]);
            assert(views_of(info_stack@) =~= Seq::<StepView>::empty());
            lemma_search_sound(
                seq![base],
                Seq::<StepView>::empty(),
                Seq::<StepView>::empty(),
                budget,
                origin,
                n,
                b,
                base,
            );
            if goal.0 is Some && legal(base, n, b) {
                lemma_full_legal_solved(goal.0.unwrap(), n, b);
            }
            if goal.0 is None {
                assert forall|s: Grid| !#[trigger] solution_of(s, base, n, b) by {
                    if solution_of(s, base, n, b) {
                        lemma_search_finds(
                            seq![base],
                            Seq::<StepView>::empty(),
                            Seq::<StepView>::empty(),
                            budget,
                            origin,
                            n,
                            b,
                            s,
                            0,
                        );
                    }
                }
            }
        }
        while stack.len() > 0
            invariant
                n == SIZE,
                b == BLOCK_SIZE,
                dims(n, b),
                self.budget() == budget,
                budget == old(self).budget(),
                base == board.grid(),
                goal == solve_outcome(base, budget, n, b),
                forall|i: int|
                    0 <= i < stack@.len() ==> (#[trigger] stack@[i]).wf() && stack@[i].consistent(),
                search(grids_of(stack@), views_of(info_stack@), self.trace(), budget, origin, n, b)
                    == goal,
                goal.0 matches Some(s) ==> full(s, n) && extends(s, base, n) && (legal(base, n, b)
                    ==> solved(s, n, b)),
                goal.0 is None ==> forall|s: Grid| !#[trigger] solution_of(s, base, n, b),
            decreases stack_weight(grids_of(stack@), n),
        {
            let ghost stack0 = grids_of(stack@);
            let ghost pending0 = views_of(info_stack@);
            let ghost trace0 = self.trace();
            let mut current = stack.pop().unwrap();
            proof {
                assert(grids_of(stack@) =~= stack0.drop_last());
            }
            if self.should_report_step() && info_stack.len() > 0 {
                let step = info_stack.pop().unwrap();
                self.steps.push(step);
                proof {
                    assert(self.trace() =~= trace0.push(pending0.last()));
                    assert(views_of(info_stack@) =~= pending0.drop_last());
                }
            }

            // Fill as many known cells as possible to reduce the number of guesses
            self.develop_all(&mut current);

            // If the board is finished
            if current.is_full() {
                proof {
                    lemma_round_full(stack0, pending0, trace0, budget, origin, n, b);
                }
                return Some(current);
            }
            match Self::find_next_to_try(&current) {
                None => {
                    proof {
                        lemma_round_drop(stack0, pending0, trace0, budget, origin, n, b);
                    }
                },
                Some(cell) => {
                    let row = cell[0];
                    let col = cell[1];
                    proof {
                        lemma_round_branch(
                            stack0,
                            pending0,
                            trace0,
                            budget,
                            origin,
                            n,
                            b,
                            row as int,
                            col as int,
                        );
                    }
                    let reporting = self.should_report_step();
                    // Add to the stack all variations of the board regarding that cell
                    Self::push_children(&current, row, col, reporting, &mut stack, &mut info_stack);
                },
            }
        }
        proof {
            assert(grids_of(stack@) =~= Seq::<Grid>::empty());
            lemma_search_empty(views_of(info_stack@), self.trace(), budget, origin, n, b);
        }
        self.record(board, Message::GaveUp, None, None, None);
        None
    }

    /// Whether the scan keeps the cell it tracks when another cell ties it:
    /// it does on two draws in five.
    fn keeps_tracked(tied: bool, rand: &mut ThreadRng) -> (r: bool)
        ensures
            r ==> tied,
    {
        tied && random_ratio(rand, 2, 5)
    }

    /// Get a the cell with the least number of possibilities to try next. If multiple cells
    /// have the same number of possibilities, it returns a random one.
    /// Only used for random board generation.
    pub fn find_random_to_try(board: &SudokuBoard<SIZE, BLOCK_SIZE>, rand: &mut ThreadRng) -> (r:
        Option<[usize; 2]>)
        requires
            board.wf(),
            board.consistent(),
        ensures
            match r {
                Some(cell) => cell@[0] < SIZE && cell@[1] < SIZE && !dead_end(
                    board.grid(),
                    SIZE as int,
                    BLOCK_SIZE as int,
                ) && is_narrowest(
                    board.grid(),
                    SIZE as int,
                    BLOCK_SIZE as int,
                    cell@[0] as int,
                    cell@[1] as int,
                ),
                None => dead_end(board.grid(), SIZE as int, BLOCK_SIZE as int) || full(
                    board.grid(),
                    SIZE as int,
                ),
            },
    {
        let ghost g = board.grid();
        let ghost n = SIZE as int;
        let ghost b = BLOCK_SIZE as int;
        let mut results: [Option<[usize; 2]>; SIZE] = [None; SIZE];
        let mut row: usize = 0;
        while row < SIZE
            invariant
                row <= SIZE,
                board.wf(),
                board.consistent(),
                g == board.grid(),
                n == SIZE,
                b == BLOCK_SIZE,
                Self::tracked_upto(g, results@, row as int, 0, false),
            decreases SIZE - row,
        {
            let mut col: usize = 0;
            while col < SIZE
                invariant
                    row < SIZE,
                    col <= SIZE,
                    board.wf(),
                    board.consistent(),
                    g == board.grid(),
                    n == SIZE,
                    b == BLOCK_SIZE,
                    Self::tracked_upto(g, results@, row as int, col as int, false),
                decreases SIZE - col,
            {
                if board.get_number(row, col).is_none() {
                    let possible = board.get_possible(row, col);
                    let count = possible.count();
                    proof {
                        board.lemma_possible_candidates(row as int, col as int);
                    }
                    if count == 0 {
                        return None;
                    }
                    let index = (count - 1) as usize;
                    if !(Self::keeps_tracked(results[index].is_some(), rand)) {
                        results[index] = Some([row, col]);
                    }
                } else {
                    proof {
                        Self::lemma_skip(g, results@, row as int, col as int, false);
                    }
                }
                col = col + 1;
            }
            row = row + 1;
        }
        let mut i: usize = 0;
        while i < SIZE
            invariant
                i <= SIZE,
                board.wf(),
                g == board.grid(),
                n == SIZE,
                b == BLOCK_SIZE,
                Self::tracked_upto(g, results@, SIZE as int, 0, false),
                forall|m: int| 0 <= m < i ==> (#[trigger] results@[m]) is None,
            decreases SIZE - i,
        {
            let x = results[i];
            if x.is_some() {
                proof {
                    Self::lemma_found(g, results@, i as int, false);
                }
                return x;
            }
            i = i + 1;
        }
        proof {
            Self::lemma_none_tracked(g, results@, false);
        }
        None
    }

    /// Solves `board` as `solve` does, but branches on a cell drawn at random
    /// among the empty cells with the fewest candidates. Nothing is announced;
    /// the deductions are recorded after the steps that `steps` holds, while
    /// the budget lasts.
    pub fn solve_random(&mut self, board: &SudokuBoard<SIZE, BLOCK_SIZE>, rand: &mut ThreadRng) -> (r:
        Option<SudokuBoard<SIZE, BLOCK_SIZE>>)
        requires
            board.wf(),
            board.consistent(),
        ensures
            final(self).budget() == old(self).budget(),
            old(self).trace().is_prefix_of(final(self).trace()),
            r matches Some(s) ==> {
                &&& s.wf()
                &&& s.consistent()
                &&& full(s.grid(), SIZE as int)
                &&& extends(s.grid(), board.grid(), SIZE as int)
                &&& legal(board.grid(), SIZE as int, BLOCK_SIZE as int) ==> solved(
                    s.grid(),
                    SIZE as int,
                    BLOCK_SIZE as int,
                )
            },
            r is None ==> forall|s: Grid|
                !#[trigger] solution_of(s, board.grid(), SIZE as int, BLOCK_SIZE as int),
    {
        let ghost n = SIZE as int;
        let ghost b = BLOCK_SIZE as int;
        let ghost budget = self.budget();
        let ghost base = board.grid();
        let mut stack: Vec<SudokuBoard<SIZE, BLOCK_SIZE>> = Vec::new();
        let mut unused: Vec<ReportStep<SIZE, BLOCK_SIZE>> = Vec::new();
        stack.push(board.clone());
        proof {
            assert forall|s: Grid| #[trigger] solution_of(s, base, n, b) implies Self::solves_one(
                s,
                grids_of(stack@),
            ) by {
                assert(grids_of(stack@)[0] == base);
            }
        }
        while stack.len() > 0
            invariant
                n == SIZE,
                b == BLOCK_SIZE,
                dims(n, b),
                self.budget() == budget,
                budget == old(self).budget(),
                base == board.grid(),
                old(self).trace().is_prefix_of(self.trace()),
                forall|i: int|
                    0 <= i < stack@.len() ==> (#[trigger] stack@[i]).wf() && stack@[i].consistent(),
                stack_ok(grids_of(stack@), base, n),
                legal(base, n, b) ==> stack_legal(grids_of(stack@), n, b),
                forall|s: Grid| #[trigger]
                    solution_of(s, base, n, b) ==> Self::solves_one(s, grids_of(stack@)),
            decreases stack_weight(grids_of(stack@), n),
        {
            let ghost stack0 = grids_of(stack@);
            let ghost trace0 = self.trace();
            let mut current = stack.pop().unwrap();
            let ghost top = current.grid();
            let ghost rest = grids_of(stack@);
            proof {
                assert(rest =~= stack0.drop_last());
                lemma_propagate(top, trace0, budget, n, b);
                lemma_propagate_trace(top, trace0, budget, n, b);
                lemma_weight_positive(empty_count(top, n), n);
            }
            self.develop_all(&mut current);
            let ghost g = current.grid();
            if current.is_full() {
                proof {
                    if legal(base, n, b) {
                        lemma_full_legal_solved(g, n, b);
                    }
                }
                return Some(current);
            }
            match Self::find_random_to_try(&current, rand) {
                None => {
                    proof {
                        assert forall|s: Grid| #[trigger]
                            solution_of(s, base, n, b) implies Self::solves_one(s, rest) by {
                            Self::lemma_dropped(stack0, s, trace0, budget);
                        }
                    }
                },
                Some(cell) => {
                    let row = cell[0];
                    let col = cell[1];
                    proof {
                        let digits = ascending(candidates(g, n, b, row as int, col as int), n);
                        lemma_ascending(candidates(g, n, b, row as int, col as int), n);
                        lemma_branch_lighter(rest, top, g, row as int, col as int, digits, n);
                        assert forall|s: Grid| #[trigger]
                            solution_of(s, base, n, b) implies Self::solves_one(
                            s,
                            rest + children(g, row as int, col as int, digits),
                        ) by {
                            Self::lemma_branched(
                                stack0,
                                s,
                                trace0,
                                budget,
                                row as int,
                                col as int,
                            );
                        }
                    }
                    Self::push_children(&current, row, col, false, &mut stack, &mut unused);
                },
            }
        }
        None
    }

    /// `s` is a solution of one of the grids of the stack.
    pub open spec fn solves_one(s: Grid, stack: Seq<Grid>) -> bool {
        exists|i: int|
            0 <= i < stack.len() && solution_of(
                s,
                #[trigger] stack[i],
                SIZE as int,
                BLOCK_SIZE as int,
            )
    }

    /// Where the top of the stack is deduced on and has an empty cell without
    /// candidates, a solution of a grid of the stack is one of a grid below the top.
    proof fn lemma_dropped(stack: Seq<Grid>, s: Grid, trace: Seq<StepView>, budget: nat)
        requires
            dims(SIZE as int, BLOCK_SIZE as int),
            stack.len() > 0,
            shaped(stack.last(), SIZE as int),
            Self::solves_one(s, stack),
            dead_end(
                propagate(stack.last(), trace, budget, SIZE as int, BLOCK_SIZE as int).0,
                SIZE as int,
                BLOCK_SIZE as int,
            ),
        ensures
            Self::solves_one(s, stack.drop_last()),
    {
        let n = SIZE as int;
        let b = BLOCK_SIZE as int;
        let i = choose|i: int| 0 <= i < stack.len() && solution_of(s, #[trigger] stack[i], n, b);
        if i == stack.len() - 1 {
            lemma_propagate_keeps(stack.last(), trace, budget, s, n, b);
            lemma_dead_end_unsolvable(propagate(stack.last(), trace, budget, n, b).0, s, n, b);
        } else {
            assert(stack.drop_last()[i] == stack[i]);
        }
    }

    /// Where the top of the stack is deduced on and replaced by the children
    /// of a branch on an empty cell, a solution of a grid of the stack is
    /// still one.
    proof fn lemma_branched(
        stack: Seq<Grid>,
        s: Grid,
        trace: Seq<StepView>,
        budget: nat,
        r: int,
        c: int,
    )
        requires
            dims(SIZE as int, BLOCK_SIZE as int),
            stack.len() > 0,
            shaped(stack.last(), SIZE as int),
            Self::solves_one(s, stack),
            0 <= r < SIZE,
            0 <= c < SIZE,
            propagate(stack.last(), trace, budget, SIZE as int, BLOCK_SIZE as int).0[r][c] is None,
        ensures
            ({
                let g = propagate(stack.last(), trace, budget, SIZE as int, BLOCK_SIZE as int).0;
                Self::solves_one(
                    s,
                    stack.drop_last() + children(
                        g,
                        r,
                        c,
                        ascending(candidates(g, SIZE as int, BLOCK_SIZE as int, r, c), SIZE as int),
                    ),
                )
            }),
    {
        let n = SIZE as int;
        let b = BLOCK_SIZE as int;
        let g = propagate(stack.last(), trace, budget, n, b).0;
        let rest = stack.drop_last();
        let kids = children(g, r, c, ascending(candidates(g, n, b, r, c), n));
        let next = rest + kids;
        let i = choose|i: int| 0 <= i < stack.len() && solution_of(s, #[trigger] stack[i], n, b);
        if i == stack.len() - 1 {
            lemma_propagate(stack.last(), trace, budget, n, b);
            lemma_propagate_keeps(stack.last(), trace, budget, s, n, b);
            lemma_child_keeps(g, s, n, b, r, c);
            let j = choose|j: int| 0 <= j < kids.len() && solution_of(s, #[trigger] kids[j], n, b);
            assert(next[rest.len() + j] == kids[j]);
        } else {
            assert(next[i] == stack[i]);
        }
    }

    /// What holds of a stack holds of the stack without its top.
    proof fn lemma_rest_ok(stack: Seq<Grid>, base: Grid)
        requires
            stack.len() > 0,
            stack_ok(stack, base, SIZE as int),
        ensures
            stack_ok(stack.drop_last(), base, SIZE as int),
            stack_legal(stack, SIZE as int, BLOCK_SIZE as int) ==> stack_legal(
                stack.drop_last(),
                SIZE as int,
                BLOCK_SIZE as int,
            ),
    {
    }

    /// What holds of two stacks holds of the one on top of the other.
    proof fn lemma_joined_ok(rest: Seq<Grid>, kids: Seq<Grid>, base: Grid)
        requires
            stack_ok(rest, base, SIZE as int),
            stack_ok(kids, base, SIZE as int),
        ensures
            stack_ok(rest + kids, base, SIZE as int),
            stack_legal(rest, SIZE as int, BLOCK_SIZE as int) && stack_legal(
                kids,
                SIZE as int,
                BLOCK_SIZE as int,
            ) ==> stack_legal(rest + kids, SIZE as int, BLOCK_SIZE as int),
    {
        if stack_legal(rest, SIZE as int, BLOCK_SIZE as int) && stack_legal(
            kids,
            SIZE as int,
            BLOCK_SIZE as int,
        ) {
        }
    }
}

} // verus!
