//! The deduction rules, as functions of a grid and of the digits each cell
//! may take.
//!
//! Two rules fill a cell for certain. A naked single is an empty cell that
//! may take one digit only. A hidden single is a digit that only one empty
//! cell of a row, a column or a block may take. The rules are tried in that
//! order of priority, and each scans the grid in a fixed order, so what they
//! deduce is a function of their input.

use crate::grid::{
    before, candidate, candidates, digit_at, dims, empty_count, extends, holds, in_block,
    in_col, in_range, in_row, legal, lemma_block_index, lemma_fill_empty_count,
    lemma_place_candidate, lemma_solution_candidate, lemma_solution_with_cell, shaped,
    solution_of, solved, with_cell, Grid,
};
use crate::literal::literal_text;
use crate::solve_report::{Message, StepView};
use vstd::prelude::*;

verus! {

/// For each cell the set of digits it may take.
pub type Options = Seq<Seq<Set<int>>>;

/// The cells of a unit, in the order in which they are scanned.
pub type Cells = Seq<(int, int)>;

/// The three kinds of unit.
#[derive(Clone, Copy, Debug, PartialEq, Eq)]
pub enum Unit {
    Row,
    Col,
    Block,
}

/// A digit to write in a cell.
pub struct Placement {
    pub row: int,
    pub col: int,
    pub digit: int,
}

/// For each cell its candidates in `g`.
pub open spec fn all_candidates(g: Grid, n: int, b: int) -> Options {
    Seq::new(n as nat, |r: int| Seq::new(n as nat, |c: int| candidates(g, n, b, r, c)))
}

/// `o` offers digits from 1 to `n` only, finitely many for each cell.
pub open spec fn options_shaped(o: Options, n: int) -> bool {
    &&& o.len() == n
    &&& forall|r: int| 0 <= r < n ==> (#[trigger] o[r]).len() == n
    &&& forall|r: int, c: int| 0 <= r < n && 0 <= c < n ==> (#[trigger] o[r][c]).finite()
    &&& forall|r: int, c: int, d: int|
        0 <= r < n && 0 <= c < n && #[trigger] o[r][c].contains(d) ==> 1 <= d <= n
}

/// `d` is the smallest element of `s`.
pub open spec fn is_least(s: Set<int>, d: int) -> bool {
    s.contains(d) && forall|e: int| s.contains(e) ==> d <= e
}

/// The smallest element of `s`, where it has one.
pub open spec fn least_of(s: Set<int>) -> int {
    choose|d: int| is_least(s, d)
}

/// A smallest element of a set is its `least_of`.
pub proof fn lemma_least_of(s: Set<int>, d: int)
    requires
        is_least(s, d),
    ensures
        least_of(s) == d,
{
}

// ---------------------------------------------------------------------------
// Naked single
// ---------------------------------------------------------------------------
/// Cell `(r, c)` is empty and may take exactly one digit.
pub open spec fn naked_at(g: Grid, o: Options, r: int, c: int) -> bool {
    g[r][c] is None && o[r][c].len() == 1
}

/// `(r, c)` is the first such cell when the grid is read row by row.
pub open spec fn first_naked(g: Grid, o: Options, n: int, r: int, c: int) -> bool {
    &&& 0 <= r < n && 0 <= c < n
    &&& naked_at(g, o, r, c)
    &&& forall|r2: int, c2: int|
        0 <= r2 < n && 0 <= c2 < n && before(r2, c2, r, c) ==> !#[trigger] naked_at(g, o, r2, c2)
}

/// The first naked single, with the digit it takes.
pub open spec fn naked_single(g: Grid, o: Options, n: int) -> Option<Placement> {
    if exists|r: int, c: int| first_naked(g, o, n, r, c) {
        let (r, c) = choose|r: int, c: int| first_naked(g, o, n, r, c);
        Some(Placement { row: r, col: c, digit: least_of(o[r][c]) })
    } else {
        None
    }
}

/// The first naked single is the one that `naked_single` gives.
pub proof fn lemma_naked_single_is(g: Grid, o: Options, n: int, r: int, c: int)
    requires
        first_naked(g, o, n, r, c),
    ensures
        naked_single(g, o, n) == Some(Placement { row: r, col: c, digit: least_of(o[r][c]) }),
{
    let (r2, c2) = choose|r: int, c: int| first_naked(g, o, n, r, c);
    assert(first_naked(g, o, n, r2, c2));
    if r2 != r || c2 != c {
        if before(r2, c2, r, c) {
            assert(!naked_at(g, o, r2, c2));
        } else {
            assert(before(r, c, r2, c2));
            assert(!naked_at(g, o, r, c));
        }
    }
}

/// Without a cell that is a naked single, `naked_single` gives none.
pub proof fn lemma_naked_single_none(g: Grid, o: Options, n: int)
    requires
        forall|r: int, c: int| 0 <= r < n && 0 <= c < n ==> !#[trigger] naked_at(g, o, r, c),
    ensures
        naked_single(g, o, n) is None,
{
}

/// What the trace says of a naked single.
pub open spec fn naked_step(p: Placement, text: Seq<char>) -> StepView {
    StepView {
        message: Message::CanContainOnly(
            p.digit as u8,
            (p.row + 1) as usize,
            (p.col + 1) as usize,
        ),
        highlight_row: Some(p.row as u8),
        highlight_col: Some(p.col as u8),
        highlight_block: None,
        literal: text,
    }
}

// ---------------------------------------------------------------------------
// Hidden single
// ---------------------------------------------------------------------------
/// The cells of unit `u` of a kind: row `u`, column `u`, or the block with
/// block-row `u / b` and block-column `u % b`, read row by row.
pub open spec fn unit_cells(kind: Unit, n: int, b: int, u: int) -> Cells {
    Seq::new(
        n as nat,
        |t: int|
            match kind {
                Unit::Row => (u, t),
                Unit::Col => (t, u),
                Unit::Block => ((u / b) * b + t / b, (u % b) * b + t % b),
            },
    )
}

/// Cell `t` of the unit is empty and may take `d`.
pub open spec fn open_for(g: Grid, o: Options, cells: Cells, t: int, d: int) -> bool {
    g[cells[t].0][cells[t].1] is None && o[cells[t].0][cells[t].1].contains(d)
}

/// Cell `t` is the only cell of the unit that is empty and may take `d`.
pub open spec fn only_at(g: Grid, o: Options, cells: Cells, t: int, d: int) -> bool {
    &&& 0 <= t < cells.len()
    &&& open_for(g, o, cells, t, d)
    &&& forall|t2: int| 0 <= t2 < cells.len() && t2 != t ==> !#[trigger] open_for(g, o, cells, t2, d)
}

/// Exactly one empty cell of the unit may take `d`.
pub open spec fn once_in(g: Grid, o: Options, cells: Cells, d: int) -> bool {
    exists|t: int| only_at(g, o, cells, t, d)
}

/// `d` is the smallest digit that exactly one empty cell of the unit may take.
pub open spec fn first_hidden_digit(g: Grid, o: Options, cells: Cells, n: int, d: int) -> bool {
    &&& 1 <= d <= n
    &&& once_in(g, o, cells, d)
    &&& forall|e: int| 1 <= e < d ==> !#[trigger] once_in(g, o, cells, e)
}

/// The hidden single of a unit: its smallest such digit, in the cell that may take it.
pub open spec fn hidden_in_unit(g: Grid, o: Options, cells: Cells, n: int) -> Option<Placement> {
    if exists|d: int| first_hidden_digit(g, o, cells, n, d) {
        let d = choose|d: int| first_hidden_digit(g, o, cells, n, d);
        let t = choose|t: int| only_at(g, o, cells, t, d);
        Some(Placement { row: cells[t].0, col: cells[t].1, digit: d })
    } else {
        None
    }
}

/// The smallest digit that one empty cell of a unit may take alone, and
/// that cell, are what `hidden_in_unit` gives.
pub proof fn lemma_hidden_in_unit_is(g: Grid, o: Options, cells: Cells, n: int, d: int, t: int)
    requires
        first_hidden_digit(g, o, cells, n, d),
        only_at(g, o, cells, t, d),
    ensures
        hidden_in_unit(g, o, cells, n) == Some(
            Placement { row: cells[t].0, col: cells[t].1, digit: d },
        ),
{
    let d2 = choose|d: int| first_hidden_digit(g, o, cells, n, d);
    if d < d2 {
        assert(!once_in(g, o, cells, d));
    }
}

/// Without a digit that one empty cell of a unit may take alone,
/// `hidden_in_unit` gives none.
pub proof fn lemma_hidden_in_unit_none(g: Grid, o: Options, cells: Cells, n: int)
    requires
        forall|d: int| 1 <= d <= n ==> !#[trigger] once_in(g, o, cells, d),
    ensures
        hidden_in_unit(g, o, cells, n) is None,
{
}

/// `u` is the first unit of its kind that has a hidden single.
pub open spec fn first_hidden_unit(g: Grid, o: Options, kind: Unit, n: int, b: int, u: int) -> bool {
    &&& 0 <= u < n
    &&& hidden_in_unit(g, o, unit_cells(kind, n, b, u), n) is Some
    &&& forall|v: int|
        0 <= v < u ==> (#[trigger] hidden_in_unit(g, o, unit_cells(kind, n, b, v), n)) is None
}

/// The first unit of a kind with a hidden single, and that single.
pub open spec fn hidden_single(g: Grid, o: Options, kind: Unit, n: int, b: int) -> Option<
    (int, Placement),
> {
    if exists|u: int| first_hidden_unit(g, o, kind, n, b, u) {
        let u = choose|u: int| first_hidden_unit(g, o, kind, n, b, u);
        Some((u, hidden_in_unit(g, o, unit_cells(kind, n, b, u), n).unwrap()))
    } else {
        None
    }
}

/// The first unit with a hidden single is the one that `hidden_single` gives.
pub proof fn lemma_hidden_single_is(g: Grid, o: Options, kind: Unit, n: int, b: int, u: int)
    requires
        first_hidden_unit(g, o, kind, n, b, u),
    ensures
        hidden_single(g, o, kind, n, b) == Some(
            (u, hidden_in_unit(g, o, unit_cells(kind, n, b, u), n).unwrap()),
        ),
{
    let u2 = choose|u: int| first_hidden_unit(g, o, kind, n, b, u);
    assert(first_hidden_unit(g, o, kind, n, b, u2));
}

/// Without a unit that has a hidden single, `hidden_single` gives none.
pub proof fn lemma_hidden_single_none(g: Grid, o: Options, kind: Unit, n: int, b: int)
    requires
        forall|u: int|
            0 <= u < n ==> (#[trigger] hidden_in_unit(g, o, unit_cells(kind, n, b, u), n)) is None,
    ensures
        hidden_single(g, o, kind, n, b) is None,
{
}

/// What the trace says of a hidden single found in unit `u`.
pub open spec fn hidden_step(kind: Unit, b: int, u: int, p: Placement, text: Seq<char>) -> StepView {
    match kind {
        Unit::Row => StepView {
            message: Message::NumberOnlyFitsInRow(p.digit as u8, (u + 1) as usize),
            highlight_row: Some(p.row as u8),
            highlight_col: None,
            highlight_block: None,
            literal: text,
        },
        Unit::Col => StepView {
            message: Message::NumberOnlyFitsInCol(p.digit as u8, (u + 1) as usize),
            highlight_row: None,
            highlight_col: Some(p.col as u8),
            highlight_block: None,
            literal: text,
        },
        Unit::Block => StepView {
            message: Message::NumberOnlyFitsInBlock(
                p.digit as u8,
                (u / b + 1) as usize,
                (u % b + 1) as usize,
            ),
            highlight_row: None,
            highlight_col: None,
            highlight_block: Some(((u / b) as u8, (u % b) as u8)),
            literal: text,
        },
    }
}

// ---------------------------------------------------------------------------
// One deduction, and deduction to the fixpoint
// ---------------------------------------------------------------------------
/// A placement deduced by a rule, with what the trace says of it but for
/// the literal.
pub struct Deduction {
    pub place: Placement,
    pub step: StepView,
}

/// `g` with the placement made.
pub open spec fn placed(g: Grid, p: Placement) -> Grid {
    with_cell(g, p.row, p.col, Some(p.digit as u8))
}

/// The placement fills an empty cell of the grid with a digit from 1 to `n`.
pub open spec fn fills(g: Grid, n: int, p: Placement) -> bool {
    0 <= p.row < n && 0 <= p.col < n && 1 <= p.digit <= n && g[p.row][p.col] is None
}

/// The first naked single, with what the trace says of it.
pub open spec fn naked_deduction(g: Grid, o: Options, n: int) -> Option<Deduction> {
    match naked_single(g, o, n) {
        Some(p) => Some(
            Deduction { place: p, step: naked_step(p, literal_text(placed(g, p), n)) },
        ),
        None => None,
    }
}

/// The first hidden single of a kind of unit, with what the trace says of it.
pub open spec fn hidden_deduction(g: Grid, o: Options, kind: Unit, n: int, b: int) -> Option<
    Deduction,
> {
    match hidden_single(g, o, kind, n, b) {
        Some((u, p)) => Some(
            Deduction { place: p, step: hidden_step(kind, b, u, p, literal_text(placed(g, p), n)) },
        ),
        None => None,
    }
}

/// The placement that the rules make on `g` when the cells may take the
/// digits `o`: the first of naked single, hidden single in a row, in a
/// column, in a block.
pub open spec fn deduce(g: Grid, o: Options, n: int, b: int) -> Option<Deduction> {
    if naked_deduction(g, o, n) is Some {
        naked_deduction(g, o, n)
    } else if hidden_deduction(g, o, Unit::Row, n, b) is Some {
        hidden_deduction(g, o, Unit::Row, n, b)
    } else if hidden_deduction(g, o, Unit::Col, n, b) is Some {
        hidden_deduction(g, o, Unit::Col, n, b)
    } else {
        hidden_deduction(g, o, Unit::Block, n, b)
    }
}

/// What a rule that deduced `ded` did: with a deduction, the placement is
/// made and the step recorded; without one, nothing changes.
pub open spec fn applied(
    ded: Option<Deduction>,
    grid_before: Grid,
    trace_before: Seq<StepView>,
    budget: nat,
    progress: bool,
    grid_after: Grid,
    trace_after: Seq<StepView>,
) -> bool {
    match ded {
        Some(d) => progress && grid_after == placed(grid_before, d.place) && trace_after
            == recorded(trace_before, budget, d.step),
        None => !progress && grid_after == grid_before && trace_after == trace_before,
    }
}

/// How many of the first `t` cells of a unit are empty and may take `d`.
pub open spec fn open_count(g: Grid, o: Options, cells: Cells, t: int, d: int) -> nat
    decreases t,
{
    if t <= 0 {
        0
    } else {
        open_count(g, o, cells, t - 1, d) + if open_for(g, o, cells, t - 1, d) {
            1nat
        } else {
            0nat
        }
    }
}

/// The count of the empty cells that may take `d` is 0 when there is none
/// and 1 when there is exactly one.
pub proof fn lemma_open_count(g: Grid, o: Options, cells: Cells, t: int, d: int)
    requires
        0 <= t <= cells.len(),
    ensures
        open_count(g, o, cells, t, d) == 0 <==> forall|i: int|
            0 <= i < t ==> !#[trigger] open_for(g, o, cells, i, d),
        open_count(g, o, cells, t, d) == 1 <==> exists|i: int|
            0 <= i < t && #[trigger] open_for(g, o, cells, i, d) && forall|j: int|
                0 <= j < t && j != i ==> !#[trigger] open_for(g, o, cells, j, d),
    decreases t,
{
    if t > 0 {
        lemma_open_count(g, o, cells, t - 1, d);
        let prev = open_count(g, o, cells, t - 1, d);
        if open_for(g, o, cells, t - 1, d) {
            if prev == 0 {
                assert(forall|j: int|
                    0 <= j < t && j != t - 1 ==> !#[trigger] open_for(g, o, cells, j, d));
            } else {
                // some earlier cell is open as well
                let e = choose|e: int| 0 <= e < t - 1 && #[trigger] open_for(g, o, cells, e, d);
                assert forall|i: int|
                    0 <= i < t && #[trigger] open_for(g, o, cells, i, d) implies !(forall|j: int|
                    0 <= j < t && j != i ==> !#[trigger] open_for(g, o, cells, j, d)) by {
                    if i == t - 1 {
                        assert(open_for(g, o, cells, e, d));
                    }
                }
            }
        } else {
            if prev == 1 {
                let i = choose|i: int|
                    0 <= i < t - 1 && #[trigger] open_for(g, o, cells, i, d) && forall|j: int|
                        0 <= j < t - 1 && j != i ==> !#[trigger] open_for(g, o, cells, j, d);
                assert(forall|j: int|
                    0 <= j < t && j != i ==> !#[trigger] open_for(g, o, cells, j, d));
            } else {
                assert forall|i: int|
                    0 <= i < t && #[trigger] open_for(g, o, cells, i, d) implies !(forall|j: int|
                    0 <= j < t && j != i ==> !#[trigger] open_for(g, o, cells, j, d)) by {
                    if forall|j: int|
                        0 <= j < t && j != i ==> !#[trigger] open_for(g, o, cells, j, d) {
                        assert(forall|j: int|
                            0 <= j < t - 1 && j != i ==> !#[trigger] open_for(g, o, cells, j, d));
                    }
                }
            }
        }
    }
}

/// Exactly one empty cell of a unit may take `d` when the count of such cells is 1.
pub proof fn lemma_once_in(g: Grid, o: Options, cells: Cells, d: int)
    ensures
        once_in(g, o, cells, d) <==> open_count(g, o, cells, cells.len() as int, d) == 1,
{
    lemma_open_count(g, o, cells, cells.len() as int, d);
    if once_in(g, o, cells, d) {
        let t = choose|t: int| only_at(g, o, cells, t, d);
        assert(open_for(g, o, cells, t, d));
    }
    if open_count(g, o, cells, cells.len() as int, d) == 1 {
        let i = choose|i: int|
            0 <= i < cells.len() && #[trigger] open_for(g, o, cells, i, d) && forall|j: int|
                0 <= j < cells.len() && j != i ==> !#[trigger] open_for(g, o, cells, j, d);
        assert(only_at(g, o, cells, i, d));
    }
}

/// The trace after a step, which is recorded while the budget lasts.
pub open spec fn recorded(trace: Seq<StepView>, budget: nat, step: StepView) -> Seq<StepView> {
    if trace.len() < budget {
        trace.push(step)
    } else {
        trace
    }
}

/// The deduction that the rules make on `g` from its candidates.
pub open spec fn develop(g: Grid, n: int, b: int) -> Option<Deduction> {
    deduce(g, all_candidates(g, n, b), n, b)
}

/// The cells of every unit lie in the grid.
pub proof fn lemma_unit_cells(kind: Unit, n: int, b: int, u: int, t: int)
    requires
        dims(n, b),
        0 <= u < n,
        0 <= t < n,
    ensures
        0 <= unit_cells(kind, n, b, u)[t].0 < n,
        0 <= unit_cells(kind, n, b, u)[t].1 < n,
{
}

/// A naked single fills an empty cell with one of the digits it may take.
pub proof fn lemma_naked_single_fills(g: Grid, o: Options, n: int)
    requires
        options_shaped(o, n),
        naked_single(g, o, n) is Some,
    ensures
        fills(g, n, naked_single(g, o, n).unwrap()),
        o[naked_single(g, o, n).unwrap().row][naked_single(g, o, n).unwrap().col].contains(
            naked_single(g, o, n).unwrap().digit,
        ),
        forall|d: int|
            o[naked_single(g, o, n).unwrap().row][naked_single(g, o, n).unwrap().col].contains(d)
                ==> d == naked_single(g, o, n).unwrap().digit,
{
    let (r, c) = choose|r: int, c: int| first_naked(g, o, n, r, c);
    let s = o[r][c];
    assert(s.finite() && s.len() == 1);
    let x = s.choose();
    assert(s.contains(x)) by {
    }
    assert(is_least(s, x)) by {
        assert forall|e: int| s.contains(e) implies x <= e by {
            if e != x {
                // two different elements: more than one
                assert(s.remove(x) =~= Set::<int>::empty()) by {
                }
            }
        }
    }
}

/// A hidden single fills an empty cell with one of the digits it may take.
pub proof fn lemma_hidden_single_fills(g: Grid, o: Options, kind: Unit, n: int, b: int)
    requires
        dims(n, b),
        hidden_single(g, o, kind, n, b) is Some,
    ensures
        fills(g, n, hidden_single(g, o, kind, n, b).unwrap().1),
        o[hidden_single(g, o, kind, n, b).unwrap().1.row][hidden_single(
            g,
            o,
            kind,
            n,
            b,
        ).unwrap().1.col].contains(hidden_single(g, o, kind, n, b).unwrap().1.digit),
        0 <= hidden_single(g, o, kind, n, b).unwrap().0 < n,
        exists|t: int|
            #[trigger] only_at(
                g,
                o,
                unit_cells(kind, n, b, hidden_single(g, o, kind, n, b).unwrap().0),
                t,
                hidden_single(g, o, kind, n, b).unwrap().1.digit,
            ) && unit_cells(kind, n, b, hidden_single(g, o, kind, n, b).unwrap().0)[t] == (
                hidden_single(g, o, kind, n, b).unwrap().1.row,
                hidden_single(g, o, kind, n, b).unwrap().1.col,
            ),
{
    let u = choose|u: int| first_hidden_unit(g, o, kind, n, b, u);
    let cells = unit_cells(kind, n, b, u);
    let d = choose|d: int| first_hidden_digit(g, o, cells, n, d);
    assert(first_hidden_digit(g, o, cells, n, d));
    let t = choose|t: int| only_at(g, o, cells, t, d);
    lemma_unit_cells(kind, n, b, u, t);
}

/// Whatever the rules deduce from `o` fills an empty cell with a digit that `o` offers it.
pub proof fn lemma_deduce_fills(g: Grid, o: Options, n: int, b: int)
    requires
        dims(n, b),
        options_shaped(o, n),
        deduce(g, o, n, b) is Some,
    ensures
        fills(g, n, deduce(g, o, n, b).unwrap().place),
        o[deduce(g, o, n, b).unwrap().place.row][deduce(g, o, n, b).unwrap().place.col].contains(
            deduce(g, o, n, b).unwrap().place.digit,
        ),
{
    if naked_single(g, o, n) is Some {
        lemma_naked_single_fills(g, o, n);
    } else if hidden_single(g, o, Unit::Row, n, b) is Some {
        lemma_hidden_single_fills(g, o, Unit::Row, n, b);
    } else if hidden_single(g, o, Unit::Col, n, b) is Some {
        lemma_hidden_single_fills(g, o, Unit::Col, n, b);
    } else {
        lemma_hidden_single_fills(g, o, Unit::Block, n, b);
    }
}

/// The candidates of a grid are digits from 1 to `n`.
pub proof fn lemma_all_candidates_shaped(g: Grid, n: int, b: int)
    requires
        0 <= n,
    ensures
        options_shaped(all_candidates(g, n, b), n),
{
    let o = all_candidates(g, n, b);
    assert forall|r: int, c: int| 0 <= r < n && 0 <= c < n implies (#[trigger] o[r][c]).finite() by {
        vstd::set_lib::lemma_int_range(1, n + 1);
        let full = vstd::set_lib::set_int_range(1, n + 1);
        vstd::set_lib::lemma_len_subset(o[r][c], full);
    }
}

/// A deduction from the candidates of a grid fills an empty cell with one of
/// its candidates: the grid stays legal and in range, and one empty cell
/// fewer is left.
pub proof fn lemma_develop(g: Grid, n: int, b: int)
    requires
        dims(n, b),
        shaped(g, n),
        develop(g, n, b) is Some,
    ensures
        fills(g, n, develop(g, n, b).unwrap().place),
        candidate(
            g,
            n,
            b,
            develop(g, n, b).unwrap().place.row,
            develop(g, n, b).unwrap().place.col,
            develop(g, n, b).unwrap().place.digit,
        ),
        shaped(placed(g, develop(g, n, b).unwrap().place), n),
        empty_count(placed(g, develop(g, n, b).unwrap().place), n) + 1 == empty_count(g, n),
        extends(placed(g, develop(g, n, b).unwrap().place), g, n),
        in_range(g, n) ==> in_range(placed(g, develop(g, n, b).unwrap().place), n),
        legal(g, n, b) ==> legal(placed(g, develop(g, n, b).unwrap().place), n, b),
{
    let o = all_candidates(g, n, b);
    lemma_all_candidates_shaped(g, n, b);
    lemma_deduce_fills(g, o, n, b);
    let p = develop(g, n, b).unwrap().place;
    lemma_fill_empty_count(g, n, p.row, p.col, p.digit as u8);
    lemma_place_candidate(g, n, b, p.row, p.col, p.digit as u8);
}

// ---------------------------------------------------------------------------
// The rules keep every solution
// ---------------------------------------------------------------------------
/// Every unit of a solved grid holds every digit in one of its cells.
pub proof fn lemma_unit_holds(s: Grid, kind: Unit, n: int, b: int, u: int, d: int)
    requires
        dims(n, b),
        solved(s, n, b),
        0 <= u < n,
        1 <= d <= n,
    ensures
        exists|t: int|
            0 <= t < n && holds(
                s[(#[trigger] unit_cells(kind, n, b, u)[t]).0][unit_cells(kind, n, b, u)[t].1],
                d,
            ),
{
    let cells = unit_cells(kind, n, b, u);
    match kind {
        Unit::Row => {
            assert(in_row(s, n, u, d));
            let c = choose|c: int| 0 <= c < n && holds(#[trigger] s[u][c], d);
            assert(cells[c] == (u, c));
        },
        Unit::Col => {
            assert(in_col(s, n, u, d));
            let r = choose|r: int| 0 <= r < n && holds(#[trigger] s[r][u], d);
            assert(cells[r] == (r, u));
        },
        Unit::Block => {
            lemma_block_index(n, b, u);
            assert(in_block(s, n, b, u / b, u % b, d));
            let (r, c) = choose|r: int, c: int|
                0 <= r < n && 0 <= c < n && r / b == u / b && c / b == u % b && holds(
                    #[trigger] s[r][c],
                    d,
                );
            let t = (r % b) * b + c % b;
            assert(cells[t] == (r, c));
        },
    }
}

/// A digit that a unit of a grid holds is no candidate of a cell of that unit.
pub proof fn lemma_unit_blocks(g: Grid, kind: Unit, n: int, b: int, u: int, t: int, t2: int, d: int)
    requires
        dims(n, b),
        0 <= u < n,
        0 <= t < n,
        0 <= t2 < n,
        holds(g[unit_cells(kind, n, b, u)[t2].0][unit_cells(kind, n, b, u)[t2].1], d),
    ensures
        !candidate(g, n, b, unit_cells(kind, n, b, u)[t].0, unit_cells(kind, n, b, u)[t].1, d),
{
    let cells = unit_cells(kind, n, b, u);
    lemma_unit_cells(kind, n, b, u, t);
    lemma_unit_cells(kind, n, b, u, t2);
    match kind {
        Unit::Row => {
            assert(holds(g[u][t2], d));
            assert(in_row(g, n, u, d));
        },
        Unit::Col => {
            assert(holds(g[t2][u], d));
            assert(in_col(g, n, u, d));
        },
        Unit::Block => {
            lemma_block_index(n, b, u);
            let (r, c) = cells[t];
            let (r2, c2) = cells[t2];
            assert(r / b == u / b && c / b == u % b);
            assert(r2 / b == u / b && c2 / b == u % b);
            assert(holds(g[r2][c2], d));
            assert(in_block(g, n, b, r / b, c / b, d));
        },
    }
}

/// A deduction from the candidates of a grid writes what every solution of
/// the grid holds in that cell: the solutions of the grid are solutions of
/// the grid with the placement made.
pub proof fn lemma_develop_keeps(g: Grid, s: Grid, n: int, b: int)
    requires
        dims(n, b),
        shaped(g, n),
        solution_of(s, g, n, b),
        develop(g, n, b) is Some,
    ensures
        solution_of(s, placed(g, develop(g, n, b).unwrap().place), n, b),
{
    let o = all_candidates(g, n, b);
    lemma_all_candidates_shaped(g, n, b);
    lemma_develop(g, n, b);
    let p = develop(g, n, b).unwrap().place;
    lemma_solution_candidate(s, g, n, b, p.row, p.col);
    let ds = digit_at(s, p.row, p.col);
    assert(o[p.row][p.col].contains(ds));
    if naked_single(g, o, n) is Some {
        lemma_naked_single_fills(g, o, n);
        assert(ds == p.digit);
    } else {
        let kind = if hidden_single(g, o, Unit::Row, n, b) is Some {
            Unit::Row
        } else if hidden_single(g, o, Unit::Col, n, b) is Some {
            Unit::Col
        } else {
            Unit::Block
        };
        lemma_hidden_single_fills(g, o, kind, n, b);
        let u = hidden_single(g, o, kind, n, b).unwrap().0;
        let cells = unit_cells(kind, n, b, u);
        let d = p.digit;
        let t = choose|t: int|
            #[trigger] only_at(g, o, cells, t, d) && cells[t] == (p.row, p.col);
        lemma_unit_holds(s, kind, n, b, u, d);
        let t2 = choose|t2: int|
            0 <= t2 < n && holds(s[(#[trigger] cells[t2]).0][cells[t2].1], d);
        lemma_unit_cells(kind, n, b, u, t2);
        lemma_unit_cells(kind, n, b, u, t);
        let (r2, c2) = cells[t2];
        if g[r2][c2] is Some {
            // the unit holds d already: d is no candidate of the cell
            assert(s[r2][c2] == g[r2][c2]);
            lemma_unit_blocks(g, kind, n, b, u, t, t2, d);
            assert(o[p.row][p.col].contains(d));
            assert(false);
        } else {
            lemma_solution_candidate(s, g, n, b, r2, c2);
            assert(o[r2][c2].contains(d));
            assert(open_for(g, o, cells, t2, d));
            assert(t2 == t);
        }
        assert(ds == d);
    }
    assert(s[p.row][p.col] == Some(p.digit as u8));
    lemma_solution_with_cell(s, g, n, b, p.row, p.col);
}

} // verus!
