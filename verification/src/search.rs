//! The search, as a function of the stack of grids still to explore.
//!
//! The solver keeps a stack of grids. It takes the top one, deduces to the
//! fixpoint, and is done if the grid is full. Otherwise it picks the empty
//! cell with the fewest candidates and puts one grid for each candidate on
//! the stack, or drops the grid when some empty cell has no candidate left.
//! An empty stack means that there is no solution.

use crate::deduction::{develop, lemma_develop, lemma_develop_keeps, placed, recorded};
use crate::grid::{
    before, candidates, digit_at, dims, empty_count, extends, full, in_range, legal,
    lemma_fill_empty_count, lemma_place_candidate, shaped, solution_of, with_cell, Grid,
};
use crate::literal::literal_text;
use crate::number_options::{ascending, lemma_ascending};
use crate::solve_report::{Message, StepView};
use vstd::prelude::*;

verus! {

// ---------------------------------------------------------------------------
// Deduction to the fixpoint
// ---------------------------------------------------------------------------
/// The grid and the trace once the rules deduce nothing more.
pub open spec fn propagate(g: Grid, trace: Seq<StepView>, budget: nat, n: int, b: int) -> (
    Grid,
    Seq<StepView>,
)
    decreases empty_count(g, n),
{
    if dims(n, b) && shaped(g, n) && develop(g, n, b) is Some {
        proof {
            lemma_develop(g, n, b);
        }
        let d = develop(g, n, b).unwrap();
        propagate(placed(g, d.place), recorded(trace, budget, d.step), budget, n, b)
    } else {
        (g, trace)
    }
}

/// Deduction to the fixpoint keeps the shape, the range and the legality of a
/// grid, extends it, leaves no more empty cells than there were, and ends
/// where the rules deduce nothing.
pub proof fn lemma_propagate(g: Grid, trace: Seq<StepView>, budget: nat, n: int, b: int)
    requires
        dims(n, b),
        shaped(g, n),
    ensures
        shaped(propagate(g, trace, budget, n, b).0, n),
        develop(propagate(g, trace, budget, n, b).0, n, b) is None,
        extends(propagate(g, trace, budget, n, b).0, g, n),
        empty_count(propagate(g, trace, budget, n, b).0, n) <= empty_count(g, n),
        in_range(g, n) ==> in_range(propagate(g, trace, budget, n, b).0, n),
        legal(g, n, b) ==> legal(propagate(g, trace, budget, n, b).0, n, b),
    decreases empty_count(g, n),
{
    if develop(g, n, b) is Some {
        lemma_develop(g, n, b);
        let d = develop(g, n, b).unwrap();
        let h = placed(g, d.place);
        lemma_propagate(h, recorded(trace, budget, d.step), budget, n, b);
    }
}

/// Deduction is idempotent at the fixpoint: on a grid that deduction to the
/// fixpoint has reached, the rules deduce nothing, and deduction to the
/// fixpoint changes neither the grid nor the trace.
pub proof fn lemma_fixpoint_idempotent(g: Grid, trace: Seq<StepView>, budget: nat, n: int, b: int)
    requires
        dims(n, b),
        shaped(g, n),
    ensures
        develop(propagate(g, trace, budget, n, b).0, n, b) is None,
        propagate(
            propagate(g, trace, budget, n, b).0,
            propagate(g, trace, budget, n, b).1,
            budget,
            n,
            b,
        ) == propagate(g, trace, budget, n, b),
{
    lemma_propagate(g, trace, budget, n, b);
}

/// Deduction to the fixpoint only adds to the trace.
pub proof fn lemma_propagate_trace(g: Grid, trace: Seq<StepView>, budget: nat, n: int, b: int)
    ensures
        trace.is_prefix_of(propagate(g, trace, budget, n, b).1),
    decreases empty_count(g, n),
{
    if dims(n, b) && shaped(g, n) && develop(g, n, b) is Some {
        lemma_develop(g, n, b);
        let d = develop(g, n, b).unwrap();
        lemma_propagate_trace(placed(g, d.place), recorded(trace, budget, d.step), budget, n, b);
    }
}

/// The grid that deduction to the fixpoint reaches does not depend on the trace.
pub proof fn lemma_propagate_grid(
    g: Grid,
    trace1: Seq<StepView>,
    budget1: nat,
    trace2: Seq<StepView>,
    budget2: nat,
    n: int,
    b: int,
)
    ensures
        propagate(g, trace1, budget1, n, b).0 == propagate(g, trace2, budget2, n, b).0,
    decreases empty_count(g, n),
{
    if dims(n, b) && shaped(g, n) && develop(g, n, b) is Some {
        lemma_develop(g, n, b);
        let d = develop(g, n, b).unwrap();
        lemma_propagate_grid(
            placed(g, d.place),
            recorded(trace1, budget1, d.step),
            budget1,
            recorded(trace2, budget2, d.step),
            budget2,
            n,
            b,
        );
    }
}

// ---------------------------------------------------------------------------
// The cell to branch on
// ---------------------------------------------------------------------------
/// How many candidates cell `(r, c)` has.
pub open spec fn width(g: Grid, n: int, b: int, r: int, c: int) -> nat {
    candidates(g, n, b, r, c).len()
}

/// Some empty cell has no candidate.
pub open spec fn dead_end(g: Grid, n: int, b: int) -> bool {
    exists|r: int, c: int|
        0 <= r < n && 0 <= c < n && g[r][c] is None && #[trigger] width(g, n, b, r, c) == 0
}

/// `(r, c)` is an empty cell, and no empty cell has fewer candidates.
pub open spec fn is_narrowest(g: Grid, n: int, b: int, r: int, c: int) -> bool {
    &&& 0 <= r < n && 0 <= c < n && g[r][c] is None
    &&& forall|r2: int, c2: int|
        0 <= r2 < n && 0 <= c2 < n && g[r2][c2] is None ==> #[trigger] width(g, n, b, r2, c2)
            >= width(g, n, b, r, c)
}

/// `(r, c)` is the last of the empty cells with the fewest candidates, when
/// the grid is read row by row.
pub open spec fn is_branch_cell(g: Grid, n: int, b: int, r: int, c: int) -> bool {
    &&& is_narrowest(g, n, b, r, c)
    &&& forall|r2: int, c2: int|
        0 <= r2 < n && 0 <= c2 < n && g[r2][c2] is None && #[trigger] width(g, n, b, r2, c2)
            == width(g, n, b, r, c) ==> !before(r, c, r2, c2)
}

/// The cell to branch on: none where some empty cell has no candidate, and
/// none in a full grid; else the last of the empty cells with the fewest
/// candidates.
pub open spec fn branch_cell(g: Grid, n: int, b: int) -> Option<(int, int)> {
    if dead_end(g, n, b) || !exists|r: int, c: int| is_branch_cell(g, n, b, r, c) {
        None
    } else {
        Some(choose|r: int, c: int| is_branch_cell(g, n, b, r, c))
    }
}

/// Without a dead end, the last of the narrowest empty cells is the cell
/// that `branch_cell` gives.
pub proof fn lemma_branch_cell_is(g: Grid, n: int, b: int, r: int, c: int)
    requires
        !dead_end(g, n, b),
        is_branch_cell(g, n, b, r, c),
    ensures
        branch_cell(g, n, b) == Some((r, c)),
{
}

/// A grid with a dead end, and a full grid, have no cell to branch on.
pub proof fn lemma_branch_cell_none(g: Grid, n: int, b: int)
    requires
        dead_end(g, n, b) || full(g, n),
    ensures
        branch_cell(g, n, b) is None,
{
}

// ---------------------------------------------------------------------------
// The search
// ---------------------------------------------------------------------------
/// The grids that branching on `(r, c)` gives, one for each digit, in order.
pub open spec fn children(g: Grid, r: int, c: int, digits: Seq<u8>) -> Seq<Grid> {
    Seq::new(digits.len(), |i: int| with_cell(g, r, c, Some(digits[i])))
}

/// What the trace says when the search tries `d` in `(r, c)`.
pub open spec fn tried_step(d: u8, r: int, c: int, text: Seq<char>) -> StepView {
    StepView {
        message: Message::Tried(d, r as usize, c as usize),
        highlight_row: Some(r as u8),
        highlight_col: Some(c as u8),
        highlight_block: None,
        literal: text,
    }
}

/// The steps that announce the children of a branch, in order.
pub open spec fn tried_steps(g: Grid, n: int, r: int, c: int, digits: Seq<u8>) -> Seq<StepView> {
    Seq::new(
        digits.len(),
        |i: int| tried_step(digits[i], r, c, literal_text(with_cell(g, r, c, Some(digits[i])), n)),
    )
}

/// What the trace says when the search ends without a solution.
pub open spec fn gave_up_step(text: Seq<char>) -> StepView {
    StepView {
        message: Message::GaveUp,
        highlight_row: None,
        highlight_col: None,
        highlight_block: None,
        literal: text,
    }
}

/// The weight of a grid with `e` empty cells: more than the weight of `n`
/// grids with one empty cell fewer.
pub open spec fn weight(e: nat, n: int) -> nat
    decreases e,
{
    if e == 0 {
        1
    } else {
        ((n + 1) * weight((e - 1) as nat, n)) as nat
    }
}

/// The weight of a stack, which every round of the search makes smaller.
pub open spec fn stack_weight(stack: Seq<Grid>, n: int) -> nat
    decreases stack.len(),
{
    if stack.len() == 0 {
        0
    } else {
        stack_weight(stack.drop_last(), n) + weight(empty_count(stack.last(), n), n)
    }
}

/// Every grid of the stack has `n` rows of `n` cells.
pub open spec fn all_shaped(stack: Seq<Grid>, n: int) -> bool {
    forall|i: int| 0 <= i < stack.len() ==> shaped(#[trigger] stack[i], n)
}

/// A weight is at least 1.
pub proof fn lemma_weight_positive(e: nat, n: int)
    requires
        0 <= n,
    ensures
        weight(e, n) >= 1,
    decreases e,
{
    if e > 0 {
        lemma_weight_positive((e - 1) as nat, n);
        let w = weight((e - 1) as nat, n) as int;
        assert((n + 1) * w >= 1) by (nonlinear_arith)
            requires
                n >= 0,
                w >= 1,
        ;
    }
}

/// More empty cells weigh no less.
pub proof fn lemma_weight_monotone(e1: nat, e2: nat, n: int)
    requires
        0 <= n,
        e1 <= e2,
    ensures
        weight(e1, n) <= weight(e2, n),
    decreases e2,
{
    if e1 < e2 {
        lemma_weight_monotone(e1, (e2 - 1) as nat, n);
        lemma_weight_positive((e2 - 1) as nat, n);
        let w = weight((e2 - 1) as nat, n) as int;
        assert((n + 1) * w >= w) by (nonlinear_arith)
            requires
                n >= 0,
                w >= 1,
        ;
    }
}

/// A stack of `k` grids with `e` empty cells each weighs `k` times the
/// weight of one, on top of what lies below.
pub proof fn lemma_stack_weight_children(rest: Seq<Grid>, kids: Seq<Grid>, e: nat, n: int)
    requires
        forall|i: int| 0 <= i < kids.len() ==> empty_count(#[trigger] kids[i], n) == e,
    ensures
        stack_weight(rest + kids, n) == stack_weight(rest, n) + kids.len() * weight(e, n),
    decreases kids.len(),
{
    if !(kids.len() == 0) {
        let all = rest + kids;
        assert(all.drop_last() =~= rest + kids.drop_last());
        lemma_stack_weight_children(rest, kids.drop_last(), e, n);
        let w = weight(e, n) as int;
        let k = kids.len() as int;
        assert((k - 1) * w + w == k * w) by (nonlinear_arith);
    }
}

/// The children of a branch weigh less than the grid they come from.
pub proof fn lemma_branch_lighter(
    rest: Seq<Grid>,
    top: Grid,
    g: Grid,
    r: int,
    c: int,
    digits: Seq<u8>,
    n: int,
)
    requires
        0 <= n,
        shaped(g, n),
        0 <= r < n,
        0 <= c < n,
        g[r][c] is None,
        digits.len() <= n,
        empty_count(g, n) <= empty_count(top, n),
    ensures
        stack_weight(rest + children(g, r, c, digits), n) < stack_weight(rest, n) + weight(
            empty_count(top, n),
            n,
        ),
{
    let kids = children(g, r, c, digits);
    let e = empty_count(g, n);
    assert forall|i: int| 0 <= i < kids.len() implies empty_count(#[trigger] kids[i], n) == e
        - 1 by {
        lemma_fill_empty_count(g, n, r, c, digits[i]);
    }
    if kids.len() == 0 {
        lemma_weight_positive(empty_count(top, n), n);
    } else {
        lemma_stack_weight_children(rest, kids, (e - 1) as nat, n);
        lemma_weight_positive((e - 1) as nat, n);
        lemma_weight_monotone(e, empty_count(top, n), n);
        let w = weight((e - 1) as nat, n) as int;
        let k = kids.len() as int;
        assert(k * w < (n + 1) * w) by (nonlinear_arith)
            requires
                0 <= k <= n,
                w >= 1,
        ;
    }
}

/// The outcome of the search from a stack of grids, with the steps that wait
/// to be announced, the trace so far and the budget: the solution, if one is
/// found, and the trace at the end. `origin` is the literal of the board the
/// search began with.
#[verifier::opaque]
pub open spec fn search(
    stack: Seq<Grid>,
    pending: Seq<StepView>,
    trace: Seq<StepView>,
    budget: nat,
    origin: Seq<char>,
    n: int,
    b: int,
) -> (Option<Grid>, Seq<StepView>)
    decreases stack_weight(stack, n),
{
    if stack.len() == 0 {
        (None, recorded(trace, budget, gave_up_step(origin)))
    } else if !dims(n, b) || !all_shaped(stack, n) {
        (None, trace)
    } else {
        let top = stack.last();
        let rest = stack.drop_last();
        let announce = trace.len() < budget && pending.len() > 0;
        let pending1 = if announce {
            pending.drop_last()
        } else {
            pending
        };
        let trace1 = if announce {
            trace.push(pending.last())
        } else {
            trace
        };
        let (g, trace2) = propagate(top, trace1, budget, n, b);
        if full(g, n) {
            (Some(g), trace2)
        } else {
            match branch_cell(g, n, b) {
                None => {
                    proof {
                        lemma_weight_positive(empty_count(top, n), n);
                    }
                    search(rest, pending1, trace2, budget, origin, n, b)
                },
                Some((r, c)) => {
                    let digits = ascending(candidates(g, n, b, r, c), n);
                    let pending2 = if trace2.len() < budget {
                        pending1 + tried_steps(g, n, r, c, digits)
                    } else {
                        pending1
                    };
                    proof {
                        lemma_propagate(top, trace1, budget, n, b);
                        lemma_ascending(candidates(g, n, b, r, c), n);
                        lemma_branch_lighter(rest, top, g, r, c, digits, n);
                    }
                    search(rest + children(g, r, c, digits), pending2, trace2, budget, origin, n, b)
                },
            }
        }
    }
}

/// The first part of a round of the search: the step that announces the
/// top grid leaves the pending steps for the trace, while the budget lasts.
pub open spec fn announced(pending: Seq<StepView>, trace: Seq<StepView>, budget: nat) -> (
    Seq<StepView>,
    Seq<StepView>,
) {
    if trace.len() < budget && pending.len() > 0 {
        (pending.drop_last(), trace.push(pending.last()))
    } else {
        (pending, trace)
    }
}

/// The search on an empty stack gives up.
pub proof fn lemma_search_empty(
    pending: Seq<StepView>,
    trace: Seq<StepView>,
    budget: nat,
    origin: Seq<char>,
    n: int,
    b: int,
)
    ensures
        search(Seq::<Grid>::empty(), pending, trace, budget, origin, n, b) == (
            None::<Grid>,
            recorded(trace, budget, gave_up_step(origin)),
        ),
{
    reveal(search);
}

/// One round of the search: the top grid is announced and deduced on; a
/// full grid is the solution, a grid without a cell to branch on is dropped,
/// and any other is replaced by its children.
pub proof fn lemma_search_round(
    stack: Seq<Grid>,
    pending: Seq<StepView>,
    trace: Seq<StepView>,
    budget: nat,
    origin: Seq<char>,
    n: int,
    b: int,
)
    requires
        dims(n, b),
        stack.len() > 0,
        all_shaped(stack, n),
    ensures
        ({
            let top = stack.last();
            let rest = stack.drop_last();
            let (pending1, trace1) = announced(pending, trace, budget);
            let (g, trace2) = propagate(top, trace1, budget, n, b);
            search(stack, pending, trace, budget, origin, n, b) == if full(g, n) {
                (Some(g), trace2)
            } else {
                match branch_cell(g, n, b) {
                    None => search(rest, pending1, trace2, budget, origin, n, b),
                    Some((r, c)) => search(
                        rest + children(g, r, c, ascending(candidates(g, n, b, r, c), n)),
                        if trace2.len() < budget {
                            pending1 + tried_steps(
                                g,
                                n,
                                r,
                                c,
                                ascending(candidates(g, n, b, r, c), n),
                            )
                        } else {
                            pending1
                        },
                        trace2,
                        budget,
                        origin,
                        n,
                        b,
                    ),
                }
            }
        }),
{
    reveal(search);
}

/// The grid on top of the stack once it is deduced on, and the trace then.
pub open spec fn deduced_top(
    stack: Seq<Grid>,
    pending: Seq<StepView>,
    trace: Seq<StepView>,
    budget: nat,
    n: int,
    b: int,
) -> (Grid, Seq<StepView>) {
    propagate(stack.last(), announced(pending, trace, budget).1, budget, n, b)
}

/// A round that reaches a full grid ends the search with that grid.
pub proof fn lemma_round_full(
    stack: Seq<Grid>,
    pending: Seq<StepView>,
    trace: Seq<StepView>,
    budget: nat,
    origin: Seq<char>,
    n: int,
    b: int,
)
    requires
        dims(n, b),
        stack.len() > 0,
        all_shaped(stack, n),
        full(deduced_top(stack, pending, trace, budget, n, b).0, n),
    ensures
        search(stack, pending, trace, budget, origin, n, b) == (
            Some(deduced_top(stack, pending, trace, budget, n, b).0),
            deduced_top(stack, pending, trace, budget, n, b).1,
        ),
{
    lemma_search_round(stack, pending, trace, budget, origin, n, b);
}

/// A round that finds no cell to branch on drops the top grid, and the
/// stack weighs less.
pub proof fn lemma_round_drop(
    stack: Seq<Grid>,
    pending: Seq<StepView>,
    trace: Seq<StepView>,
    budget: nat,
    origin: Seq<char>,
    n: int,
    b: int,
)
    requires
        dims(n, b),
        stack.len() > 0,
        all_shaped(stack, n),
        !full(deduced_top(stack, pending, trace, budget, n, b).0, n),
        branch_cell(deduced_top(stack, pending, trace, budget, n, b).0, n, b) is None,
    ensures
        search(stack, pending, trace, budget, origin, n, b) == search(
            stack.drop_last(),
            announced(pending, trace, budget).0,
            deduced_top(stack, pending, trace, budget, n, b).1,
            budget,
            origin,
            n,
            b,
        ),
        stack_weight(stack.drop_last(), n) < stack_weight(stack, n),
{
    lemma_search_round(stack, pending, trace, budget, origin, n, b);
    lemma_weight_positive(empty_count(stack.last(), n), n);
}

/// A round that branches on `(r, c)` replaces the top grid by its children,
/// announces them if the budget is not used up, and the stack weighs less.
pub proof fn lemma_round_branch(
    stack: Seq<Grid>,
    pending: Seq<StepView>,
    trace: Seq<StepView>,
    budget: nat,
    origin: Seq<char>,
    n: int,
    b: int,
    r: int,
    c: int,
)
    requires
        dims(n, b),
        stack.len() > 0,
        all_shaped(stack, n),
        !full(deduced_top(stack, pending, trace, budget, n, b).0, n),
        branch_cell(deduced_top(stack, pending, trace, budget, n, b).0, n, b) == Some((r, c)),
    ensures
        ({
            let (g, trace2) = deduced_top(stack, pending, trace, budget, n, b);
            let digits = ascending(candidates(g, n, b, r, c), n);
            let next = stack.drop_last() + children(g, r, c, digits);
            &&& 0 <= r < n && 0 <= c < n && g[r][c] is None
            &&& stack_weight(next, n) < stack_weight(stack, n)
            &&& search(stack, pending, trace, budget, origin, n, b) == search(
                next,
                if trace2.len() < budget {
                    announced(pending, trace, budget).0 + tried_steps(g, n, r, c, digits)
                } else {
                    announced(pending, trace, budget).0
                },
                trace2,
                budget,
                origin,
                n,
                b,
            )
        }),
{
    lemma_search_round(stack, pending, trace, budget, origin, n, b);
    let top = stack.last();
    let g = deduced_top(stack, pending, trace, budget, n, b).0;
    assert(is_branch_cell(g, n, b, r, c));
    lemma_propagate(top, announced(pending, trace, budget).1, budget, n, b);
    let digits = ascending(candidates(g, n, b, r, c), n);
    lemma_ascending(candidates(g, n, b, r, c), n);
    lemma_branch_lighter(stack.drop_last(), top, g, r, c, digits, n);
}

/// The solution that the search finds depends neither on the budget nor on
/// the steps recorded or pending: recording changes nothing of the search.
pub proof fn lemma_search_any_budget(
    stack: Seq<Grid>,
    pending1: Seq<StepView>,
    trace1: Seq<StepView>,
    budget1: nat,
    origin1: Seq<char>,
    pending2: Seq<StepView>,
    trace2: Seq<StepView>,
    budget2: nat,
    origin2: Seq<char>,
    n: int,
    b: int,
)
    ensures
        search(stack, pending1, trace1, budget1, origin1, n, b).0 == search(
            stack,
            pending2,
            trace2,
            budget2,
            origin2,
            n,
            b,
        ).0,
    decreases stack_weight(stack, n),
{
    reveal(search);
    if stack.len() > 0 && dims(n, b) && all_shaped(stack, n) {
        let top = stack.last();
        let rest = stack.drop_last();
        let (waiting1, said1) = announced(pending1, trace1, budget1);
        let (waiting2, said2) = announced(pending2, trace2, budget2);
        lemma_propagate_grid(top, said1, budget1, said2, budget2, n, b);
        let (g, told1) = propagate(top, said1, budget1, n, b);
        let told2 = propagate(top, said2, budget2, n, b).1;
        if !full(g, n) {
            match branch_cell(g, n, b) {
                None => {
                    lemma_round_drop(stack, pending1, trace1, budget1, origin1, n, b);
                    lemma_search_any_budget(
                        rest,
                        waiting1,
                        told1,
                        budget1,
                        origin1,
                        waiting2,
                        told2,
                        budget2,
                        origin2,
                        n,
                        b,
                    );
                },
                Some((r, c)) => {
                    lemma_round_branch(stack, pending1, trace1, budget1, origin1, n, b, r, c);
                    let digits = ascending(candidates(g, n, b, r, c), n);
                    let next = rest + children(g, r, c, digits);
                    let queued1 = if told1.len() < budget1 {
                        waiting1 + tried_steps(g, n, r, c, digits)
                    } else {
                        waiting1
                    };
                    let queued2 = if told2.len() < budget2 {
                        waiting2 + tried_steps(g, n, r, c, digits)
                    } else {
                        waiting2
                    };
                    lemma_search_any_budget(
                        next,
                        queued1,
                        told1,
                        budget1,
                        origin1,
                        queued2,
                        told2,
                        budget2,
                        origin2,
                        n,
                        b,
                    );
                },
            }
        }
    }
}

/// What holds of every grid on the stack while a search from `base` runs:
/// it has the shape and the range of a grid and extends `base`.
pub open spec fn stack_ok(stack: Seq<Grid>, base: Grid, n: int) -> bool {
    forall|i: int|
        0 <= i < stack.len() ==> shaped(#[trigger] stack[i], n) && in_range(stack[i], n) && extends(
            stack[i],
            base,
            n,
        )
}

/// Every grid of the stack is legal.
pub open spec fn stack_legal(stack: Seq<Grid>, n: int, b: int) -> bool {
    forall|i: int| 0 <= i < stack.len() ==> legal(#[trigger] stack[i], n, b)
}

/// The children of a branch on an empty cell with its candidates keep what
/// holds of the grid they come from.
pub proof fn lemma_children_ok(g: Grid, base: Grid, r: int, c: int, n: int, b: int)
    requires
        dims(n, b),
        shaped(g, n),
        in_range(g, n),
        extends(g, base, n),
        0 <= r < n,
        0 <= c < n,
        g[r][c] is None,
    ensures
        stack_ok(children(g, r, c, ascending(candidates(g, n, b, r, c), n)), base, n),
        legal(g, n, b) ==> stack_legal(
            children(g, r, c, ascending(candidates(g, n, b, r, c), n)),
            n,
            b,
        ),
{
    let digits = ascending(candidates(g, n, b, r, c), n);
    let kids = children(g, r, c, digits);
    lemma_ascending(candidates(g, n, b, r, c), n);
    assert forall|i: int| 0 <= i < kids.len() implies shaped(#[trigger] kids[i], n) && in_range(
        kids[i],
        n,
    ) && extends(kids[i], base, n) && (legal(g, n, b) ==> legal(kids[i], n, b)) by {
        let d = digits[i];
        assert(candidates(g, n, b, r, c).contains(d as int));
        lemma_place_candidate(g, n, b, r, c, d);
        lemma_fill_empty_count(g, n, r, c, d);
        let h = kids[i];
        assert forall|r2: int, c2: int|
            0 <= r2 < n && 0 <= c2 < n && (#[trigger] base[r2][c2]) is Some implies h[r2][c2]
            == base[r2][c2] by {
            assert(g[r2][c2] == base[r2][c2]);
            assert(g[r2][c2] is Some);
            assert(h[r2][c2] == g[r2][c2]);
        }
    }
}

/// A grid that the search returns is full, has the shape and the range of a
/// grid, and extends `base` if every grid of the stack does; it is legal if
/// every grid of the stack is.
pub proof fn lemma_search_sound(
    stack: Seq<Grid>,
    pending: Seq<StepView>,
    trace: Seq<StepView>,
    budget: nat,
    origin: Seq<char>,
    n: int,
    b: int,
    base: Grid,
)
    requires
        dims(n, b),
        stack_ok(stack, base, n),
    ensures
        search(stack, pending, trace, budget, origin, n, b).0 matches Some(s) ==> shaped(s, n)
            && in_range(s, n) && full(s, n) && extends(s, base, n) && (stack_legal(stack, n, b)
            ==> legal(s, n, b)),
    decreases stack_weight(stack, n),
{
    reveal(search);
    if stack.len() > 0 {
        let top = stack.last();
        let rest = stack.drop_last();
        let announce = trace.len() < budget && pending.len() > 0;
        let pending1 = if announce {
            pending.drop_last()
        } else {
            pending
        };
        let trace1 = if announce {
            trace.push(pending.last())
        } else {
            trace
        };
        let (g, trace2) = propagate(top, trace1, budget, n, b);
        lemma_propagate(top, trace1, budget, n, b);
        if !full(g, n) {
            match branch_cell(g, n, b) {
                None => {
                    lemma_weight_positive(empty_count(top, n), n);
                    lemma_search_sound(rest, pending1, trace2, budget, origin, n, b, base);
                },
                Some((r, c)) => {
                    let digits = ascending(candidates(g, n, b, r, c), n);
                    let pending2 = if trace2.len() < budget {
                        pending1 + tried_steps(g, n, r, c, digits)
                    } else {
                        pending1
                    };
                    lemma_ascending(candidates(g, n, b, r, c), n);
                    lemma_branch_lighter(rest, top, g, r, c, digits, n);
                    let kids = children(g, r, c, digits);
                    let next = rest + kids;
                    lemma_search_sound(next, pending2, trace2, budget, origin, n, b, base);
                },
            }
        }
    }
}

// ---------------------------------------------------------------------------
// The search finds a solution where there is one
// ---------------------------------------------------------------------------
/// Deduction to the fixpoint keeps every solution of a grid.
pub proof fn lemma_propagate_keeps(
    g: Grid,
    trace: Seq<StepView>,
    budget: nat,
    s: Grid,
    n: int,
    b: int,
)
    requires
        dims(n, b),
        shaped(g, n),
        solution_of(s, g, n, b),
    ensures
        solution_of(s, propagate(g, trace, budget, n, b).0, n, b),
    decreases empty_count(g, n),
{
    if develop(g, n, b) is Some {
        lemma_develop(g, n, b);
        lemma_develop_keeps(g, s, n, b);
        let d = develop(g, n, b).unwrap();
        lemma_propagate_keeps(placed(g, d.place), recorded(trace, budget, d.step), budget, s, n, b);
    }
}

/// A grid with an empty cell that has no candidate has no solution.
pub proof fn lemma_dead_end_unsolvable(g: Grid, s: Grid, n: int, b: int)
    requires
        dims(n, b),
        dead_end(g, n, b),
    ensures
        !solution_of(s, g, n, b),
{
    if solution_of(s, g, n, b) {
        let (r, c) = choose|r: int, c: int|
            0 <= r < n && 0 <= c < n && g[r][c] is None && #[trigger] width(g, n, b, r, c) == 0;
        let set = candidates(g, n, b, r, c);
        assert(set.contains(digit_at(s, r, c)));
        vstd::set_lib::lemma_int_range(1, n + 1);
        let every = vstd::set_lib::set_int_range(1, n + 1);
        vstd::set_lib::lemma_len_subset(set, every);
    }
}

/// `(r, c)` is what the scan for the cell to branch on holds when it
/// stands at `(r0, c0)`: the last of the narrowest empty cells passed.
pub open spec fn scan_holds(g: Grid, n: int, b: int, r0: int, c0: int, r: int, c: int) -> bool {
    &&& 0 <= r < n && 0 <= c < n && before(r, c, r0, c0) && g[r][c] is None
    &&& forall|r2: int, c2: int|
        0 <= r2 < n && 0 <= c2 < n && before(r2, c2, r0, c0) && g[r2][c2] is None ==> {
            ||| #[trigger] width(g, n, b, r2, c2) > width(g, n, b, r, c)
            ||| (width(g, n, b, r2, c2) == width(g, n, b, r, c) && !before(r, c, r2, c2))
        }
}

/// The scan holds a cell as soon as it has passed an empty one.
pub proof fn lemma_scan_tracks(g: Grid, n: int, b: int, r0: int, c0: int)
    requires
        0 <= r0 <= n,
        0 <= c0 <= n,
    ensures
        (exists|r: int, c: int|
            0 <= r < n && 0 <= c < n && before(r, c, r0, c0) && (#[trigger] g[r][c]) is None)
            ==> exists|r: int, c: int| scan_holds(g, n, b, r0, c0, r, c),
    decreases r0, c0,
{
    if c0 > 0 {
        lemma_scan_tracks(g, n, b, r0, c0 - 1);
        let x = c0 - 1;
        if exists|r: int, c: int|
            0 <= r < n && 0 <= c < n && before(r, c, r0, c0) && (#[trigger] g[r][c]) is None {
            if r0 < n && g[r0][x] is None {
                if exists|r: int, c: int| scan_holds(g, n, b, r0, x, r, c) {
                    let (r, c) = choose|r: int, c: int| scan_holds(g, n, b, r0, x, r, c);
                    if width(g, n, b, r0, x) <= width(g, n, b, r, c) {
                        assert(scan_holds(g, n, b, r0, c0, r0, x));
                    } else {
                        assert(scan_holds(g, n, b, r0, c0, r, c));
                    }
                }
            } else {
                let (r, c) = choose|r: int, c: int| scan_holds(g, n, b, r0, x, r, c);
                assert(scan_holds(g, n, b, r0, c0, r, c));
            }
        }
    } else if r0 > 0 {
        let up = r0 - 1;
        lemma_scan_tracks(g, n, b, up, n);
        if exists|r: int, c: int|
            0 <= r < n && 0 <= c < n && before(r, c, r0, c0) && (#[trigger] g[r][c]) is None {
            let (r, c) = choose|r: int, c: int| scan_holds(g, n, b, up, n, r, c);
            assert(scan_holds(g, n, b, r0, c0, r, c));
        }
    }
}

/// A grid that is not full and has no empty cell without candidates has a
/// cell to branch on.
pub proof fn lemma_branch_cell_exists(g: Grid, n: int, b: int)
    requires
        0 <= n,
        !full(g, n),
        !dead_end(g, n, b),
    ensures
        branch_cell(g, n, b) is Some,
{
    lemma_scan_tracks(g, n, b, n, 0);
    let (r, c) = choose|r: int, c: int| scan_holds(g, n, b, n, 0, r, c);
    assert(is_branch_cell(g, n, b, r, c)) by {
    }
}

/// A solution of a grid is a solution of one of the children of a branch on
/// an empty cell.
pub proof fn lemma_child_keeps(g: Grid, s: Grid, n: int, b: int, r: int, c: int)
    requires
        dims(n, b),
        shaped(g, n),
        solution_of(s, g, n, b),
        0 <= r < n,
        0 <= c < n,
        g[r][c] is None,
    ensures
        exists|i: int|
            0 <= i < children(g, r, c, ascending(candidates(g, n, b, r, c), n)).len()
                && solution_of(
                s,
                #[trigger] children(g, r, c, ascending(candidates(g, n, b, r, c), n))[i],
                n,
                b,
            ),
{
    let digits = ascending(candidates(g, n, b, r, c), n);
    let kids = children(g, r, c, digits);
    lemma_ascending(candidates(g, n, b, r, c), n);
    let d = digit_at(s, r, c);
    assert(candidates(g, n, b, r, c).contains(d));
    let i = choose|i: int| 0 <= i < digits.len() && #[trigger] digits[i] == d;
    assert(kids[i] == with_cell(g, r, c, s[r][c]));
}

/// The search finds a solution if a grid of the stack has one.
pub proof fn lemma_search_finds(
    stack: Seq<Grid>,
    pending: Seq<StepView>,
    trace: Seq<StepView>,
    budget: nat,
    origin: Seq<char>,
    n: int,
    b: int,
    s: Grid,
    i: int,
)
    requires
        dims(n, b),
        all_shaped(stack, n),
        0 <= i < stack.len(),
        solution_of(s, stack[i], n, b),
    ensures
        search(stack, pending, trace, budget, origin, n, b).0 is Some,
    decreases stack_weight(stack, n),
{
    let top = stack.last();
    let rest = stack.drop_last();
    let (pending1, trace1) = announced(pending, trace, budget);
    let (g, trace2) = deduced_top(stack, pending, trace, budget, n, b);
    lemma_propagate(top, trace1, budget, n, b);
    if full(g, n) {
        lemma_round_full(stack, pending, trace, budget, origin, n, b);
    } else {
        if i == stack.len() - 1 {
            lemma_propagate_keeps(top, trace1, budget, s, n, b);
            if dead_end(g, n, b) {
                lemma_dead_end_unsolvable(g, s, n, b);
            } else {
                lemma_branch_cell_exists(g, n, b);
            }
        }
        match branch_cell(g, n, b) {
            None => {
                lemma_round_drop(stack, pending, trace, budget, origin, n, b);
                lemma_search_finds(rest, pending1, trace2, budget, origin, n, b, s, i);
            },
            Some((r, c)) => {
                lemma_round_branch(stack, pending, trace, budget, origin, n, b, r, c);
                let digits = ascending(candidates(g, n, b, r, c), n);
                let kids = children(g, r, c, digits);
                let next = rest + kids;
                let pending2 = if trace2.len() < budget {
                    pending1 + tried_steps(g, n, r, c, digits)
                } else {
                    pending1
                };
                if i == stack.len() - 1 {
                    lemma_child_keeps(g, s, n, b, r, c);
                    let j = choose|j: int|
                        0 <= j < kids.len() && solution_of(s, #[trigger] kids[j], n, b);
                    lemma_search_finds(
                        next,
                        pending2,
                        trace2,
                        budget,
                        origin,
                        n,
                        b,
                        s,
                        rest.len() + j,
                    );
                } else {
                    lemma_search_finds(next, pending2, trace2, budget, origin, n, b, s, i);
                }
            },
        }
    }
}

} // verus!
