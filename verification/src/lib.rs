//! Sudoku boards of size N = B x B, with a solver that combines logical
//! deduction with backtracking search and can narrate the steps it took.

pub mod chance;
pub mod clock;
pub mod deduction;
pub mod grid;
pub mod json_value;
pub mod literal;
pub mod number_options;
pub mod search;
pub mod solve_report;
pub mod sudoku_board;
pub mod sudoku_solver;

use crate::clock::{clock_start, elapsed_micros};
use crate::grid::{dims, solution_of, solved, Grid};
use crate::json_value::{
    json_array, json_dump, json_holds, json_null, json_number, json_string, json_text, models_of,
    JsonModel,
};
use crate::literal::{decimal, literal_text, parsed_grid, push_number};
use crate::solve_report::{
    entry, lemma_keys_differ, pair_value, put, report_entry, report_object, step_model, tagged,
    text_model, ReportStep, StepView,
};
use crate::sudoku_board::{first_error, BoardError, SudokuBoard};
use crate::sudoku_solver::{solve_outcome, views_of, SudokuSolver};
use json::JsonValue;
use rand::rngs::ThreadRng;
use vstd::prelude::*;
use vstd::string::StringExecFns;

verus! {

/// The product of two numbers.
pub fn add(num1: i32, num2: i32) -> (r: i32)
    requires
        i32::MIN <= num1 * num2 <= i32::MAX,
    ensures
        r == num1 * num2,
{
    num1 * num2
}

/// The block sides that the entry points take.
pub open spec fn block_size_ok(block_size: usize) -> bool {
    block_size == 2 || block_size == 3 || block_size == 4
}

/// The message of the last entry of a report.
pub open spec fn found_text(elapsed: nat) -> Seq<char> {
    "Found solution in "@ + decimal(elapsed) + "μs"@
}

/// The last entry of a report: the time the search took and the solution.
pub open spec fn found_model(solution: Grid, elapsed: nat, n: int) -> JsonModel {
    report_entry(
        JsonModel::Text(found_text(elapsed)),
        JsonModel::Null,
        JsonModel::Null,
        JsonModel::Null,
        literal_text(solution, n),
    )
}

/// The report of a solved board: the recorded steps in order, then the solution.
pub open spec fn solution_model(trace: Seq<StepView>, solution: Grid, elapsed: nat, n: int) -> JsonModel {
    JsonModel::Array(
        trace.map_values(|step: StepView| step_model(step)).push(found_model(solution, elapsed, n)),
    )
}

/// The report of a search: `null` without a solution, else the report of the solution.
pub open spec fn report_model(outcome: (Option<Grid>, Seq<StepView>), elapsed: nat, n: int) -> JsonModel {
    match outcome.0 {
        Some(solution) => solution_model(outcome.1, solution, elapsed, n),
        None => JsonModel::Null,
    }
}

/// The text that `solve` returns for a literal when the search takes
/// `elapsed` microseconds.
pub open spec fn solve_text(text: Seq<char>, budget: nat, elapsed: nat, n: int, b: int) -> Seq<char> {
    json_text(report_model(solve_outcome(parsed_grid(text, n), budget, n, b), elapsed, n))
}

/// The JSON object of an error: the kind of unit under `type`, its index
/// under `value`, which for a block is the pair of its coordinates.
pub open spec fn error_model(error: BoardError) -> JsonModel {
    match error {
        BoardError::RowError(row) => JsonModel::Object(
            seq![entry("type", text_model("row")), entry("value", JsonModel::Number(row as int))],
        ),
        BoardError::ColError(col) => JsonModel::Object(
            seq![entry("type", text_model("col")), entry("value", JsonModel::Number(col as int))],
        ),
        BoardError::BlockError(row, col) => JsonModel::Object(
            seq![
                entry("type", text_model("block")),
                entry(
                    "value",
                    JsonModel::Array(
                        seq![JsonModel::Number(row as int), JsonModel::Number(col as int)],
                    ),
                ),
            ],
        ),
    }
}

/// What `find_errors` reports of a grid: `null` for a legal one, else its first error.
pub open spec fn errors_model(g: Grid, n: int, b: int) -> JsonModel {
    match first_error(g, n, b) {
        Some(error) => error_model(error),
        None => JsonModel::Null,
    }
}

/// The text that `find_errors` returns for a literal.
pub open spec fn errors_text(text: Seq<char>, n: int, b: int) -> Seq<char> {
    json_text(errors_model(parsed_grid(text, n), n, b))
}

/// The report of a solved board as JSON text: an array with one object for
/// each recorded step, in order, and a last object with the time the search
/// took and the literal of the solution.
pub fn solution_report<const SIZE: usize, const BLOCK_SIZE: usize>(
    steps: &Vec<ReportStep<SIZE, BLOCK_SIZE>>,
    solution: &SudokuBoard<SIZE, BLOCK_SIZE>,
    elapsed: u128,
) -> (r: String)
    ensures
        r@ == json_text(
            solution_model(views_of(steps@), solution.grid(), elapsed as nat, SIZE as int),
        ),
{
    let ghost trace = views_of(steps@);
    let mut items: Vec<JsonValue> = Vec::new();
    let mut i: usize = 0;
    while i < steps.len()
        invariant
            i <= steps.len(),
            trace == views_of(steps@),
            models_of(items@) == trace.take(i as int).map_values(|step: StepView| step_model(step)),
        decreases steps.len() - i,
    {
        let item = steps[i].to_object();
        let ghost before = models_of(items@);
        items.push(item);
        proof {
            assert(trace.take(i as int + 1).map_values(|step: StepView| step_model(step))
                =~= trace.take(i as int).map_values(|step: StepView| step_model(step)).push(
                step_model(trace[i as int]),
            ));
        }
        i = i + 1;
    }
    proof {
        assert(trace.take(steps.len() as int) =~= trace);
        reveal_strlit("Found solution in ");
        reveal_strlit("μs");
    }
    let mut message = String::new();
    message.append("Found solution in ");
    push_number(&mut message, elapsed);
    message.append("μs");
    let last = report_object(
        json_string(message.as_str()),
        json_null(),
        json_null(),
        json_null(),
        solution.to_literal().as_str(),
    );
    let ghost before = models_of(items@);
    items.push(last);
    assert(models_of(items@) =~= before.push(json_holds(last)));
    json_dump(&json_array(items))
}

/// Solves the board of a literal and reports as JSON text: `null` where the
/// board has no solution, else the recorded steps and the solution.
pub fn solve_with_size<const SIZE: usize, const BLOCK_SIZE: usize>(
    board_literal: &str,
    record_steps: usize,
) -> (r: String)
    requires
        dims(SIZE as int, BLOCK_SIZE as int),
    ensures
        exists|elapsed: nat|
            r@ == #[trigger] solve_text(
                board_literal@,
                record_steps as nat,
                elapsed,
                SIZE as int,
                BLOCK_SIZE as int,
            ),
{
    let board = SudokuBoard::<SIZE, BLOCK_SIZE>::from_literal(board_literal);
    let mut solver = SudokuSolver::<SIZE, BLOCK_SIZE>::new(record_steps);
    let start = clock_start();
    let result = solver.solve(&board);
    let elapsed = elapsed_micros(&start);
    let report = match result {
        None => json_dump(&json_null()),
        Some(solution) => solution_report(solver.recorded_steps(), &solution, elapsed),
    };
    assert(report@ == solve_text(
        board_literal@,
        record_steps as nat,
        elapsed as nat,
        SIZE as int,
        BLOCK_SIZE as int,
    ));
    report
}

/// Solves the board of a literal of block side 2, 3 or 4, with at most
/// `record_steps` steps recorded, and reports as JSON text.
pub fn solve(board_literal: &str, block_size: usize, record_steps: usize) -> (r: String)
    requires
        block_size_ok(block_size),
    ensures
        exists|elapsed: nat|
            r@ == #[trigger] solve_text(
                board_literal@,
                record_steps as nat,
                elapsed,
                block_size * block_size,
                block_size as int,
            ),
{
    let report = if block_size == 2 {
        solve_with_size::<4, 2>(board_literal, record_steps)
    } else if block_size == 3 {
        solve_with_size::<9, 3>(board_literal, record_steps)
    } else {
        solve_with_size::<16, 4>(board_literal, record_steps)
    };
    proof {
        let n = block_size * block_size;
        let elapsed = choose|elapsed: nat|
            report@ == #[trigger] solve_text(
                board_literal@,
                record_steps as nat,
                elapsed,
                n,
                block_size as int,
            );
        assert(report@ == solve_text(
            board_literal@,
            record_steps as nat,
            elapsed,
            block_size * block_size,
            block_size as int,
        ));
    }
    report
}

/// A solved board drawn at random among those with `digit` in `(row, col)`;
/// none at all only if no solved board has that digit there.
pub fn random_solution<const SIZE: usize, const BLOCK_SIZE: usize>(
    digit: u8,
    row: usize,
    col: usize,
    rand: &mut ThreadRng,
) -> (r: Option<SudokuBoard<SIZE, BLOCK_SIZE>>)
    requires
        dims(SIZE as int, BLOCK_SIZE as int),
        1 <= digit <= SIZE,
        row < SIZE,
        col < SIZE,
    ensures
        match r {
            Some(board) => {
                &&& board.wf()
                &&& board.consistent()
                &&& solved(board.grid(), SIZE as int, BLOCK_SIZE as int)
                &&& board.grid()[row as int][col as int] == Some(digit)
            },
            None => forall|s: Grid|
                !(#[trigger] solved(s, SIZE as int, BLOCK_SIZE as int) && s[row as int][col as int]
                    == Some(digit)),
        },
{
    let mut board = SudokuBoard::<SIZE, BLOCK_SIZE>::new();
    board.set_number(Some(digit), row, col);
    let ghost seeded = board.grid();
    proof {
        // the only digit on the board stands once in each of its units
    }
    let mut solver = SudokuSolver::<SIZE, BLOCK_SIZE>::new(0);
    let result = solver.solve_random(&board, rand);
    proof {
        if result is Some {
            assert(seeded[row as int][col as int] == Some(digit));
        }
        if result is None {
            assert forall|s: Grid|
                !(#[trigger] solved(s, SIZE as int, BLOCK_SIZE as int) && s[row as int][col as int]
                    == Some(digit)) by {
                if solved(s, SIZE as int, BLOCK_SIZE as int) && s[row as int][col as int] == Some(
                    digit,
                ) {
                    assert(solution_of(s, seeded, SIZE as int, BLOCK_SIZE as int));
                }
            }
        }
    }
    result
}

/// The JSON object of an error.
pub fn error_object(error: BoardError) -> (r: JsonValue)
    ensures
        json_holds(r) == error_model(error),
{
    proof {
        lemma_keys_differ();
    }
    match error {
        BoardError::RowError(row) => {
            let mut object = tagged("type", "row");
            put(&mut object, "value", json_number(row as u64));
            assert(json_holds(object)->Object_0 =~= error_model(error)->Object_0);
            object
        },
        BoardError::ColError(col) => {
            let mut object = tagged("type", "col");
            put(&mut object, "value", json_number(col as u64));
            assert(json_holds(object)->Object_0 =~= error_model(error)->Object_0);
            object
        },
        BoardError::BlockError(row, col) => {
            let mut object = tagged("type", "block");
            put(&mut object, "value", pair_value(row as u64, col as u64));
            assert(json_holds(object)->Object_0 =~= error_model(error)->Object_0);
            object
        },
    }
}

/// Checks the board of a literal and reports as JSON text: `null` where no
/// digit stands twice in a unit, else the unit of the first that does.
pub fn find_errors_with_size<const SIZE: usize, const BLOCK_SIZE: usize>(board_literal: &str) -> (r:
    String)
    requires
        dims(SIZE as int, BLOCK_SIZE as int),
    ensures
        r@ == errors_text(board_literal@, SIZE as int, BLOCK_SIZE as int),
{
    let result = SudokuBoard::<SIZE, BLOCK_SIZE>::from_literal_checked(board_literal);
    let value = match result {
        Ok(_) => json_null(),
        Err(error) => error_object(error),
    };
    json_dump(&value)
}

/// Checks the board of a literal of block side 2, 3 or 4 and reports as JSON text.
pub fn find_errors(board_literal: &str, block_size: usize) -> (r: String)
    requires
        block_size_ok(block_size),
    ensures
        r@ == errors_text(board_literal@, block_size * block_size, block_size as int),
{
    if block_size == 2 {
        find_errors_with_size::<4, 2>(board_literal)
    } else if block_size == 3 {
        find_errors_with_size::<9, 3>(board_literal)
    } else {
        find_errors_with_size::<16, 4>(board_literal)
    }
}

} // verus!
