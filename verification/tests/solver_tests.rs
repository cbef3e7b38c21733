use rand::Rng;
use sudoku::solve_report::Message;
use sudoku::sudoku_board::{DefaultBoard, SudokuBoard};
use sudoku::sudoku_solver::SudokuSolver;

const EASY_LITERALS: [&str; 2] = [
    "
    5 3 _ _ 7 _ _ _ _
    6 _ _ 1 9 5 _ _ _
    _ 9 8 _ _ _ _ 6 _
    8 _ _ _ 6 _ _ _ 3
    4 _ _ 8 _ 3 _ _ 1
    7 _ _ _ 2 _ _ _ 6
    _ 6 _ _ _ _ 2 8 _
    _ _ _ 4 1 9 _ _ 5
    _ _ _ _ 8 _ _ 7 9
    ",
    "
    _ _ 3 _ 2 _ 6 _ _
    9 _ _ 3 _ 5 _ _ 1
    _ _ 1 8 _ 6 4 _ _
    _ _ 8 1 _ 2 9 _ _
    7 _ _ _ _ _ _ _ 8
    _ _ 6 7 _ 8 2 _ _
    _ _ 2 6 _ 9 5 _ _
    8 _ _ 2 _ 3 _ _ 9
    _ _ 5 _ 1 _ 3 _ _
    ",
];

const MEDIUM_LITERALS: [&str; 2] = [
    "
    _ 2 _ 6 _ 8 _ _ _
    5 8 _ _ _ 9 7 _ _
    _ _ _ _ 4 _ _ _ _
    3 7 _ _ _ _ 5 _ _
    6 _ _ _ _ _ _ _ 4
    _ _ 8 _ _ _ _ 1 3
    _ _ _ _ 2 _ _ _ _
    _ _ 9 8 _ _ _ 3 6
    _ _ _ 3 _ 6 _ 9 _
    ",
    "
    _ _ _ 6 _ _ 4 _ _
    7 _ _ _ _ 3 6 _ _
    _ _ _ _ 9 1 _ 8 _
    _ _ _ _ _ _ _ _ _
    _ 5 _ 1 8 _ _ _ 3
    _ _ _ 3 _ 6 _ 4 5
    _ 4 _ 2 _ _ _ 6 _
    9 _ 3 _ _ _ _ _ _
    _ 2 _ _ _ _ 1 _ _
    ",
];

const HARD_LITERALS: [&str; 2] = [
    "
    8 _ _ _ _ _ _ _ _
    _ _ 3 6 _ _ _ _ _
    _ 7 _ _ 9 _ 2 _ _
    _ 5 _ _ _ 7 _ _ _
    _ _ _ _ 4 5 7 _ _
    _ _ _ 1 _ _ _ 3 _
    _ _ 1 _ _ _ _ 6 8
    _ _ 8 5 _ _ _ 1 _
    _ 9 _ _ _ _ 4 _ _
    ",
    "
    4 _ _ _ _ _ 8 _ 5
    _ 3 _ _ _ _ _ _ _
    _ _ _ 7 _ _ _ _ _
    _ 2 _ _ _ _ _ 6 _
    _ _ _ _ 8 _ 4 _ _
    _ _ _ _ 1 _ _ _ _
    _ _ _ 6 _ 3 _ 7 _
    5 _ _ 2 _ _ _ _ _
    1 _ 4 _ _ _ _ _ _
    ",
];

const EASY_SOLVED: &str = "5 3 4 6 7 8 9 1 2 6 7 2 1 9 5 3 4 8 1 9 8 3 4 2 5 6 7 8 5 9 7 6 1 4 2 3 4 2 6 8 5 3 7 9 1 7 1 3 9 2 4 8 5 6 9 6 1 5 3 7 2 8 4 2 8 7 4 1 9 6 3 5 3 4 5 2 8 6 1 7 9 ";

const HARD_SOLVED: &str = "8 1 2 7 5 3 6 4 9 9 4 3 6 8 2 1 7 5 6 7 5 4 9 1 2 8 3 1 5 4 2 3 7 8 9 6 3 6 9 8 4 5 7 2 1 2 8 7 1 6 9 5 3 4 5 2 1 9 7 4 3 6 8 4 3 8 5 2 6 9 1 7 7 9 6 3 1 8 4 5 2 ";

fn assert_solved<const SIZE: usize, const BLOCK_SIZE: usize>(board: &SudokuBoard<SIZE, BLOCK_SIZE>) {
    let mut every: Vec<u8> = Vec::new();
    for digit in 1..=SIZE {
        every.push(digit as u8);
    }
    for unit in 0..SIZE {
        let mut row: Vec<u8> = Vec::new();
        let mut col: Vec<u8> = Vec::new();
        let mut block: Vec<u8> = Vec::new();
        for cell in 0..SIZE {
            row.push(board.get_number(unit, cell).unwrap());
            col.push(board.get_number(cell, unit).unwrap());
            block.push(
                board
                    .get_number(
                        (unit / BLOCK_SIZE) * BLOCK_SIZE + cell / BLOCK_SIZE,
                        (unit % BLOCK_SIZE) * BLOCK_SIZE + cell % BLOCK_SIZE,
                    )
                    .unwrap(),
            );
        }
        row.sort();
        col.sort();
        block.sort();
        assert_eq!(row, every);
        assert_eq!(col, every);
        assert_eq!(block, every);
    }
}

fn assert_extends(solved: &DefaultBoard, board: &DefaultBoard) {
    for row in 0..9_usize {
        for col in 0..9_usize {
            if let Some(digit) = board.get_number(row, col) {
                assert_eq!(solved.get_number(row, col), Some(digit));
            }
        }
    }
}

#[test]
fn sudoku_solver_util() {}

#[test]
fn develop_easy() {
    let mut instance = SudokuSolver::new(0);
    for mut board in EASY_LITERALS.map(DefaultBoard::from_literal) {
        while instance.develop(&mut board) {}
        assert!(board.is_full());
    }
}

#[test]
fn solve_easy() {
    let mut instance = SudokuSolver::new(0);
    for board in EASY_LITERALS.map(DefaultBoard::from_literal) {
        let solved = instance.solve(&board);
        assert!(solved.is_some());
        assert!(solved.unwrap().is_full());
    }
}

#[test]
fn solve_medium() {
    let mut instance = SudokuSolver::new(0);
    for board in MEDIUM_LITERALS.map(DefaultBoard::from_literal) {
        let solved = instance.solve(&board);
        assert!(solved.is_some());
        assert!(solved.unwrap().is_full());
    }
}

#[test]
fn solve_hard() {
    let mut instance = SudokuSolver::new(0);
    for board in HARD_LITERALS.map(DefaultBoard::from_literal) {
        let solved = instance.solve(&board);
        assert!(solved.is_some());
        assert!(solved.unwrap().is_full());
    }
}

#[test]
fn unique_candidates_lines_test() {
    let mut instance = SudokuSolver::new(0);
    let examples: [&str; 1] = [
        "
            _ _ _ _ _ _ _ 9 _
            3 _ _ _ _ _ _ _ _
            _ _ _ _ _ _ _ _ _
            _ _ _ 2 _ _ 9 _ _
            4 _ _ _ 7 _ _ _ _
            _ _ _ _ _ 9 _ _ _
            6 _ _ _ _ _ _ _ _
            7 _ _ _ _ _ _ _ _
            8 1 2 3 4 5 6 7 9
            "
    ];

    for mut example in examples.map(DefaultBoard::from_literal) {
        let possibilities = SudokuSolver::generate_possibilities(&example);
        let result = instance.unique_candidates_lines::<true>(&mut example, &possibilities);
        assert!(result);
    }
}

#[test]
fn test_random_board_with_size() {
    for _ in 0..100 {
        let mut rand = rand::thread_rng();
        let mut board = SudokuBoard::<9, 3>::new();
        board.set_number(Some(1), rand.gen_range(0..9), rand.gen_range(0..9));
        let mut solver = SudokuSolver::new(0);
        let result = solver.solve_random(&board, &mut rand);

        assert!(result.is_some());
    }
}

#[test]
fn solved_boards_hold_each_digit_once_in_every_unit() {
    let mut instance = SudokuSolver::new(0);
    for literal in EASY_LITERALS.iter().chain(MEDIUM_LITERALS.iter()).chain(HARD_LITERALS.iter()) {
        let board = DefaultBoard::from_literal(literal);
        let solved = instance.solve(&board).unwrap();
        assert_solved(&solved);
        assert_extends(&solved, &board);
    }
}

#[test]
fn solve_returns_the_known_solutions() {
    let mut instance = SudokuSolver::new(0);
    let easy = instance.solve(&DefaultBoard::from_literal(EASY_LITERALS[0])).unwrap();
    assert_eq!(easy.to_literal(), EASY_SOLVED);
    assert_eq!(easy, DefaultBoard::from_literal(EASY_SOLVED));
    let hard = instance.solve(&DefaultBoard::from_literal(HARD_LITERALS[0])).unwrap();
    assert_eq!(hard.to_literal(), HARD_SOLVED);
}

#[test]
fn solve_does_not_change_its_input() {
    let board = DefaultBoard::from_literal(MEDIUM_LITERALS[0]);
    let copy = board.clone();
    let mut instance = SudokuSolver::new(3);
    let _ = instance.solve(&board);
    assert_eq!(board, copy);
}

#[test]
fn develop_at_the_fixpoint_changes_nothing() {
    let mut instance = SudokuSolver::new(100);
    for literal in MEDIUM_LITERALS.iter().chain(HARD_LITERALS.iter()) {
        let mut board = DefaultBoard::from_literal(literal);
        while instance.develop(&mut board) {}
        assert!(!board.is_full());
        let fixpoint = board.clone();
        let recorded = instance.steps.len();
        assert!(!instance.develop(&mut board));
        assert!(!instance.develop(&mut board));
        assert_eq!(board, fixpoint);
        assert_eq!(instance.steps.len(), recorded);
    }
    let mut full = DefaultBoard::from_literal(EASY_SOLVED);
    assert!(!instance.develop(&mut full));
    assert_eq!(full, DefaultBoard::from_literal(EASY_SOLVED));
}

#[test]
fn solve_is_deterministic() {
    for literal in MEDIUM_LITERALS.iter().chain(HARD_LITERALS.iter()) {
        let board = DefaultBoard::from_literal(literal);
        let mut first = SudokuSolver::new(50);
        let mut second = SudokuSolver::new(50);
        let one = first.solve(&board);
        let two = second.solve(&board);
        assert_eq!(one, two);
        assert_eq!(first.steps.len(), 50);
        assert_eq!(first.steps, second.steps);
        // a second call on the same solver starts from an empty trace
        let again = first.solve(&board);
        assert_eq!(again, two);
        assert_eq!(first.steps, second.steps);
    }
}

#[test]
fn the_budget_does_not_change_the_solution() {
    let board = DefaultBoard::from_literal(HARD_LITERALS[1]);
    let silent = SudokuSolver::new(0).solve(&board);
    let mut talking = SudokuSolver::new(7);
    let narrated = talking.solve(&board);
    assert_eq!(silent, narrated);
    assert_eq!(talking.steps.len(), 7);
    let mut quiet = SudokuSolver::new(0);
    let _ = quiet.solve(&board);
    assert!(quiet.steps.is_empty());
}

#[test]
fn two_fives_in_a_block_have_no_solution() {
    // the solved grid with a second 5 in the first block, and the cell of
    // the row's own 5 left empty
    let literal = "5 3 4 6 7 8 9 1 2 6 5 2 1 9 _ 3 4 8 1 9 8 3 4 2 5 6 7 8 5 9 7 6 1 4 2 3 4 2 6 8 5 3 7 9 1 7 1 3 9 2 4 8 5 6 9 6 1 5 3 7 2 8 4 2 8 7 4 1 9 6 3 5 3 4 5 2 8 6 1 7 9";
    let board = DefaultBoard::from_literal(literal);
    assert_eq!(board.get_number(0, 0), Some(5));
    assert_eq!(board.get_number(1, 1), Some(5));
    let mut instance = SudokuSolver::new(10);
    assert_eq!(instance.solve(&board), None);
    assert_eq!(instance.steps.len(), 1);
    assert_eq!(instance.steps[0].message, Message::GaveUp);
    assert_eq!(instance.steps[0].highlight_row, None);
    assert_eq!(instance.steps[0].highlight_col, None);
    assert_eq!(instance.steps[0].highlight_block, None);
    assert_eq!(instance.steps[0].literal, board.to_literal());
    let mut silent = SudokuSolver::new(0);
    assert_eq!(silent.solve(&board), None);
    assert!(silent.steps.is_empty());
}

#[test]
fn one_empty_cell_is_filled_by_one_naked_single() {
    let mut board = DefaultBoard::from_literal(EASY_SOLVED);
    board.set_number(None, 4, 4);
    let mut instance = SudokuSolver::new(5);
    let solved = instance.solve(&board).unwrap();
    assert_eq!(solved.get_number(4, 4), Some(5));
    assert_eq!(solved, DefaultBoard::from_literal(EASY_SOLVED));
    assert_eq!(instance.steps.len(), 1);
    assert_eq!(instance.steps[0].message, Message::CanContainOnly(5, 5, 5));
    assert_eq!(instance.steps[0].highlight_row, Some(4));
    assert_eq!(instance.steps[0].highlight_col, Some(4));
    assert_eq!(instance.steps[0].highlight_block, None);
    assert_eq!(instance.steps[0].literal, EASY_SOLVED);
}

#[test]
fn sole_candidates_fills_the_first_naked_single() {
    let mut board = DefaultBoard::from_literal(EASY_LITERALS[0]);
    let mut instance = SudokuSolver::new(2);
    let possibilities = SudokuSolver::generate_possibilities(&board);
    assert!(instance.sole_candidates(&mut board, &possibilities));
    assert_eq!(board.get_number(4, 4), Some(5));
    assert_eq!(instance.steps.len(), 1);
    assert_eq!(instance.steps[0].message, Message::CanContainOnly(5, 5, 5));
    assert_eq!(instance.steps[0].literal, board.to_literal());
    // one placement for each call
    let mut expected = DefaultBoard::from_literal(EASY_LITERALS[0]);
    expected.set_number(Some(5), 4, 4);
    assert_eq!(board, expected);
}

#[test]
fn rules_without_a_deduction_change_nothing() {
    let mut board = DefaultBoard::new();
    let copy = board.clone();
    let mut instance = SudokuSolver::new(5);
    let possibilities = SudokuSolver::generate_possibilities(&board);
    assert!(!instance.sole_candidates(&mut board, &possibilities));
    assert!(!instance.unique_candidates_lines::<false>(&mut board, &possibilities));
    assert!(!instance.unique_candidates_lines::<true>(&mut board, &possibilities));
    assert!(!instance.unique_candidates_blocks(&mut board, &possibilities));
    assert!(!instance.develop(&mut board));
    assert_eq!(board, copy);
    assert!(instance.steps.is_empty());
}

#[test]
fn hidden_single_in_a_column_is_recorded() {
    let literal = "
        _ _ _ _ _ _ _ 9 _
        3 _ _ _ _ _ _ _ _
        _ _ _ _ _ _ _ _ _
        _ _ _ 2 _ _ 9 _ _
        4 _ _ _ 7 _ _ _ _
        _ _ _ _ _ 9 _ _ _
        6 _ _ _ _ _ _ _ _
        7 _ _ _ _ _ _ _ _
        8 1 2 3 4 5 6 7 9
        ";
    let mut board = DefaultBoard::from_literal(literal);
    let mut instance = SudokuSolver::new(3);
    assert!(instance.develop(&mut board));
    assert_eq!(board.get_number(2, 0), Some(9));
    assert_eq!(instance.steps.len(), 1);
    assert_eq!(instance.steps[0].message, Message::NumberOnlyFitsInCol(9, 1));
    assert_eq!(instance.steps[0].highlight_row, None);
    assert_eq!(instance.steps[0].highlight_col, Some(0));
    assert_eq!(instance.steps[0].highlight_block, None);
    assert_eq!(instance.steps[0].literal, board.to_literal());
}

#[test]
fn hidden_singles_in_rows_and_blocks_are_recorded() {
    let board = DefaultBoard::from_literal(MEDIUM_LITERALS[0]);
    let mut instance = SudokuSolver::new(3);
    let _ = instance.solve(&board);
    assert_eq!(instance.steps.len(), 3);
    assert_eq!(instance.steps[0].message, Message::NumberOnlyFitsInRow(9, 7));
    assert_eq!(instance.steps[0].highlight_row, Some(6));
    assert_eq!(instance.steps[0].highlight_col, None);
    assert_eq!(
        instance.steps[0].literal,
        "_ 2 _ 6 _ 8 _ _ _ 5 8 _ _ _ 9 7 _ _ _ _ _ _ 4 _ _ _ _ 3 7 _ _ _ _ 5 _ _ 6 _ _ _ _ _ _ _ 4 _ _ 8 _ _ _ _ 1 3 _ _ _ 9 2 _ _ _ _ _ _ 9 8 _ _ _ 3 6 _ _ _ 3 _ 6 _ 9 _ "
    );
    assert_eq!(instance.steps[1].message, Message::NumberOnlyFitsInBlock(7, 2, 3));
    assert_eq!(instance.steps[1].highlight_row, None);
    assert_eq!(instance.steps[1].highlight_col, None);
    assert_eq!(instance.steps[1].highlight_block, Some([1, 2]));
    // the largest candidate of the last cell with the fewest candidates is tried first
    assert_eq!(instance.steps[2].message, Message::Tried(2, 1, 8));
    assert_eq!(instance.steps[2].highlight_row, Some(1));
    assert_eq!(instance.steps[2].highlight_col, Some(8));
    assert_eq!(instance.steps[2].highlight_block, None);
}

#[test]
fn the_trace_of_a_whole_search() {
    let board = DefaultBoard::from_literal(MEDIUM_LITERALS[0]);
    let mut instance = SudokuSolver::new(1000);
    let solved = instance.solve(&board).unwrap();
    assert_eq!(instance.steps.len(), 107);
    let count = |wanted: fn(&Message) -> bool| instance.steps.iter().filter(|step| wanted(&step.message)).count();
    assert_eq!(count(|m| matches!(m, Message::Tried(..))), 5);
    assert_eq!(count(|m| matches!(m, Message::CanContainOnly(..))), 81);
    assert_eq!(count(|m| matches!(m, Message::NumberOnlyFitsInRow(..))), 14);
    assert_eq!(count(|m| matches!(m, Message::NumberOnlyFitsInCol(..))), 6);
    assert_eq!(count(|m| matches!(m, Message::NumberOnlyFitsInBlock(..))), 1);
    let last = &instance.steps[106];
    assert_eq!(last.message, Message::CanContainOnly(2, 9, 9));
    assert_eq!(last.literal, solved.to_literal());
}

#[test]
fn find_next_to_try_takes_the_last_of_the_narrowest_cells() {
    let board = SudokuBoard::<4, 2>::new();
    assert_eq!(SudokuSolver::find_next_to_try(&board), Some([3, 3]));
    let mut board = SudokuBoard::<4, 2>::new();
    board.set_number(Some(1), 0, 0);
    // three candidates are left in the first row, the first column and the first block
    assert_eq!(SudokuSolver::find_next_to_try(&board), Some([3, 0]));
    board.set_number(Some(2), 1, 1);
    // (0, 1) and (1, 0) have two candidates left
    assert_eq!(SudokuSolver::find_next_to_try(&board), Some([1, 0]));
}

#[test]
fn find_next_to_try_gives_up_on_a_cell_without_candidates() {
    let mut board = SudokuBoard::<4, 2>::new();
    board.set_number(Some(1), 0, 1);
    board.set_number(Some(2), 0, 2);
    board.set_number(Some(3), 0, 3);
    board.set_number(Some(4), 1, 0);
    assert_eq!(board.get_possible(0, 0).count(), 0);
    assert_eq!(SudokuSolver::find_next_to_try(&board), None);
    let mut instance = SudokuSolver::new(0);
    assert_eq!(instance.solve(&board), None);
}

#[test]
fn find_next_to_try_finds_nothing_in_a_full_board() {
    let board = DefaultBoard::from_literal(EASY_SOLVED);
    assert_eq!(SudokuSolver::find_next_to_try(&board), None);
    let mut rand = rand::thread_rng();
    assert_eq!(SudokuSolver::find_random_to_try(&board, &mut rand), None);
}

#[test]
fn find_random_to_try_takes_one_of_the_narrowest_cells() {
    let mut board = SudokuBoard::<4, 2>::new();
    board.set_number(Some(1), 0, 0);
    board.set_number(Some(2), 1, 1);
    let mut rand = rand::thread_rng();
    let mut first = 0;
    let mut second = 0;
    for _ in 0..200 {
        let cell = SudokuSolver::find_random_to_try(&board, &mut rand).unwrap();
        assert!(cell == [0, 1] || cell == [1, 0]);
        if cell == [0, 1] {
            first += 1;
        } else {
            second += 1;
        }
    }
    // the second cell replaces the first on three draws in five
    assert!(first > 0);
    assert!(second > 0);
}

#[test]
fn solve_random_returns_solved_boards() {
    let mut rand = rand::thread_rng();
    for _ in 0..20 {
        let mut board = DefaultBoard::new();
        board.set_number(Some(rand.gen_range(1..=9)), rand.gen_range(0..9), rand.gen_range(0..9));
        let mut solver = SudokuSolver::new(0);
        let solved = solver.solve_random(&board, &mut rand).unwrap();
        assert_solved(&solved);
        assert_extends(&solved, &board);
    }
}

#[test]
fn solve_random_keeps_the_steps_that_were_recorded() {
    let mut rand = rand::thread_rng();
    let mut board = DefaultBoard::from_literal(EASY_SOLVED);
    board.set_number(None, 4, 4);
    let mut solver = SudokuSolver::new(4);
    let _ = solver.solve(&board);
    assert_eq!(solver.steps.len(), 1);
    let solved = solver.solve_random(&board, &mut rand).unwrap();
    assert_eq!(solved, DefaultBoard::from_literal(EASY_SOLVED));
    assert_eq!(solver.steps.len(), 2);
    assert_eq!(solver.steps[0], solver.steps[1]);
}

#[test]
fn boards_of_side_four_and_sixteen_are_solved() {
    let small = SudokuBoard::<4, 2>::from_literal("1 _ _ _ _ _ 3 _ _ 4 _ _ _ _ _ 2");
    let mut solver = SudokuSolver::new(100);
    let solved = solver.solve(&small).unwrap();
    assert_eq!(solved.to_literal(), "1 3 2 4 4 2 3 1 2 4 1 3 3 1 4 2 ");
    assert_eq!(solver.steps.len(), 12);
    assert_eq!(solver.steps[0].message, Message::CanContainOnly(4, 1, 4));
    assert_solved(&solved);

    let empty = SudokuBoard::<4, 2>::new();
    let mut solver = SudokuSolver::new(3);
    let solved = solver.solve(&empty).unwrap();
    assert_eq!(solved.to_literal(), "4 3 2 1 2 1 4 3 3 4 1 2 1 2 3 4 ");
    assert_eq!(solver.steps[0].message, Message::Tried(4, 3, 3));
    assert_eq!(solver.steps[0].literal, "_ _ _ _ _ _ _ _ _ _ _ _ _ _ _ 4 ");
    assert_eq!(solver.steps[1].message, Message::Tried(3, 3, 2));
    assert_eq!(solver.steps[2].message, Message::Tried(2, 3, 1));

    let large = SudokuBoard::<16, 4>::new();
    let mut solver = SudokuSolver::new(0);
    let solved = solver.solve(&large).unwrap();
    assert!(solved.to_literal().starts_with("14 7 12 5 6 4 9 13 3 11 16 2 10 15 8 1 16 11 9 10 14 8 2 1 7 13 4 15 12 3 5 6 "));
    assert_solved(&solved);
}

#[test]
fn a_board_of_side_one_is_solved() {
    let board = SudokuBoard::<1, 1>::new();
    let mut solver = SudokuSolver::new(2);
    let solved = solver.solve(&board).unwrap();
    assert_eq!(solved.to_literal(), "1 ");
    assert_eq!(solver.steps.len(), 1);
    assert_eq!(solver.steps[0].message, Message::CanContainOnly(1, 1, 1));
}
