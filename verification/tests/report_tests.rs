use sudoku::solve_report::{Message, ReportStep};
use sudoku::sudoku_board::{BoardError, DefaultBoard};
use sudoku::{error_object, find_errors, find_errors_with_size, solution_report, solve, solve_with_size};

const SOLVED: &str = "5 3 4 6 7 8 9 1 2 6 7 2 1 9 5 3 4 8 1 9 8 3 4 2 5 6 7 8 5 9 7 6 1 4 2 3 4 2 6 8 5 3 7 9 1 7 1 3 9 2 4 8 5 6 9 6 1 5 3 7 2 8 4 2 8 7 4 1 9 6 3 5 3 4 5 2 8 6 1 7 9 ";

const UNSOLVABLE: &str = "5 3 4 6 7 8 9 1 2 6 5 2 1 9 _ 3 4 8 1 9 8 3 4 2 5 6 7 8 5 9 7 6 1 4 2 3 4 2 6 8 5 3 7 9 1 7 1 3 9 2 4 8 5 6 9 6 1 5 3 7 2 8 4 2 8 7 4 1 9 6 3 5 3 4 5 2 8 6 1 7 9";

#[test]
fn product_of_two_numbers() {
    assert_eq!(sudoku::add(2, 3), 6);
    assert_eq!(sudoku::add(-4, 5), -20);
    assert_eq!(sudoku::add(0, 7), 0);
}

#[test]
fn messages_as_json() {
    assert_eq!(Message::Found(12).to_object().dump(), r#"{"t":"found","ms":12}"#);
    assert_eq!(
        Message::Tried(3, 1, 2).to_object().dump(),
        r#"{"t":"tried","num":3,"row":1,"col":2}"#
    );
    assert_eq!(Message::GaveUp.to_object().dump(), r#"{"t":"gaveUp"}"#);
    assert_eq!(
        Message::CanContainOnly(9, 4, 5).to_object().dump(),
        r#"{"t":"canContainOnly","num":9,"row":4,"col":5}"#
    );
    assert_eq!(
        Message::NumberOnlyFitsInRow(7, 2).to_object().dump(),
        r#"{"t":"numberOnlyFitsInRow","num":7,"row":2}"#
    );
    assert_eq!(
        Message::NumberOnlyFitsInCol(16, 11).to_object().dump(),
        r#"{"t":"numberOnlyFitsInCol","num":16,"col":11}"#
    );
    assert_eq!(
        Message::NumberOnlyFitsInBlock(1, 3, 2).to_object().dump(),
        r#"{"t":"numberOnlyFitsInBlock","num":1,"row":3,"col":2}"#
    );
}

#[test]
fn steps_as_json() {
    let step: ReportStep<9, 3> = ReportStep {
        message: Message::NumberOnlyFitsInBlock(7, 2, 3),
        highlight_row: None,
        highlight_col: None,
        highlight_block: Some([1, 2]),
        literal: String::from("1 _ "),
    };
    assert_eq!(
        step.to_object().dump(),
        r#"{"message":{"t":"numberOnlyFitsInBlock","num":7,"row":2,"col":3},"highlightRow":null,"highlightCol":null,"highlightBlock":[1,2],"literal":"1 _ "}"#
    );
    let step: ReportStep<9, 3> = ReportStep {
        message: Message::Tried(2, 1, 8),
        highlight_row: Some(1),
        highlight_col: Some(8),
        highlight_block: None,
        literal: String::new(),
    };
    assert_eq!(
        step.to_object().dump(),
        r#"{"message":{"t":"tried","num":2,"row":1,"col":8},"highlightRow":1,"highlightCol":8,"highlightBlock":null,"literal":""}"#
    );
}

#[test]
fn errors_as_json() {
    assert_eq!(error_object(BoardError::RowError(3)).dump(), r#"{"type":"row","value":3}"#);
    assert_eq!(error_object(BoardError::ColError(0)).dump(), r#"{"type":"col","value":0}"#);
    assert_eq!(
        error_object(BoardError::BlockError(2, 1)).dump(),
        r#"{"type":"block","value":[2,1]}"#
    );
}

#[test]
fn find_errors_on_a_legal_full_literal() {
    assert_eq!(find_errors(SOLVED, 3), "null");
    assert_eq!(find_errors_with_size::<9, 3>(SOLVED), "null");
}

#[test]
fn find_errors_on_legal_partial_literals() {
    assert_eq!(find_errors("", 2), "null");
    assert_eq!(find_errors("1 2 3 4 3 4 1 2", 2), "null");
    assert_eq!(find_errors("16 _ 15", 4), "null");
}

#[test]
fn find_errors_names_the_first_unit_with_a_duplicate() {
    assert_eq!(find_errors("1 _ _ _ _ 1", 3), r#"{"type":"row","value":0}"#);
    assert_eq!(find_errors("_ _ 7 _ _ _ _ _ _ _ _ _ _ _ _ _ _ _ _ _ 7", 3), r#"{"type":"col","value":2}"#);
    assert_eq!(find_errors(UNSOLVABLE, 3), r#"{"type":"block","value":[0,0]}"#);
    assert_eq!(find_errors("_ _ _ 4 4 _ _ 4", 2), r#"{"type":"row","value":1}"#);
    assert_eq!(find_errors("16 _ _ _ _ _ _ _ _ _ _ _ _ _ _ _ _ _ 16", 4), r#"{"type":"block","value":[0,0]}"#);
}

#[test]
fn solve_without_a_solution_reports_null() {
    assert_eq!(solve(UNSOLVABLE, 3, 0), "null");
    assert_eq!(solve(UNSOLVABLE, 3, 10), "null");
    assert_eq!(solve_with_size::<9, 3>(UNSOLVABLE, 2), "null");
}

#[test]
fn solve_reports_the_steps_and_the_solution() {
    let literal = SOLVED.replacen("5 3 4 6 7", "5 3 4 6 _", 1);
    let report = solve(&literal, 3, 5);
    let head = r#"[{"message":{"t":"canContainOnly","num":7,"row":1,"col":5},"highlightRow":0,"highlightCol":4,"highlightBlock":null,"literal":"5 3 4 6 7 8 9 1 2 6 7 2 1 9 5 3 4 8 1 9 8 3 4 2 5 6 7 8 5 9 7 6 1 4 2 3 4 2 6 8 5 3 7 9 1 7 1 3 9 2 4 8 5 6 9 6 1 5 3 7 2 8 4 2 8 7 4 1 9 6 3 5 3 4 5 2 8 6 1 7 9 "},{"message":"Found solution in "#;
    let tail = r#"μs","highlightRow":null,"highlightCol":null,"highlightBlock":null,"literal":"5 3 4 6 7 8 9 1 2 6 7 2 1 9 5 3 4 8 1 9 8 3 4 2 5 6 7 8 5 9 7 6 1 4 2 3 4 2 6 8 5 3 7 9 1 7 1 3 9 2 4 8 5 6 9 6 1 5 3 7 2 8 4 2 8 7 4 1 9 6 3 5 3 4 5 2 8 6 1 7 9 "}]"#;
    assert!(report.starts_with(head));
    assert!(report.ends_with(tail));
    let elapsed = &report[head.len()..report.len() - tail.len()];
    assert!(!elapsed.is_empty());
    assert!(elapsed.chars().all(|c| c.is_ascii_digit()));
}

#[test]
fn solve_without_a_budget_reports_the_solution_alone() {
    let report = solve("1 _ _ _ _ _ 3 _ _ 4 _ _ _ _ _ 2", 2, 0);
    assert!(report.starts_with(r#"[{"message":"Found solution in "#));
    assert!(report.ends_with(r#"μs","highlightRow":null,"highlightCol":null,"highlightBlock":null,"literal":"1 3 2 4 4 2 3 1 2 4 1 3 3 1 4 2 "}]"#));
}

#[test]
fn solve_takes_the_three_block_sizes() {
    assert!(solve("", 2, 0).ends_with(r#""literal":"4 3 2 1 2 1 4 3 3 4 1 2 1 2 3 4 "}]"#));
    assert!(solve(SOLVED, 3, 0).ends_with(&format!(r#""literal":"{}"}}]"#, SOLVED)));
    assert!(solve("", 4, 0).contains(r#""literal":"14 7 12 5 6 4 9 13 3 11 16 2 10 15 8 1 "#));
}

#[test]
fn solution_report_writes_the_time_it_is_given() {
    let board = DefaultBoard::from_literal(SOLVED);
    let steps: Vec<ReportStep<9, 3>> = vec![ReportStep {
        message: Message::GaveUp,
        highlight_row: None,
        highlight_col: None,
        highlight_block: None,
        literal: String::from("x"),
    }];
    let expected = format!(
        r#"[{{"message":{{"t":"gaveUp"}},"highlightRow":null,"highlightCol":null,"highlightBlock":null,"literal":"x"}},{{"message":"Found solution in 1234567890123μs","highlightRow":null,"highlightCol":null,"highlightBlock":null,"literal":"{}"}}]"#,
        SOLVED
    );
    assert_eq!(solution_report(&steps, &board, 1234567890123), expected);
    let none: Vec<ReportStep<9, 3>> = Vec::new();
    assert!(solution_report(&none, &board, 0).starts_with(r#"[{"message":"Found solution in 0μs","#));
}

#[test]
fn random_solution_holds_the_digit_it_is_given() {
    let mut rand = rand::thread_rng();
    for digit in 1..=9_u8 {
        let board = sudoku::random_solution::<9, 3>(digit, 4, 7, &mut rand).unwrap();
        assert!(board.is_full());
        assert_eq!(board.get_number(4, 7), Some(digit));
        assert_eq!(find_errors(&board.to_literal(), 3), "null");
    }
    let small = sudoku::random_solution::<4, 2>(3, 0, 0, &mut rand).unwrap();
    assert_eq!(small.get_number(0, 0), Some(3));
    assert_eq!(find_errors(&small.to_literal(), 2), "null");
}
