use sudoku::sudoku_board::{BoardError, DefaultBoard, SudokuBoard};

const SOLVED: &str = "5 3 4 6 7 8 9 1 2 6 7 2 1 9 5 3 4 8 1 9 8 3 4 2 5 6 7 8 5 9 7 6 1 4 2 3 4 2 6 8 5 3 7 9 1 7 1 3 9 2 4 8 5 6 9 6 1 5 3 7 2 8 4 2 8 7 4 1 9 6 3 5 3 4 5 2 8 6 1 7 9 ";

#[test]
fn empty_board() {
    let board = DefaultBoard::new();

    for row in 0..9_usize {
        for col in 0..9_usize {
            assert!(board.get_possible(row, col).all())
        }
    }
}

#[test]
fn one_element_board() {
    let mut board = DefaultBoard::new();
    board.set_number(Some(1), 0, 0);
    // println!("{:?}", board);

    for row in 0..9_usize {
        for col in 0..9_usize {
            println!("{} {} {:?}", row, col, board.get_possible(row, col));
            assert_eq!(row != 0 && col != 0 && !(row < 3 && col < 3), board.get_possible(row, col).has_number(1));
        }
    }
}

#[test]
fn insert_and_remove_from_board() {
    let mut board = DefaultBoard::new();
    board.set_number(Some(1), 0, 0);
    board.set_number(None, 0, 0);

    for row in 0..9_usize {
        for col in 0..9_usize {
            assert!(board.get_possible(row, col).all())
        }
    }
}

#[test]
fn from_literal_board() {
    let literal = "
        1 2 3 4 5 6 7 8 9
        4 5 6 7 8 9 1 2 3
        7 8 9 1 2 3 4 5 6

        _ _ _ _ _ _ _ _ _
        _ _ _ _ _ _ _ _ _
        _ _ _ _ _ _ _ _ _

        _ _ _ _ _ _ _ _ _
        _ _ _ _ _ _ _ _ _
        _ _ _ _ _ _ _ _ _";

    let board = DefaultBoard::from_literal(literal);
    assert_eq!(board.numbers, [
        [Some(1), Some(2), Some(3), Some(4), Some(5), Some(6), Some(7), Some(8), Some(9)],
        [Some(4), Some(5), Some(6), Some(7), Some(8), Some(9), Some(1), Some(2), Some(3)],
        [Some(7), Some(8), Some(9), Some(1), Some(2), Some(3), Some(4), Some(5), Some(6)],
        [None; 9], [None; 9], [None; 9],
        [None; 9], [None; 9], [None; 9],
    ]);
}

#[test]
fn empty_board_then_five_in_the_corner() {
    let mut board = DefaultBoard::new();
    for row in 0..9_usize {
        for col in 0..9_usize {
            assert_eq!(board.get_possible(row, col).as_vec(), vec![1, 2, 3, 4, 5, 6, 7, 8, 9]);
        }
    }
    board.set_number(Some(5), 0, 0);
    assert!(!board.get_possible(0, 0).has_number(5));
    for row in 0..9_usize {
        for col in 0..9_usize {
            let shares = row == 0 || col == 0 || (row < 3 && col < 3);
            let possible = board.get_possible(row, col);
            assert_eq!(possible.has_number(5), !shares);
            assert_eq!(possible.count(), if shares { 8 } else { 9 });
        }
    }
}

#[test]
fn set_number_replaces_the_digit_of_a_cell() {
    let mut board = DefaultBoard::new();
    board.set_number(Some(4), 2, 7);
    assert_eq!(board.get_number(2, 7), Some(4));
    board.set_number(Some(6), 2, 7);
    assert_eq!(board.get_number(2, 7), Some(6));
    assert!(board.get_possible(2, 0).has_number(4));
    assert!(!board.get_possible(2, 0).has_number(6));
    assert!(board.get_possible(8, 7).has_number(4));
    assert!(!board.get_possible(8, 7).has_number(6));
    assert!(!board.get_possible(0, 8).has_number(6));
    board.set_number(None, 2, 7);
    assert_eq!(board.get_number(2, 7), None);
    assert_eq!(board, DefaultBoard::new());
}

#[test]
fn set_number_does_not_check_for_duplicates() {
    let mut board = DefaultBoard::new();
    board.set_number(Some(3), 0, 0);
    board.set_number(Some(3), 0, 5);
    assert_eq!(board.get_number(0, 0), Some(3));
    assert_eq!(board.get_number(0, 5), Some(3));
    assert!(!board.get_possible(0, 8).has_number(3));
}

#[test]
fn is_full_tells_a_full_board() {
    let mut board = DefaultBoard::from_literal(SOLVED);
    assert!(board.is_full());
    board.set_number(None, 8, 8);
    assert!(!board.is_full());
    assert!(!DefaultBoard::new().is_full());
}

#[test]
fn to_literal_writes_one_token_per_cell() {
    let mut board = SudokuBoard::<4, 2>::new();
    board.set_number(Some(1), 0, 0);
    board.set_number(Some(4), 3, 3);
    board.set_number(Some(2), 1, 2);
    assert_eq!(board.to_literal(), "1 _ _ _ _ _ 2 _ _ _ _ _ _ _ _ 4 ");
    assert_eq!(SudokuBoard::<4, 2>::new().to_literal(), "_ _ _ _ _ _ _ _ _ _ _ _ _ _ _ _ ");
    assert_eq!(DefaultBoard::from_literal(SOLVED).to_literal(), SOLVED);
}

#[test]
fn to_literal_writes_digits_above_nine() {
    let mut board = SudokuBoard::<16, 4>::new();
    board.set_number(Some(16), 0, 0);
    board.set_number(Some(10), 0, 1);
    board.set_number(Some(9), 15, 15);
    let literal = board.to_literal();
    assert!(literal.starts_with("16 10 _ _ "));
    assert!(literal.ends_with("_ 9 "));
    assert_eq!(literal.split(' ').filter(|token| !token.is_empty()).count(), 256);
    assert_eq!(SudokuBoard::<16, 4>::from_literal(&literal), board);
}

#[test]
fn literal_round_trip_of_a_solved_board() {
    let board = DefaultBoard::from_literal(SOLVED);
    let again = DefaultBoard::from_literal(&board.to_literal());
    assert_eq!(again, board);
    assert_eq!(again.numbers, board.numbers);
    for row in 0..9_usize {
        for col in 0..9_usize {
            assert_eq!(again.get_possible(row, col), board.get_possible(row, col));
        }
    }
}

#[test]
fn literal_round_trip_of_a_partial_board() {
    let mut board = SudokuBoard::<16, 4>::new();
    board.set_number(Some(12), 3, 9);
    board.set_number(Some(1), 15, 0);
    board.set_number(Some(7), 8, 8);
    assert_eq!(SudokuBoard::<16, 4>::from_literal(&board.to_literal()), board);
}

#[test]
fn board_to_string_draws_the_grid() {
    let mut board = SudokuBoard::<4, 2>::new();
    board.set_number(Some(3), 0, 1);
    board.set_number(Some(2), 3, 0);
    let expected = "  ---------------------\n\
                    0 | _ 3 _ _ |\n\
                    1 | _ _ _ _ |\n\
                    2 | _ _ _ _ |\n\
                    3 | 2 _ _ _ |\n  \
                    ---------------------";
    assert_eq!(board.board_to_string(), expected);
}

#[test]
fn board_to_string_labels_rows_above_nine() {
    let text = SudokuBoard::<16, 4>::new().board_to_string();
    let lines: Vec<&str> = text.split('\n').collect();
    assert_eq!(lines.len(), 18);
    assert_eq!(lines[0], "  ---------------------");
    assert_eq!(lines[1], "0 | _ _ _ _ _ _ _ _ _ _ _ _ _ _ _ _ |");
    assert_eq!(lines[11], "10 | _ _ _ _ _ _ _ _ _ _ _ _ _ _ _ _ |");
    assert_eq!(lines[16], "15 | _ _ _ _ _ _ _ _ _ _ _ _ _ _ _ _ |");
    assert_eq!(lines[17], "  ---------------------");
}

#[test]
fn from_literal_leaves_cells_without_a_digit_empty() {
    let board = SudokuBoard::<4, 2>::from_literal("1 x 0 5 +2 02 2a _ 3");
    assert_eq!(
        board.numbers,
        [
            [Some(1), None, None, None],
            [None, Some(2), None, None],
            [Some(3), None, None, None],
            [None; 4],
        ]
    );
}

#[test]
fn from_literal_separates_tokens_by_whitespace() {
    let board = SudokuBoard::<4, 2>::from_literal("\n\n  1\t2\r\n3   4\n _ _ _ _ \n");
    assert_eq!(
        board.numbers,
        [[Some(1), Some(2), Some(3), Some(4)], [None; 4], [None; 4], [None; 4]]
    );
}

#[test]
fn from_literal_ignores_tokens_beyond_the_last_cell() {
    let board = SudokuBoard::<4, 2>::from_literal("1 2 3 4 3 4 1 2 2 1 4 3 4 3 2 1 1 1 1 1");
    assert!(board.is_full());
    assert_eq!(board.to_literal(), "1 2 3 4 3 4 1 2 2 1 4 3 4 3 2 1 ");
    let checked = SudokuBoard::<4, 2>::from_literal_checked("1 2 3 4 3 4 1 2 2 1 4 3 4 3 2 1 1 1 1 1");
    assert!(matches!(checked, Ok(b) if b == board));
}

#[test]
fn from_literal_of_an_empty_text_is_the_empty_board() {
    assert_eq!(DefaultBoard::from_literal(""), DefaultBoard::new());
    assert_eq!(DefaultBoard::from_literal(" \n "), DefaultBoard::new());
}

#[test]
fn from_literal_places_duplicates_unchecked() {
    let board = DefaultBoard::from_literal("1 1");
    assert_eq!(board.get_number(0, 0), Some(1));
    assert_eq!(board.get_number(0, 1), Some(1));
}

#[test]
fn from_literal_takes_numbers_up_to_the_size() {
    let board = SudokuBoard::<16, 4>::from_literal("16 17 10 9");
    assert_eq!(board.get_number(0, 0), Some(16));
    assert_eq!(board.get_number(0, 1), None);
    assert_eq!(board.get_number(0, 2), Some(10));
    assert_eq!(board.get_number(0, 3), Some(9));
    let small = DefaultBoard::from_literal("10 9 000009 00000000000000000000000000000000000001 99999999999999999999999999999");
    assert_eq!(small.get_number(0, 0), None);
    assert_eq!(small.get_number(0, 1), Some(9));
    assert_eq!(small.get_number(0, 2), Some(9));
    assert_eq!(small.get_number(0, 3), Some(1));
    assert_eq!(small.get_number(0, 4), None);
}

#[test]
fn two_ones_in_the_first_row_are_a_row_error() {
    let mut literal = String::from("1 _ _ _ 1 _ _ _ _ ");
    for _ in 0..72 {
        literal.push_str("_ ");
    }
    let result = DefaultBoard::from_literal_checked(&literal);
    assert!(matches!(result, Err(BoardError::RowError(0))));
}

#[test]
fn checked_parse_names_the_column() {
    let result = DefaultBoard::from_literal_checked(
        "_ _ _ _ 7 _ _ _ _
         _ _ _ _ _ _ _ _ _
         _ _ _ _ _ _ _ _ _
         _ _ _ _ 7 _ _ _ _",
    );
    assert!(matches!(result, Err(BoardError::ColError(4))));
}

#[test]
fn checked_parse_names_the_block() {
    let result = DefaultBoard::from_literal_checked(
        "_ _ _ _ _ _ _ _ _
         _ _ _ _ _ _ _ _ _
         _ _ _ _ _ _ _ _ _
         _ _ _ _ _ _ 2 _ _
         _ _ _ _ _ _ _ 2 _",
    );
    assert!(matches!(result, Err(BoardError::BlockError(1, 2))));
}

#[test]
fn checked_parse_looks_at_the_row_first_then_the_column() {
    // the last 4 shares its row, its column and its block with an earlier one
    let both = SudokuBoard::<4, 2>::from_literal_checked("_ _ _ 4 4 _ _ 4");
    assert!(matches!(both, Err(BoardError::RowError(1))));
    // (1, 0) shares its column and its block with (0, 0)
    let column = SudokuBoard::<4, 2>::from_literal_checked("4 _ _ _ 4 _ _ _");
    assert!(matches!(column, Err(BoardError::ColError(0))));
}

#[test]
fn checked_parse_stops_at_the_first_duplicate() {
    // a block error at cell (1, 1) comes before the row error at (3, 3)
    let result = SudokuBoard::<4, 2>::from_literal_checked("1 _ _ _ _ 1 _ _ _ _ _ _ 2 _ _ 2");
    assert!(matches!(result, Err(BoardError::BlockError(0, 0))));
}

#[test]
fn checked_parse_of_a_legal_literal_is_the_unchecked_board() {
    let checked = DefaultBoard::from_literal_checked(SOLVED);
    assert!(matches!(checked, Ok(board) if board == DefaultBoard::from_literal(SOLVED)));
    let partial = "5 3 _ _ 7 _ _ _ _ 6 _ _ 1 9 5";
    let checked = DefaultBoard::from_literal_checked(partial);
    assert!(matches!(checked, Ok(board) if board == DefaultBoard::from_literal(partial)));
}

#[test]
fn clone_is_an_equal_board() {
    let board = DefaultBoard::from_literal(SOLVED);
    let mut copy = board.clone();
    assert_eq!(copy, board);
    copy.set_number(None, 0, 0);
    assert_eq!(board.get_number(0, 0), Some(5));
    assert_eq!(copy.get_number(0, 0), None);
}

#[test]
fn retain_clears_the_cells_that_are_not_kept() {
    let mut board = SudokuBoard::<4, 2>::from_literal("1 2 3 4 3 4 1 2 2 1 4 3 4 3 2 1");
    let mut keep = vec![true; 16];
    keep[0] = false;
    keep[5] = false;
    keep[15] = false;
    board.retain(&keep);
    assert_eq!(board.to_literal(), "_ 2 3 4 3 _ 1 2 2 1 4 3 4 3 2 _ ");
    assert_eq!(board, SudokuBoard::<4, 2>::from_literal("_ 2 3 4 3 _ 1 2 2 1 4 3 4 3 2 _"));
    let unchanged = board.clone();
    board.retain(&vec![true; 16]);
    assert_eq!(board, unchanged);
    board.retain(&vec![false; 16]);
    assert_eq!(board, SudokuBoard::<4, 2>::new());
}
