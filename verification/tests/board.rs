use sudoku::board::Board;
use sudoku::board::BoardError;
use sudoku::cell::Cell;
use sudoku::digit::Digit;
use sudoku::index::CellIndex;
use sudoku::index::ColumnIndex;
use sudoku::index::RowIndex;
use sudoku::index::SectionIndex;
use sudoku::possible::PossibleDigits;

const SPARSE: &str = r#"
- - - - - - - - -
- - - - - - - - -
- - - - - - - - -
6 - - - 5 - - - 7
- - - - - - - - -
- - - - - - - - -
- - - - 4 - - - -
- - - - - - - - -
- - - - 1 - - - -
"#;

const PUZZLE: &str = r#"
    9 - - 8 3 - 1 5 7
    5 - 3 1 - 6 2 8 -
    1 - - 7 4 - - 9 -
    - - - - 5 - 8 3 -
    3 - 1 - - 4 6 7 2
    2 - - - 1 3 - - 9
    - - 2 - 7 - - 1 -
    - - - - - - - 6 -
    - 3 4 - 6 - 9 2 -
        "#;

#[test]
fn test_get_column() {
    let str = r#"
- - - - - - - - -
- - - - - - - - -
- - - - - - - - -
6 - - - 5 - - - 7
- - - - - - - - -
- - - - - - - - -
- - - - 4 - - - -
- - - - - - - - -
- - - - 1 - - - -
"#;
    let board = Board::from_str(str).unwrap();
    let digits = board.get(ColumnIndex(4)).cells.map(|c| c.digit);
    assert_eq!(
        [
            None,
            None,
            None,
            Some(Digit::Five),
            None,
            None,
            Some(Digit::Four),
            None,
            Some(Digit::One),
        ],
        digits
    );
}

#[test]
fn test_get_row() {
    let str = r#"
- - - - - - - - -
- - - - - - - - -
- - - - - - - - -
6 - - - 5 - - - 7
- - - - - - - - -
- - - - - - - - -
- - - - 4 - - - -
- - - - - - - - -
- - - - 1 - - - -
"#;
    let board = Board::from_str(str).unwrap();
    let digits = board.get(RowIndex(3)).cells.map(|c| c.digit);
    assert_eq!(
        [
            Some(Digit::Six),
            None,
            None,
            None,
            Some(Digit::Five),
            None,
            None,
            None,
            Some(Digit::Seven),
        ],
        digits
    );
}

#[test]
fn test_set_digit() {
    let str = r#"
- - - - - - - - -
- - - - - - - - -
- - - - - - - - -
6 - - - 5 - - - 7
- - - - - - - - -
- - - - - - - - -
- - - - 4 - - - -
- - - - - - - - -
- - - - 1 - - - -
"#;
    let mut board = Board::from_str(str).unwrap();
    let index = CellIndex(RowIndex(2), ColumnIndex(2));
    board.set_digit(index, Digit::Five);

    assert_eq!(Some(Digit::Five), board.get(index).digit);
}

#[test]
fn test_get_possible_digits_one() {
    let str = r#"
    9 - - 8 3 - 1 5 7
    5 - 3 1 - 6 2 8 -
    1 - - 7 4 - - 9 -
    - - - - 5 - 8 3 -
    3 - 1 - - 4 6 7 2
    2 - - - 1 3 - - 9
    - - 2 - 7 - - 1 -
    - - - - - - - 6 -
    - 3 4 - 6 - 9 2 -
        "#;

    let board = Board::from_str(str).unwrap();
    let idx = CellIndex(RowIndex(0), ColumnIndex(1));
    let possible = board.get_possible_digits(idx);
    let mut set = PossibleDigits::empty();
    set.insert(Digit::Two);
    set.insert(Digit::Four);
    set.insert(Digit::Six);

    assert_eq!(set, possible);
}

#[test]
fn test_get_possible_digits_two() {
    let str = r#"
    9 - - 8 3 - 1 5 7
    5 - 3 1 - 6 2 8 -
    1 - - 7 4 - - 9 -
    - - - - 5 - 8 3 -
    3 - 1 - - 4 6 7 2
    2 - - - 1 3 - - 9
    - - 2 - 7 - - 1 -
    - - - - - - - 6 -
    - 3 4 - 6 - 9 2 -
        "#;

    let board = Board::from_str(str).unwrap();
    let idx = CellIndex(RowIndex(8), ColumnIndex(8));
    let possible = board.get_possible_digits(idx);
    let mut set = PossibleDigits::empty();
    set.insert(Digit::Five);
    set.insert(Digit::Eight);

    assert_eq!(set, possible);
}

#[test]
fn possible_digits_of_a_filled_cell_are_none() {
    let board = Board::from_str(PUZZLE).unwrap();
    let possible = board.get_possible_digits(CellIndex(RowIndex(0), ColumnIndex(0)));
    assert_eq!(PossibleDigits::empty(), possible);
    assert_eq!(0, possible.len());
}

#[test]
fn possible_digits_never_hold_a_digit_of_a_peer() {
    let board = Board::from_str(PUZZLE).unwrap();
    for r in 0..9 {
        for c in 0..9 {
            let index = CellIndex(RowIndex(r), ColumnIndex(c));
            if board.get(index).digit.is_some() {
                continue;
            }
            let possible = board.get_possible_digits(index);
            let row = board.get(index.0).cells;
            let column = board.get(index.1).cells;
            let section = board.get(index.section()).cells;
            for peer in row.iter().chain(column.iter()).chain(section.iter()) {
                if let Some(digit) = peer.digit {
                    assert!(!possible.contains(digit));
                }
            }
        }
    }
}

#[test]
fn new_keeps_the_cells_it_is_given() {
    let mut data = [[Cell::empty(); 9]; 9];
    for r in 0..9 {
        for c in 0..9 {
            data[r][c] = Cell { digit: None, index: CellIndex(RowIndex(r), ColumnIndex(c)) };
        }
    }
    data[4][7].digit = Some(Digit::Three);
    let board = Board::new(data);
    assert_eq!(data, board.data);
    assert_eq!(Some(Digit::Three), board.get(CellIndex(RowIndex(4), ColumnIndex(7))).digit);
    assert!(!board.is_solved());
}

#[test]
fn from_str_records_each_cell_at_its_place() {
    let board = Board::from_str(PUZZLE).unwrap();
    for r in 0..9 {
        for c in 0..9 {
            let index = CellIndex(RowIndex(r), ColumnIndex(c));
            assert_eq!(index, board.get(index).index);
        }
    }
    assert_eq!(Some(Digit::Nine), board.get(CellIndex(RowIndex(0), ColumnIndex(0))).digit);
    assert_eq!(None, board.get(CellIndex(RowIndex(0), ColumnIndex(1))).digit);
    assert_eq!(Some(Digit::Two), board.get(CellIndex(RowIndex(8), ColumnIndex(7))).digit);
}

#[test]
fn from_str_passes_over_unknown_characters() {
    let dense = "9--83-157/5-31-628-/1--74--9-/----5-83-/3-1--4672/2---13--9/--2-7--1-/-------6-/-34-6-92-";
    let noisy = "board: 9--83-157 | 5-31-628- | 1--74--9- | ----5-83- | 3-1--4672 | 2---13--9 | --2-7--1- | -------6- | -34-6-92- (0 is not a digit, nor is x)";
    let a = Board::from_str(dense).unwrap();
    let b = Board::from_str(PUZZLE).unwrap();
    let c = Board::from_str(noisy).unwrap();
    assert_eq!(a.data, b.data);
    assert_eq!(a.data, c.data);
}

#[test]
fn from_str_refuses_too_few_symbols() {
    let eighty = "-".repeat(80);
    assert_eq!(BoardError::TooFewSymbols, Board::from_str(&eighty).unwrap_err());
    assert_eq!(BoardError::TooFewSymbols, Board::from_str("").unwrap_err());
    assert_eq!(BoardError::TooFewSymbols, Board::from_str("0000 abc \n").unwrap_err());
}

#[test]
fn from_str_refuses_too_many_symbols() {
    let eighty_two = "7".repeat(82);
    assert_eq!(BoardError::TooManySymbols, Board::from_str(&eighty_two).unwrap_err());
    let mut text = String::from(PUZZLE);
    text.push('-');
    assert_eq!(BoardError::TooManySymbols, Board::from_str(&text).unwrap_err());
}

#[test]
fn from_str_takes_exactly_eighty_one_symbols() {
    let text = "-".repeat(81);
    let board = Board::from_str(&text).unwrap();
    for r in 0..9 {
        assert_eq!([None; 9], board.get(RowIndex(r)).cells.map(|c| c.digit));
    }
}

#[test]
fn to_string_writes_nine_lines_of_nine_tokens() {
    let board = Board::from_str(PUZZLE).unwrap();
    let expected = "9 - - 8 3 - 1 5 7\n\
                    5 - 3 1 - 6 2 8 -\n\
                    1 - - 7 4 - - 9 -\n\
                    - - - - 5 - 8 3 -\n\
                    3 - 1 - - 4 6 7 2\n\
                    2 - - - 1 3 - - 9\n\
                    - - 2 - 7 - - 1 -\n\
                    - - - - - - - 6 -\n\
                    - 3 4 - 6 - 9 2 -";
    assert_eq!(expected, board.to_string());
    assert_eq!(161, board.to_string().chars().count());
}

#[test]
fn to_string_does_not_depend_on_the_layout_of_the_text() {
    let dense = "9--83-157/5-31-628-/1--74--9-/----5-83-/3-1--4672/2---13--9/--2-7--1-/-------6-/-34-6-92-";
    let a = Board::from_str(dense).unwrap();
    let b = Board::from_str(PUZZLE).unwrap();
    assert_eq!(a.to_string(), b.to_string());
}

#[test]
fn text_of_a_board_reads_back_as_the_board() {
    let board = Board::from_str(SPARSE).unwrap();
    let again = Board::from_str(&board.to_string()).unwrap();
    assert_eq!(board.data, again.data);
    assert_eq!(board.to_string(), again.to_string());
}

#[test]
fn set_digit_changes_one_cell_only() {
    let before = Board::from_str(SPARSE).unwrap();
    let mut board = Board::from_str(SPARSE).unwrap();
    let index = CellIndex(RowIndex(7), ColumnIndex(1));
    board.set_digit(index, Digit::Eight);
    for r in 0..9 {
        for c in 0..9 {
            let at = CellIndex(RowIndex(r), ColumnIndex(c));
            if at == index {
                assert_eq!(Cell { digit: Some(Digit::Eight), index }, board.get(at));
            } else {
                assert_eq!(before.get(at), board.get(at));
            }
        }
    }
}

#[test]
fn set_digit_overwrites_a_filled_cell() {
    let mut board = Board::from_str(SPARSE).unwrap();
    let index = CellIndex(RowIndex(3), ColumnIndex(0));
    assert_eq!(Some(Digit::Six), board.get(index).digit);
    board.set_digit(index, Digit::Two);
    assert_eq!(Some(Digit::Two), board.get(index).digit);
}

#[test]
fn is_solved_asks_for_every_cell() {
    let full = "946832157573196284128745396469257831351984672287613549692378415815429763734561928";
    let board = Board::from_str(full).unwrap();
    assert!(board.is_solved());
    let mut almost = String::from(&full[..80]);
    almost.push('-');
    assert!(!Board::from_str(&almost).unwrap().is_solved());
    assert!(!Board::from_str(SPARSE).unwrap().is_solved());
}

#[test]
fn is_solved_does_not_ask_for_a_correct_board() {
    let ones = "1".repeat(81);
    assert!(Board::from_str(&ones).unwrap().is_solved());
}

#[test]
fn section_of_a_board_comes_row_by_row() {
    let board = Board::from_str(PUZZLE).unwrap();
    let section = board.get(SectionIndex(7));
    assert_eq!(SectionIndex(7), section.origin);
    for i in 0..9 {
        let expected = CellIndex(RowIndex(6 + i / 3), ColumnIndex(3 + i % 3));
        assert_eq!(expected, section.cells[i].index);
        assert_eq!(SectionIndex(7), section.cells[i].index.section());
        assert_eq!(board.get(expected), section.cells[i]);
    }
}

#[test]
fn row_and_column_of_a_board_come_in_ascending_order() {
    let board = Board::from_str(PUZZLE).unwrap();
    for n in 0..9 {
        let row = board.get(RowIndex(n));
        let column = board.get(ColumnIndex(n));
        assert_eq!(RowIndex(n), row.origin);
        assert_eq!(ColumnIndex(n), column.origin);
        for i in 0..9 {
            assert_eq!(CellIndex(RowIndex(n), ColumnIndex(i)), row.cells[i].index);
            assert_eq!(CellIndex(RowIndex(i), ColumnIndex(n)), column.cells[i].index);
            assert_eq!(board.data[n][i], row.cells[i]);
            assert_eq!(board.data[i][n], column.cells[i]);
        }
    }
}
