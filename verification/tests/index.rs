use sudoku::board::Board;
use sudoku::digit::Digit;
use sudoku::index::CellIndex;
use sudoku::index::ColumnIndex;
use sudoku::index::RowIndex;
use sudoku::index::SectionIndex;

#[test]
fn test_block_get() {
    let str = r#"
    9 - - 8 3 - 1 5 7
    5 - 3 1 - 6 2 8 -
    1 - - 7 4 - - 9 -
    - - - - 5 - 8 3 -
    3 - 1 - - 4 6 7 2
    2 - - - 1 3 - - 9
    - - 2 - 7 - - 1 -
    - - - - - - - 6 -
    - 3 4 - 6 - 9 2 -
    "#;
    let board = Board::from_str(str).unwrap();
    let block = board.get(SectionIndex(1));

    assert_eq!(
        [
            Some(Digit::Eight),
            Some(Digit::Three),
            None,
            Some(Digit::One),
            None,
            Some(Digit::Six),
            Some(Digit::Seven),
            Some(Digit::Four),
            None,
        ],
        block.cells.map(|c| c.digit)
    );

    let block = board.get(SectionIndex(5));

    assert_eq!(
        [
            Some(Digit::Eight),
            Some(Digit::Three),
            None,
            Some(Digit::Six),
            Some(Digit::Seven),
            Some(Digit::Two),
            None,
            None,
            Some(Digit::Nine),
        ],
        block.cells.map(|c| c.digit)
    );
}

#[test]
fn test_index_get_section() {
    let str = r#"
    9 - - 8 3 - 1 5 7
    5 - 3 1 - 6 2 8 -
    1 - - 7 4 - - 9 -
    - - - - 5 - 8 3 -
    3 - 1 - - 4 6 7 2
    2 - - - 1 3 - - 9
    - - 2 - 7 - - 1 -
    - - - - - - - 6 -
    - 3 4 - 6 - 9 2 -
    "#;
    let board = Board::from_str(str).unwrap();
    let idx = CellIndex(RowIndex(3), ColumnIndex(4));
    let cell = board.get(idx);

    assert_eq!(Some(Digit::Five), cell.digit);
    assert_eq!(SectionIndex(4), idx.section());
}

#[test]
fn sections_are_counted_row_by_row() {
    assert_eq!(SectionIndex(0), CellIndex(RowIndex(0), ColumnIndex(0)).section());
    assert_eq!(SectionIndex(0), CellIndex(RowIndex(2), ColumnIndex(2)).section());
    assert_eq!(SectionIndex(1), CellIndex(RowIndex(0), ColumnIndex(3)).section());
    assert_eq!(SectionIndex(2), CellIndex(RowIndex(2), ColumnIndex(8)).section());
    assert_eq!(SectionIndex(3), CellIndex(RowIndex(3), ColumnIndex(0)).section());
    assert_eq!(SectionIndex(5), CellIndex(RowIndex(5), ColumnIndex(6)).section());
    assert_eq!(SectionIndex(6), CellIndex(RowIndex(8), ColumnIndex(2)).section());
    assert_eq!(SectionIndex(7), CellIndex(RowIndex(6), ColumnIndex(5)).section());
    assert_eq!(SectionIndex(8), CellIndex(RowIndex(8), ColumnIndex(8)).section());
}

#[test]
fn every_cell_lies_in_one_section() {
    let mut seen = [0usize; 9];
    for r in 0..9 {
        for c in 0..9 {
            let section = CellIndex(RowIndex(r), ColumnIndex(c)).section();
            assert_eq!((r / 3) * 3 + c / 3, section.0);
            seen[section.0] += 1;
        }
    }
    assert_eq!([9usize; 9], seen);
}
