use vstd::prelude::*;
use crate::digit::Digit;
use crate::index::CellIndex;
use crate::index::ColumnIndex;
use crate::index::RowIndex;
use crate::text::token;

verus! {

/// One position of the board: the digit it holds, if any, and where it is.
#[derive(Debug, Clone, Copy, PartialEq, Eq, Structural)]
pub struct Cell {
    pub digit: Option<Digit>,
    pub index: CellIndex,
}

/// Nine cells taken from a board, with the row, column or section that they
/// were taken from. It is a copy: it does not follow later changes.
#[derive(Debug, Clone, Copy)]
pub struct CellList<T> {
    pub cells: [Cell; 9],
    pub origin: T,
}

impl Cell {
    /// The cell as text: its digit, or the empty marker.
    pub fn to_string(&self) -> (text: String)
        ensures
            text@ == seq![token(self.digit)],
    {
        let text: &str = match self.digit {
            Some(Digit::One) => "1",
            Some(Digit::Two) => "2",
            Some(Digit::Three) => "3",
            Some(Digit::Four) => "4",
            Some(Digit::Five) => "5",
            Some(Digit::Six) => "6",
            Some(Digit::Seven) => "7",
            Some(Digit::Eight) => "8",
            Some(Digit::Nine) => "9",
            None => "-",
        };
        proof {
            reveal_strlit("1");
            reveal_strlit("2");
            reveal_strlit("3");
            reveal_strlit("4");
            reveal_strlit("5");
            reveal_strlit("6");
            reveal_strlit("7");
            reveal_strlit("8");
            reveal_strlit("9");
            reveal_strlit("-");
            assert(text@ =~= seq![token(self.digit)]);
        }
        text.to_owned()
    }

    /// An unfilled cell at the top left corner.
    pub fn empty() -> (cell: Cell)
        ensures
            cell == (Cell { digit: None, index: CellIndex(RowIndex(0), ColumnIndex(0)) }),
    {
        Cell { digit: None, index: CellIndex(RowIndex(0), ColumnIndex(0)) }
    }
}

} // verus!
