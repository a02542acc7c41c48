use vstd::prelude::*;
use crate::cell::Cell;
use crate::cell::CellList;
use crate::digit::Digit;
use crate::index::CellIndex;
use crate::index::ColumnIndex;
use crate::index::IndexLike;
use crate::index::RowIndex;
use crate::index::SectionIndex;
use crate::index::lemma_place_in_section;
use crate::index::lemma_section_place;
use crate::index::section_of;
use crate::possible::PossibleDigits;
use crate::rules::free_digits;
use crate::rules::held_by;
use crate::rules::is_complete;
use crate::rules::related;
use crate::rules::taken;
use crate::text::lemma_symbols_prefix;
use crate::text::lemma_symbols_step;
use crate::text::render;
use crate::text::symbols;
use crate::text::written;
use vstd::string::StringExecFns;

verus! {

/// Why a text is not a board.
#[derive(Debug, Clone, Copy, PartialEq, Eq, Structural)]
pub enum BoardError {
    /// The text writes fewer than 81 cells.
    TooFewSymbols,
    /// The text writes more than 81 cells.
    TooManySymbols,
}

/// The 9×9 grid of cells.
#[derive(Debug)]
pub struct Board {
    pub data: [[Cell; 9]; 9],
}

impl View for Board {
    type V = Seq<Option<Digit>>;

    /// The 81 digits of the board, row by row.
    open spec fn view(&self) -> Seq<Option<Digit>> {
        Seq::new(81, |k: int| self.cell(k / 9, k % 9).digit)
    }
}

impl Board {
    /// The cell in row `row` and column `col`.
    pub open spec fn cell(&self, row: int, col: int) -> Cell {
        self.data[row][col]
    }

    /// Every cell records the place at which the board holds it.
    pub open spec fn wf(&self) -> bool {
        forall|r: int, c: int|
            0 <= r < 9 && 0 <= c < 9 ==> (#[trigger] self.cell(r, c)).index == CellIndex(
                RowIndex(r as usize),
                ColumnIndex(c as usize),
            )
    }

    /// A board of the given cells, `data[r][c]` in row `r` and column `c`.
    pub fn new(data: [[Cell; 9]; 9]) -> (board: Board)
        ensures
            board.data == data,
    {
        Board { data }
    }

    /// Reads a board from text. The text writes the cells row by row, `-`
    /// for an unfilled cell and `1` to `9` for a digit; every other character
    /// is passed over.
    pub fn from_str(value: &str) -> (result: Result<Board, BoardError>)
        ensures
            result is Ok <==> symbols(value@).len() == 81,
            result is Ok ==> result->Ok_0.wf() && result->Ok_0@ == symbols(value@),
            result == Err::<Board, BoardError>(BoardError::TooFewSymbols) <==> symbols(
                value@,
            ).len() < 81,
            result == Err::<Board, BoardError>(BoardError::TooManySymbols) <==> symbols(
                value@,
            ).len() > 81,
    {
        let mut data = [[Cell::empty();9];9];
        let mut index: usize = 0;
        for ch in it: value.chars()
            invariant
                it.seq() == value@,
                index <= 81,
                index == symbols(value@.subrange(0, it.index())).len(),
                forall|k: int|
                    0 <= k < index ==> #[trigger] data[k / 9][k % 9] == (Cell {
                        digit: symbols(value@.subrange(0, it.index()))[k],
                        index: CellIndex(RowIndex((k / 9) as usize), ColumnIndex((k % 9) as usize)),
                    }),
        {
            proof {
                lemma_symbols_step(value@, it.index());
            }
            let found: Option<Option<Digit>> = if ch == Digit::EMPTY_CHARACTER {
                Some(None)
            } else {
                match Digit::from_char(ch) {
                    Some(digit) => Some(Some(digit)),
                    None => None,
                }
            };
            if let Some(digit) = found {
                if index == 81 {
                    proof {
                        lemma_symbols_prefix(value@, it.index() + 1);
                    }
                    return Err(BoardError::TooManySymbols);
                }
                let row = RowIndex(index / 9);
                let column = ColumnIndex(index % 9);
                data[row.0][column.0] = Cell { digit, index: CellIndex(row, column) };
                index += 1;
            }
        }
        proof {
            assert(value@.subrange(0, value@.len() as int) =~= value@);
        }
        if index < 81 {
            return Err(BoardError::TooFewSymbols);
        }
        let board = Board::new(data);
        proof {
            assert(board@ =~= symbols(value@));
            assert forall|r: int, c: int| 0 <= r < 9 && 0 <= c < 9 implies (#[trigger] board.cell(
                r,
                c,
            )).index == CellIndex(RowIndex(r as usize), ColumnIndex(c as usize)) by {
                let k = r * 9 + c;
                assert(k / 9 == r && k % 9 == c);
                assert(data[k / 9][k % 9].index == CellIndex(
                    RowIndex((k / 9) as usize),
                    ColumnIndex((k % 9) as usize),
                ));
            }
        }
        Ok(board)
    }

    /// The part of the board that `index` picks: the cell of a `CellIndex`,
    /// or the nine cells of a `RowIndex`, a `ColumnIndex` or a
    /// `SectionIndex`.
    pub fn get<T>(&self, index: T) -> (out: T::Output) where T: IndexLike
        requires
            index.on_board(),
        ensures
            index.picks(self, out),
    {
        index.get(self)
    }

    /// Writes a digit into a cell, over whatever the cell held. No other cell
    /// changes, and the digit is not held against the rest of the board.
    pub fn set_digit(&mut self, index: CellIndex, digit: Digit)
        requires
            index.valid(),
        ensures
            final(self).cell(index.0.0 as int, index.1.0 as int) == (Cell {
                digit: Some(digit),
                index: old(self).cell(index.0.0 as int, index.1.0 as int).index,
            }),
            forall|r: int, c: int|
                0 <= r < 9 && 0 <= c < 9 && !(r == index.0.0 && c == index.1.0)
                    ==> #[trigger] final(self).cell(r, c) == old(self).cell(r, c),
            final(self)@ == old(self)@.update(index.slot(), Some(digit)),
            old(self).wf() ==> final(self).wf(),
    {
        self.data[index.0.0][index.1.0].digit = Some(digit);
        proof {
            assert(self@ =~= old(self)@.update(index.slot(), Some(digit)));
            if old(self).wf() {
                assert forall|r: int, c: int| 0 <= r < 9 && 0 <= c < 9 implies (#[trigger] self.cell(
                    r,
                    c,
                )).index == CellIndex(RowIndex(r as usize), ColumnIndex(c as usize)) by {
                    assert(self.cell(r, c).index == old(self).cell(r, c).index);
                }
            }
        }
    }

    /// The digits that a cell could still take: none if it is filled, else
    /// those that stand nowhere in its row, its column or its section.
    pub fn get_possible_digits(&self, index: CellIndex) -> (possible: PossibleDigits)
        requires
            index.valid(),
        ensures
            possible@ == if self@[index.slot()] is Some {
                Set::<Digit>::empty()
            } else {
                free_digits(self@, index.slot())
            },
    {
        let cell = self.get(index);
        if cell.digit.is_some() {
            return PossibleDigits::empty();
        }
        let mut possible = PossibleDigits::new();
        let row = self.get(index.0);
        let column = self.get(index.1);
        let section = self.get(index.section());
        possible.remove_held(&row.cells);
        possible.remove_held(&column.cells);
        possible.remove_held(&section.cells);
        proof {
            assert forall|d: Digit|
                taken(self@, index.slot(), d) <==> held_by(row.cells@, d) || held_by(
                    column.cells@,
                    d,
                ) || held_by(section.cells@, d) by {
                lemma_groups_are_peers(self, index, row, column, section, d);
            }
            assert(possible@ =~= free_digits(self@, index.slot()));
        }
        possible
    }

    /// The board as text: nine lines of nine tokens with a space between
    /// neighbours, and no line feed after the last line.
    pub fn to_string(&self) -> (text: String)
        ensures
            text@ == render(self@),
    {
        let mut text = String::new();
        for r in 0..9usize
            invariant
                text@ == render(self@).subrange(0, written(r as int, 0)),
        {
            for c in 0..9usize
                invariant
                    r < 9,
                    text@ == render(self@).subrange(0, written(r as int, c as int)),
            {
                let token = self.data[r][c].to_string();
                text.append(token.as_str());
                proof {
                    let at = r * 18 + c * 2;
                    assert(at / 18 == r && at % 18 == c * 2);
                    assert(self@[r * 9 + c] == self.cell(r as int, c as int).digit);
                    assert(text@ =~= render(self@).subrange(0, at + 1));
                }
                if c < 8 {
                    text.append(" ");
                    proof {
                        reveal_strlit(" ");
                        let at = r * 18 + c * 2 + 1;
                        assert(at / 18 == r && at % 18 == c * 2 + 1);
                        assert(text@ =~= render(self@).subrange(0, at + 1));
                    }
                } else if r < 8 {
                    text.append("\n");
                    proof {
                        reveal_strlit("\n");
                        let at = r * 18 + 17;
                        assert(at / 18 == r && at % 18 == 17);
                        assert(text@ =~= render(self@).subrange(0, at + 1));
                    }
                }
            }
        }
        proof {
            assert(render(self@).subrange(0, 161) =~= render(self@));
        }
        text
    }

    /// Whether every cell holds a digit. A full board counts as solved even
    /// where a digit stands twice in a row, a column or a section.
    pub fn is_solved(&self) -> (solved: bool)
        ensures
            solved == is_complete(self@),
    {
        for k in 0..81usize
            invariant
                forall|j: int| 0 <= j < k ==> (#[trigger] self@[j]) is Some,
        {
            if self.data[k / 9][k % 9].digit.is_none() {
                assert(self@[k as int] is None);
                return false;
            }
        }
        true
    }
}

/// The cells of a cell's row, column and section are the cells at the places
/// related to it: a digit stands at a related place exactly when one of the
/// three groups holds it.
pub proof fn lemma_groups_are_peers(
    board: &Board,
    index: CellIndex,
    row: CellList<RowIndex>,
    column: CellList<ColumnIndex>,
    section: CellList<SectionIndex>,
    d: Digit,
)
    requires
        index.valid(),
        index.0.picks(board, row),
        index.1.picks(board, column),
        section.origin.0 == section_of(index.0.0 as int, index.1.0 as int),
        section.origin.picks(board, section),
    ensures
        taken(board@, index.slot(), d) <==> held_by(row.cells@, d) || held_by(column.cells@, d)
            || held_by(section.cells@, d),
{
    let grid = board@;
    let r = index.0.0 as int;
    let c = index.1.0 as int;
    let k = index.slot();
    let s = section.origin;
    assert(k / 9 == r && k % 9 == c);
    if taken(grid, k, d) {
        let j = choose|j: int| 0 <= j < 81 && related(k, j) && #[trigger] grid[j] == Some(d);
        let jr = j / 9;
        let jc = j % 9;
        assert(board.cell(jr, jc).digit == Some(d));
        if jr == r {
            assert(row.cells[jc] == board.cell(r, jc));
            assert(row.cells@[jc].digit == Some(d));
        } else if jc == c {
            assert(column.cells[jr] == board.cell(jr, c));
            assert(column.cells@[jr].digit == Some(d));
        } else {
            let i = (jr % 3) * 3 + jc % 3;
            lemma_place_in_section(jr, jc);
            assert(s.0 == section_of(jr, jc));
            assert(section.cells[i] == board.cell(s.row_of(i), s.column_of(i)));
            assert(section.cells@[i].digit == Some(d));
        }
    }
    if held_by(row.cells@, d) {
        let i = choose|i: int| 0 <= i < row.cells@.len() && (#[trigger] row.cells@[i]).digit == Some(d);
        assert(row.cells[i] == board.cell(r, i));
        lemma_digit_at(board, r, i);
        assert(related(k, r * 9 + i));
    }
    if held_by(column.cells@, d) {
        let i = choose|i: int|
            0 <= i < column.cells@.len() && (#[trigger] column.cells@[i]).digit == Some(d);
        assert(column.cells[i] == board.cell(i, c));
        lemma_digit_at(board, i, c);
        assert(related(k, i * 9 + c));
    }
    if held_by(section.cells@, d) {
        let i = choose|i: int|
            0 <= i < section.cells@.len() && (#[trigger] section.cells@[i]).digit == Some(d);
        assert(section.cells[i] == board.cell(s.row_of(i), s.column_of(i)));
        lemma_section_place(s, i);
        lemma_digit_at(board, s.row_of(i), s.column_of(i));
        assert(related(k, s.row_of(i) * 9 + s.column_of(i)));
    }
}

/// The board's view holds, at the place of a row and a column, the digit of
/// the cell that stands there.
pub proof fn lemma_digit_at(board: &Board, row: int, col: int)
    requires
        0 <= row < 9,
        0 <= col < 9,
    ensures
        0 <= row * 9 + col < 81,
        (row * 9 + col) / 9 == row,
        (row * 9 + col) % 9 == col,
        board@[row * 9 + col] == board.cell(row, col).digit,
{
}

} // verus!
