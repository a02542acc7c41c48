use vstd::prelude::*;
use crate::board::Board;
use crate::cell::Cell;
use crate::cell::CellList;

verus! {

/// One of the nine columns, counted from the left.
#[derive(Debug, Clone, Copy, PartialEq, Eq, Structural)]
pub struct ColumnIndex(pub usize);

/// One of the nine rows, counted from the top.
#[derive(Debug, Clone, Copy, PartialEq, Eq, Structural)]
pub struct RowIndex(pub usize);

/// A single cell.
#[derive(Debug, Clone, Copy, PartialEq, Eq, Structural)]
pub struct CellIndex(pub RowIndex, pub ColumnIndex);

/// A 3x3 section; sections are counted row by row.
#[derive(Debug, Clone, Copy, PartialEq, Eq, Structural)]
pub struct SectionIndex(pub usize);

/// The section that holds the cell in row `row` and column `col`.
pub open spec fn section_of(row: int, col: int) -> int {
    (row / 3) * 3 + col / 3
}

impl ColumnIndex {
    /// Whether the column is one of the nine.
    pub open spec fn valid(self) -> bool {
        self.0 < 9
    }
}

impl RowIndex {
    /// Whether the row is one of the nine.
    pub open spec fn valid(self) -> bool {
        self.0 < 9
    }
}

impl SectionIndex {
    /// Whether the section is one of the nine.
    pub open spec fn valid(self) -> bool {
        self.0 < 9
    }

    /// The row of the section's `i`-th cell, in a row-by-row scan.
    pub open spec fn row_of(self, i: int) -> int {
        (self.0 / 3) * 3 + i / 3
    }

    /// The column of the section's `i`-th cell, in a row-by-row scan.
    pub open spec fn column_of(self, i: int) -> int {
        (self.0 % 3) * 3 + i % 3
    }
}

impl CellIndex {
    /// Whether the cell lies on the board.
    pub open spec fn valid(self) -> bool {
        self.0.0 < 9 && self.1.0 < 9
    }

    /// The cell's place among the 81 cells, counted row by row.
    pub open spec fn slot(self) -> int {
        self.0.0 * 9 + self.1.0
    }

    /// The section that holds the cell.
    pub fn section(&self) -> (section: SectionIndex)
        requires
            section_of(self.0.0 as int, self.1.0 as int) <= usize::MAX,
        ensures
            section.0 == section_of(self.0.0 as int, self.1.0 as int),
            self.valid() ==> section.valid(),
    {
        let row: usize = self.0.0 / 3;
        let col: usize = self.1.0 / 3;
        SectionIndex(row * 3 + col)
    }
}

/// Something that picks a part of a board: one cell, or the nine cells of a
/// row, a column or a section.
pub trait IndexLike {
    type Output;

    /// Whether the index lies on the board.
    spec fn on_board(&self) -> bool;

    /// Whether `out` is the part of `board` that the index picks.
    spec fn picks(&self, board: &Board, out: Self::Output) -> bool;

    /// Copies the part that the index picks out of `board`.
    fn get(&self, board: &Board) -> (out: Self::Output)
        requires
            self.on_board(),
        ensures
            self.picks(board, out),
    ;
}

impl IndexLike for ColumnIndex {
    type Output = CellList<ColumnIndex>;

    open spec fn on_board(&self) -> bool {
        self.valid()
    }

    /// The column's cells from the top row down.
    open spec fn picks(&self, board: &Board, out: CellList<ColumnIndex>) -> bool {
        &&& out.origin == *self
        &&& forall|i: int| 0 <= i < 9 ==> #[trigger] out.cells[i] == board.cell(i, self.0 as int)
    }

    fn get(&self, board: &Board) -> (out: CellList<ColumnIndex>) {
        let mut cells = [Cell::empty();9];
        for i in 0..9usize
            invariant
                self.0 < 9,
                forall|j: int| 0 <= j < i ==> #[trigger] cells[j] == board.cell(j, self.0 as int),
        {
            cells[i] = board.data[i][self.0];
        }
        CellList { cells, origin: *self }
    }
}

impl IndexLike for RowIndex {
    type Output = CellList<RowIndex>;

    open spec fn on_board(&self) -> bool {
        self.valid()
    }

    /// The row's cells from the left column to the right.
    open spec fn picks(&self, board: &Board, out: CellList<RowIndex>) -> bool {
        &&& out.origin == *self
        &&& forall|i: int| 0 <= i < 9 ==> #[trigger] out.cells[i] == board.cell(self.0 as int, i)
    }

    fn get(&self, board: &Board) -> (out: CellList<RowIndex>) {
        CellList { cells: board.data[self.0], origin: *self }
    }
}

impl IndexLike for CellIndex {
    type Output = Cell;

    open spec fn on_board(&self) -> bool {
        self.valid()
    }

    open spec fn picks(&self, board: &Board, out: Cell) -> bool {
        out == board.cell(self.0.0 as int, self.1.0 as int)
    }

    fn get(&self, board: &Board) -> (out: Cell) {
        board.data[self.0.0][self.1.0]
    }
}

impl IndexLike for SectionIndex {
    type Output = CellList<SectionIndex>;

    open spec fn on_board(&self) -> bool {
        self.valid()
    }

    /// The section's cells in a row-by-row scan from its top left corner.
    open spec fn picks(&self, board: &Board, out: CellList<SectionIndex>) -> bool {
        &&& out.origin == *self
        &&& forall|i: int|
            0 <= i < 9 ==> #[trigger] out.cells[i] == board.cell(self.row_of(i), self.column_of(i))
    }

    fn get(&self, board: &Board) -> (out: CellList<SectionIndex>) {
        let start_row: usize = (self.0 / 3) * 3;
        let start_col: usize = (self.0 % 3) * 3;
        let mut cells = [Cell::empty();9];
        let mut i: usize = 0;
        for r in 0..3usize
            invariant
                self.0 < 9,
                start_row == (self.0 / 3) * 3,
                start_col == (self.0 % 3) * 3,
                i == r * 3,
                forall|j: int|
                    0 <= j < i ==> #[trigger] cells[j] == board.cell(
                        self.row_of(j),
                        self.column_of(j),
                    ),
        {
            for c in 0..3usize
                invariant
                    self.0 < 9,
                    r < 3,
                    start_row == (self.0 / 3) * 3,
                    start_col == (self.0 % 3) * 3,
                    i == r * 3 + c,
                    forall|j: int|
                        0 <= j < i ==> #[trigger] cells[j] == board.cell(
                            self.row_of(j),
                            self.column_of(j),
                        ),
            {
                let index = CellIndex(RowIndex(start_row + r), ColumnIndex(start_col + c));
                cells[i] = board.get(index);
                i += 1;
            }
        }
        CellList { cells, origin: *self }
    }
}

/// The `i`-th cell of a section lies on the board, in that section.
pub proof fn lemma_section_place(section: SectionIndex, i: int)
    requires
        section.valid(),
        0 <= i < 9,
    ensures
        0 <= section.row_of(i) < 9,
        0 <= section.column_of(i) < 9,
        section_of(section.row_of(i), section.column_of(i)) == section.0,
{
}

/// A place of the board is one of the nine cells of its section.
pub proof fn lemma_place_in_section(row: int, col: int)
    requires
        0 <= row < 9,
        0 <= col < 9,
    ensures
        0 <= section_of(row, col) < 9,
        0 <= (row % 3) * 3 + col % 3 < 9,
        (section_of(row, col) / 3) * 3 + ((row % 3) * 3 + col % 3) / 3 == row,
        (section_of(row, col) % 3) * 3 + ((row % 3) * 3 + col % 3) % 3 == col,
{
}

/// What `get` returns for a row holds exactly the cells of that row, from
/// the left column to the right: its `i`-th cell records the row and the
/// column `i`, and every cell of the board that records the row is among
/// them, at the place of its column.
pub proof fn lemma_row_projection(board: &Board, row: RowIndex, out: CellList<RowIndex>)
    requires
        board.wf(),
        row.valid(),
        row.picks(board, out),
    ensures
        forall|i: int|
            0 <= i < 9 ==> (#[trigger] out.cells[i]).index == CellIndex(
                row,
                ColumnIndex(i as usize),
            ),
        forall|r: int, c: int|
            0 <= r < 9 && 0 <= c < 9 && (#[trigger] board.cell(r, c)).index.0 == row
                ==> out.cells[c] == board.cell(r, c),
{
    assert forall|i: int| 0 <= i < 9 implies (#[trigger] out.cells[i]).index == CellIndex(
        row,
        ColumnIndex(i as usize),
    ) by {
        assert(out.cells[i] == board.cell(row.0 as int, i));
    }
    assert forall|r: int, c: int|
        0 <= r < 9 && 0 <= c < 9 && (#[trigger] board.cell(r, c)).index.0 == row implies out.cells[c]
        == board.cell(r, c) by {
        assert(out.cells[c] == board.cell(row.0 as int, c));
    }
}

/// What `get` returns for a column holds exactly the cells of that column,
/// from the top row down: its `i`-th cell records the row `i` and the
/// column, and every cell of the board that records the column is among
/// them, at the place of its row.
pub proof fn lemma_column_projection(
    board: &Board,
    column: ColumnIndex,
    out: CellList<ColumnIndex>,
)
    requires
        board.wf(),
        column.valid(),
        column.picks(board, out),
    ensures
        forall|i: int|
            0 <= i < 9 ==> (#[trigger] out.cells[i]).index == CellIndex(
                RowIndex(i as usize),
                column,
            ),
        forall|r: int, c: int|
            0 <= r < 9 && 0 <= c < 9 && (#[trigger] board.cell(r, c)).index.1 == column
                ==> out.cells[r] == board.cell(r, c),
{
    assert forall|i: int| 0 <= i < 9 implies (#[trigger] out.cells[i]).index == CellIndex(
        RowIndex(i as usize),
        column,
    ) by {
        assert(out.cells[i] == board.cell(i, column.0 as int));
    }
    assert forall|r: int, c: int|
        0 <= r < 9 && 0 <= c < 9 && (#[trigger] board.cell(r, c)).index.1 == column implies out.cells[r]
        == board.cell(r, c) by {
        assert(out.cells[r] == board.cell(r, column.0 as int));
    }
}

/// What `get` returns for a section holds exactly the cells of that
/// section, row by row from its top left corner: each of its cells lies in
/// the section, and every cell of the board that lies in the section is
/// among them, at the place that its row and column give it there.
pub proof fn lemma_section_projection(
    board: &Board,
    section: SectionIndex,
    out: CellList<SectionIndex>,
)
    requires
        board.wf(),
        section.valid(),
        section.picks(board, out),
    ensures
        forall|i: int|
            0 <= i < 9 ==> {
                let index = (#[trigger] out.cells[i]).index;
                &&& index == CellIndex(
                    RowIndex(section.row_of(i) as usize),
                    ColumnIndex(section.column_of(i) as usize),
                )
                &&& section_of(index.0.0 as int, index.1.0 as int) == section.0
            },
        forall|r: int, c: int|
            0 <= r < 9 && 0 <= c < 9 && section_of(
                (#[trigger] board.cell(r, c)).index.0.0 as int,
                board.cell(r, c).index.1.0 as int,
            ) == section.0 ==> out.cells[(r % 3) * 3 + c % 3] == board.cell(r, c),
{
    assert forall|i: int| 0 <= i < 9 implies {
        let index = (#[trigger] out.cells[i]).index;
        &&& index == CellIndex(
            RowIndex(section.row_of(i) as usize),
            ColumnIndex(section.column_of(i) as usize),
        )
        &&& section_of(index.0.0 as int, index.1.0 as int) == section.0
    } by {
        lemma_section_place(section, i);
        assert(out.cells[i] == board.cell(section.row_of(i), section.column_of(i)));
    }
    assert forall|r: int, c: int|
        0 <= r < 9 && 0 <= c < 9 && section_of(
            (#[trigger] board.cell(r, c)).index.0.0 as int,
            board.cell(r, c).index.1.0 as int,
        ) == section.0 implies out.cells[(r % 3) * 3 + c % 3] == board.cell(r, c) by {
        let i = (r % 3) * 3 + c % 3;
        lemma_place_in_section(r, c);
        assert(section.row_of(i) == r && section.column_of(i) == c);
        assert(out.cells[i] == board.cell(section.row_of(i), section.column_of(i)));
    }
}

} // verus!
