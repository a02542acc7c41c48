use vstd::prelude::*;
use crate::board::Board;
use crate::board::lemma_groups_are_peers;
use crate::cell::Cell;
use crate::digit::Digit;
use crate::index::CellIndex;
use crate::index::ColumnIndex;
use crate::index::RowIndex;
use crate::possible::PossibleDigits;
use crate::possible::only_member;
use crate::rules::blanks;
use crate::rules::held_by;
use crate::rules::is_complete;
use crate::rules::lemma_blanks_fill;
use crate::rules::consistent;
use crate::rules::free_digits;
use crate::rules::lemma_fill_keeps_consistent;
use crate::rules::taken;

verus! {

/// A rule that narrows down which digits an unfilled cell can take.
pub trait Strategy {
    /// Whether the rule leaves the digit `d` possible at the place `slot` of
    /// `grid`.
    spec fn keeps(&self, grid: Seq<Option<Digit>>, slot: int, d: Digit) -> bool;

    /// Removes from `possible` the digits that the rule excludes for `cell`.
    fn eliminate_digits(&self, board: &Board, cell: &Cell, possible: &mut PossibleDigits)
        requires
            board.wf(),
            cell.index.valid(),
            cell.digit is None,
        ensures
            final(possible)@ == old(possible)@.filter(
                |d: Digit| self.keeps(board@, cell.index.slot(), d),
            ),
    ;
}

/// The simplest rule, known to every player: a digit that already stands in
/// the cell's row, column or section is excluded.
pub struct RelatedCellsStrategy {}

impl Strategy for RelatedCellsStrategy {
    open spec fn keeps(&self, grid: Seq<Option<Digit>>, slot: int, d: Digit) -> bool {
        !taken(grid, slot, d)
    }

    fn eliminate_digits(&self, board: &Board, cell: &Cell, possible: &mut PossibleDigits) {
        let index = cell.index;
        let row = board.get(index.0);
        let column = board.get(index.1);
        let section = board.get(index.section());
        possible.remove_held(&row.cells);
        possible.remove_held(&column.cells);
        possible.remove_held(&section.cells);
        proof {
            assert forall|d: Digit|
                taken(board@, index.slot(), d) <==> held_by(row.cells@, d) || held_by(
                    column.cells@,
                    d,
                ) || held_by(section.cells@, d) by {
                lemma_groups_are_peers(board, index, row, column, section, d);
            }
            assert(possible@ =~= old(possible)@.filter(
                |d: Digit| self.keeps(board@, cell.index.slot(), d),
            ));
        }
    }
}

/// Fills a board by applying its strategies until nothing more follows.
pub struct Solver<S> {
    strategies: Vec<S>,
}

impl Solver<RelatedCellsStrategy> {
    /// A solver with the one strategy `RelatedCellsStrategy`.
    pub fn new() -> (solver: Solver<RelatedCellsStrategy>)
        ensures
            solver.strategies() == seq![RelatedCellsStrategy {  }],
            forall|grid: Seq<Option<Digit>>, slot: int| #[trigger]
                solver.candidates(grid, slot) == free_digits(grid, slot),
            solver.respects_peers(),
    {
        let mut strategies: Vec<RelatedCellsStrategy> = Vec::new();
        strategies.push(RelatedCellsStrategy {  });
        let solver = Solver { strategies };
        proof {
            assert(solver.strategies() =~= seq![RelatedCellsStrategy {  }]);
            assert forall|grid: Seq<Option<Digit>>, slot: int| #[trigger]
                solver.candidates(grid, slot) == free_digits(grid, slot) by {
                assert forall|d: Digit|
                    solver.candidates(grid, slot).contains(d) <==> !taken(grid, slot, d) by {
                    assert(solver.strategies()[0].keeps(grid, slot, d) <==> !taken(grid, slot, d));
                }
                assert(solver.candidates(grid, slot) =~= free_digits(grid, slot));
            }
            solver.lemma_respects_peers(0, RelatedCellsStrategy {  });
        }
        solver
    }
}

impl<S: Strategy> Solver<S> {
    /// A solver that applies the given strategies, in their order.
    pub fn with_strategies(strategies: Vec<S>) -> (solver: Solver<S>)
        ensures
            solver.strategies() == strategies@,
    {
        Solver { strategies }
    }

    /// The strategies of the solver, in the order in which it applies them.
    pub closed spec fn strategies(&self) -> Seq<S> {
        self.strategies@
    }

    /// The digits that every strategy leaves possible at a place.
    pub open spec fn candidates(&self, grid: Seq<Option<Digit>>, slot: int) -> Set<Digit> {
        Set::new(|d: Digit| self.kept_by_first(grid, slot, d, self.strategies().len() as int))
    }

    /// Whether each of the first `n` strategies leaves the digit `d` possible
    /// at a place.
    pub open spec fn kept_by_first(
        &self,
        grid: Seq<Option<Digit>>,
        slot: int,
        d: Digit,
        n: int,
    ) -> bool {
        forall|i: int| 0 <= i < n ==> (#[trigger] self.strategies()[i]).keeps(grid, slot, d)
    }

    /// The digit that a place must take: the place is blank and exactly one
    /// digit is left possible for it.
    pub open spec fn forced(&self, grid: Seq<Option<Digit>>, slot: int) -> Option<Digit> {
        if grid[slot] is None {
            only_member(self.candidates(grid, slot))
        } else {
            None
        }
    }

    /// The first place from `from` on, row by row, that must take a digit,
    /// with that digit.
    pub open spec fn first_forced(&self, grid: Seq<Option<Digit>>, from: int) -> Option<
        (int, Digit),
    >
        decreases 81 - from,
    {
        if from < 0 || from >= 81 {
            None
        } else {
            match self.forced(grid, from) {
                Some(d) => Some((from, d)),
                None => self.first_forced(grid, from + 1),
            }
        }
    }

    /// The assignment that one pass over the board makes, if it makes one.
    pub open spec fn next_move(&self, grid: Seq<Option<Digit>>) -> Option<(int, Digit)> {
        self.first_forced(grid, 0)
    }

    /// The grid that is left when pass after pass has made its assignment and
    /// a pass finds none to make.
    pub open spec fn run(&self, grid: Seq<Option<Digit>>) -> Seq<Option<Digit>>
        decreases blanks(grid),
    {
        if grid.len() != 81 {
            grid
        } else {
            match self.next_move(grid) {
                Some((slot, d)) => {
                    proof {
                        self.lemma_first_forced(grid, 0);
                        lemma_blanks_fill(grid, slot, d);
                    }
                    self.run(grid.update(slot, Some(d)))
                },
                None => grid,
            }
        }
    }

    /// What `first_forced` finds is forced, and no place that it passed
    /// over is; it finds nothing only where no place is forced.
    pub proof fn lemma_first_forced(&self, grid: Seq<Option<Digit>>, from: int)
        requires
            0 <= from,
            grid.len() == 81,
        ensures
            match self.first_forced(grid, from) {
                Some((slot, d)) => {
                    &&& from <= slot < 81
                    &&& grid[slot] is None
                    &&& self.forced(grid, slot) == Some(d)
                    &&& forall|j: int| from <= j < slot ==> self.forced(grid, j) is None
                },
                None => forall|j: int| from <= j < 81 ==> self.forced(grid, j) is None,
            },
        decreases 81 - from,
    {
        if from < 81 && self.forced(grid, from) is None {
            self.lemma_first_forced(grid, from + 1);
        }
    }

    /// Whether the solver never leaves a digit possible that stands at a
    /// related place.
    pub open spec fn respects_peers(&self) -> bool {
        forall|grid: Seq<Option<Digit>>, slot: int, d: Digit| #[trigger]
            self.candidates(grid, slot).contains(d) ==> !taken(grid, slot, d)
    }

    /// A solver that applies `RelatedCellsStrategy`, first or later, never
    /// leaves a digit possible that stands at a related place.
    pub proof fn lemma_respects_peers(&self, i: int, rule: RelatedCellsStrategy)
        requires
            0 <= i < self.strategies().len(),
            forall|grid: Seq<Option<Digit>>, slot: int, d: Digit| #[trigger]
                self.strategies()[i].keeps(grid, slot, d) ==> rule.keeps(grid, slot, d),
        ensures
            self.respects_peers(),
    {
        assert forall|grid: Seq<Option<Digit>>, slot: int, d: Digit| #[trigger]
            self.candidates(grid, slot).contains(d) implies !taken(grid, slot, d) by {
            assert(self.strategies()[i].keeps(grid, slot, d));
        }
    }

    /// The solver assigns only where a place is blank, and passes over no
    /// place that it could assign to: once it stops, no place is forced. It
    /// keeps every digit that the grid held, so no more places are blank
    /// than were, and solving the result again changes nothing.
    pub proof fn lemma_run_settles(&self, grid: Seq<Option<Digit>>)
        requires
            grid.len() == 81,
        ensures
            self.run(grid).len() == 81,
            forall|k: int| 0 <= k < 81 && grid[k] is Some ==> self.run(grid)[k] == grid[k],
            blanks(self.run(grid)) <= blanks(grid),
            self.next_move(self.run(grid)) is None,
            self.run(self.run(grid)) == self.run(grid),
        decreases blanks(grid),
    {
        self.lemma_first_forced(grid, 0);
        match self.next_move(grid) {
            Some((slot, d)) => {
                let filled = grid.update(slot, Some(d));
                lemma_blanks_fill(grid, slot, d);
                self.lemma_run_settles(filled);
                assert forall|k: int| 0 <= k < 81 && grid[k] is Some implies self.run(grid)[k]
                    == grid[k] by {
                    assert(filled[k] == grid[k]);
                }
            },
            None => {},
        }
    }

    /// A solver that respects peers never writes a digit twice into a row, a
    /// column or a section: from a grid without repeated digits it leaves a
    /// grid without repeated digits.
    pub proof fn lemma_run_consistent(&self, grid: Seq<Option<Digit>>)
        requires
            grid.len() == 81,
            consistent(grid),
            self.respects_peers(),
        ensures
            consistent(self.run(grid)),
        decreases blanks(grid),
    {
        self.lemma_first_forced(grid, 0);
        match self.next_move(grid) {
            Some((slot, d)) => {
                lemma_blanks_fill(grid, slot, d);
                assert(self.candidates(grid, slot) == set![d]);
                assert(self.candidates(grid, slot).contains(d));
                lemma_fill_keeps_consistent(grid, slot, d);
                self.lemma_run_consistent(grid.update(slot, Some(d)));
            },
            None => {},
        }
    }

    /// The digits that the strategies, applied one after the other, leave
    /// possible for an unfilled cell.
    pub fn candidates_for(&self, board: &Board, cell: &Cell) -> (possible: PossibleDigits)
        requires
            board.wf(),
            cell.index.valid(),
            cell.digit is None,
        ensures
            possible@ == self.candidates(board@, cell.index.slot()),
    {
        let mut possible = PossibleDigits::new();
        let ghost slot = cell.index.slot();
        for i in 0..self.strategies.len()
            invariant
                board.wf(),
                cell.index.valid(),
                cell.digit is None,
                slot == cell.index.slot(),
                possible@ == Set::new(|d: Digit| self.kept_by_first(board@, slot, d, i as int)),
        {
            let ghost before = possible@;
            self.strategies[i].eliminate_digits(board, cell, &mut possible);
            proof {
                assert forall|d: Digit|
                    self.kept_by_first(board@, slot, d, i + 1) <==> self.kept_by_first(
                        board@,
                        slot,
                        d,
                        i as int,
                    ) && self.strategies()[i as int].keeps(board@, slot, d) by {
                    if self.kept_by_first(board@, slot, d, i as int) && self.strategies()[i as int].keeps(
                        board@,
                        slot,
                        d,
                    ) {
                        assert forall|j: int| 0 <= j < i + 1 implies (#[trigger] self.strategies()[j]).keeps(
                            board@,
                            slot,
                            d,
                        ) by {
                            if j < i {
                            }
                        }
                    }
                }
                assert(possible@ =~= Set::new(
                    |d: Digit| self.kept_by_first(board@, slot, d, i + 1),
                ));
            }
        }
        possible
    }

    /// Scans the board row by row for the first unfilled cell that is left
    /// with exactly one possible digit.
    pub fn find_move(&self, board: &Board) -> (found: Option<(CellIndex, Digit)>)
        requires
            board.wf(),
        ensures
            match found {
                Some((index, d)) => {
                    &&& index.valid()
                    &&& board@[index.slot()] is None
                    &&& self.candidates(board@, index.slot()) == set![d]
                    &&& self.next_move(board@) == Some((index.slot(), d))
                },
                None => self.next_move(board@) is None,
            },
    {
        for k in 0..81usize
            invariant
                board.wf(),
                self.next_move(board@) == self.first_forced(board@, k as int),
        {
            let index = CellIndex(RowIndex(k / 9), ColumnIndex(k % 9));
            let cell = board.get(index);
            assert(cell.digit == board@[k as int]);
            if cell.digit.is_none() {
                let possible = self.candidates_for(board, &cell);
                if let Some(d) = possible.get_solution() {
                    return Some((index, d));
                }
            }
        }
        None
    }

    /// Fills in digits for as long as some unfilled cell is left with exactly
    /// one possible digit, always taking the first such cell in a scan row by
    /// row. Returns whether the board is full in the end.
    pub fn solve(&self, board: &mut Board) -> (solved: bool)
        requires
            old(board).wf(),
        ensures
            final(board).wf(),
            final(board)@ == self.run(old(board)@),
            solved == is_complete(final(board)@),
            forall|k: int|
                0 <= k < 81 && old(board)@[k] is Some ==> final(board)@[k] == old(board)@[k],
            blanks(final(board)@) <= blanks(old(board)@),
    {
        while !board.is_solved()
            invariant
                board.wf(),
                self.run(board@) == self.run(old(board)@),
            decreases blanks(board@),
        {
            match self.find_move(board) {
                Some((index, d)) => {
                    proof {
                        self.lemma_first_forced(board@, 0);
                        lemma_blanks_fill(board@, index.slot(), d);
                    }
                    board.set_digit(index, d);
                },
                None => {
                    proof {
                        self.lemma_run_settles(old(board)@);
                    }
                    return false;
                },
            }
        }
        proof {
            self.lemma_first_forced(board@, 0);
            self.lemma_run_settles(old(board)@);
        }
        true
    }
}

} // verus!
