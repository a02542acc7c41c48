use vstd::prelude::*;
use crate::cell::Cell;
use crate::digit::Digit;
use crate::index::section_of;

verus! {

/// Whether two of the 81 places share a row, a column or a section. A place
/// is related to itself.
pub open spec fn related(a: int, b: int) -> bool {
    ||| a / 9 == b / 9
    ||| a % 9 == b % 9
    ||| section_of(a / 9, a % 9) == section_of(b / 9, b % 9)
}

/// Whether a place related to `slot` holds the digit `d`.
pub open spec fn taken(grid: Seq<Option<Digit>>, slot: int, d: Digit) -> bool {
    exists|j: int| 0 <= j < 81 && related(slot, j) && #[trigger] grid[j] == Some(d)
}

/// The digits that no place related to `slot` holds.
pub open spec fn free_digits(grid: Seq<Option<Digit>>, slot: int) -> Set<Digit> {
    Set::new(|d: Digit| !taken(grid, slot, d))
}

/// Whether one of the cells holds the digit `d`.
pub open spec fn held_by(cells: Seq<Cell>, d: Digit) -> bool {
    exists|i: int| 0 <= i < cells.len() && (#[trigger] cells[i]).digit == Some(d)
}

/// How many places hold no digit.
pub open spec fn blanks(grid: Seq<Option<Digit>>) -> nat
    decreases grid.len(),
{
    if grid.len() == 0 {
        0
    } else {
        blanks(grid.drop_last()) + if grid.last() is None {
            1nat
        } else {
            0nat
        }
    }
}

/// Whether every one of the 81 places holds a digit.
pub open spec fn is_complete(grid: Seq<Option<Digit>>) -> bool {
    forall|k: int| 0 <= k < 81 ==> (#[trigger] grid[k]) is Some
}

/// Whether no digit stands twice in a row, a column or a section.
pub open spec fn consistent(grid: Seq<Option<Digit>>) -> bool {
    forall|a: int, b: int|
        0 <= a < 81 && 0 <= b < 81 && a != b && related(a, b) && (#[trigger] grid[a]) is Some
            ==> grid[a] != #[trigger] grid[b]
}

/// Filling a blank place leaves one blank fewer.
pub proof fn lemma_blanks_fill(grid: Seq<Option<Digit>>, slot: int, d: Digit)
    requires
        0 <= slot < grid.len(),
        grid[slot] is None,
    ensures
        blanks(grid.update(slot, Some(d))) + 1 == blanks(grid),
    decreases grid.len(),
{
    let filled = grid.update(slot, Some(d));
    if slot == grid.len() - 1 {
        assert(filled.drop_last() =~= grid.drop_last());
    } else {
        assert(filled.drop_last() =~= grid.drop_last().update(slot, Some(d)));
        lemma_blanks_fill(grid.drop_last(), slot, d);
    }
}

/// There are no more blanks than places, and none exactly when every place
/// holds a digit.
pub proof fn lemma_blanks_bounds(grid: Seq<Option<Digit>>)
    ensures
        blanks(grid) <= grid.len(),
        blanks(grid) == 0 <==> forall|k: int| 0 <= k < grid.len() ==> (#[trigger] grid[k]) is Some,
    decreases grid.len(),
{
    if grid.len() > 0 {
        let front = grid.drop_last();
        lemma_blanks_bounds(front);
        if blanks(grid) == 0 {
            assert forall|k: int| 0 <= k < grid.len() implies (#[trigger] grid[k]) is Some by {
                if k < grid.len() - 1 {
                    assert(front[k] is Some);
                }
            }
        } else if blanks(front) != 0 {
            let k = choose|k: int| 0 <= k < front.len() && !((#[trigger] front[k]) is Some);
            assert(grid[k] is None);
        }
    }
}

/// A digit that is free at a place stands at no place related to it.
pub proof fn lemma_free_digits_sound(grid: Seq<Option<Digit>>, slot: int, other: int, d: Digit)
    requires
        0 <= other < 81,
        related(slot, other),
        free_digits(grid, slot).contains(d),
    ensures
        grid[other] != Some(d),
{
}

/// Where all places related to a blank place hold, between them, every
/// digit but one, that digit alone is free at the place.
pub proof fn lemma_free_digits_collapse(grid: Seq<Option<Digit>>, slot: int, d: Digit)
    requires
        !taken(grid, slot, d),
        forall|e: Digit| e != d ==> taken(grid, slot, e),
    ensures
        free_digits(grid, slot) == set![d],
{
    assert(free_digits(grid, slot) =~= set![d]);
}

/// Writing a digit that is free at a blank place keeps a grid without
/// repeated digits free of them.
pub proof fn lemma_fill_keeps_consistent(grid: Seq<Option<Digit>>, slot: int, d: Digit)
    requires
        grid.len() == 81,
        0 <= slot < 81,
        consistent(grid),
        !taken(grid, slot, d),
    ensures
        consistent(grid.update(slot, Some(d))),
{
    let filled = grid.update(slot, Some(d));
    assert forall|a: int, b: int|
        0 <= a < 81 && 0 <= b < 81 && a != b && related(a, b) && (#[trigger] filled[a]) is Some
        implies filled[a] != #[trigger] filled[b] by {
        if a == slot {
            assert(grid[b] != Some(d));
        } else if b == slot {
            assert(related(slot, a));
            assert(grid[a] != Some(d));
        } else {
            assert(grid[a] is Some);
            assert(grid[a] != grid[b]);
        }
    }
}

} // verus!
