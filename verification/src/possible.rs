use vstd::prelude::*;
use crate::cell::Cell;
use crate::digit::Digit;
use crate::rules::held_by;

verus! {

/// The digits that have not yet been ruled out for one cell.
#[derive(Debug, Clone, Copy, PartialEq, Eq)]
pub struct PossibleDigits {
    present: [bool; 9],
}

/// The digit `d` for which `digits` is exactly `{d}`, if there is one.
pub open spec fn only_member(digits: Set<Digit>) -> Option<Digit> {
    if exists|d: Digit| digits == set![d] {
        Some(choose|d: Digit| digits == set![d])
    } else {
        None
    }
}

/// A set of exactly one digit has that digit as its only member.
pub proof fn lemma_only_member_of_singleton(d: Digit)
    ensures
        only_member(set![d]) == Some(d),
{
    let s = set![d];
    assert(s == set![d]);
    let e = choose|e: Digit| s == set![e];
    assert(set![e].contains(d));
}

/// Where a set has an only member, the set holds that digit and no other.
pub proof fn lemma_only_member_is_sole(digits: Set<Digit>)
    ensures
        only_member(digits) is Some ==> digits == set![only_member(digits)->0],
        only_member(digits) is None ==> forall|d: Digit| digits != set![d],
{
}

impl View for PossibleDigits {
    type V = Set<Digit>;

    closed spec fn view(&self) -> Set<Digit> {
        Set::new(|d: Digit| self.present[d.value() - 1])
    }
}

impl PossibleDigits {
    /// All nine digits.
    pub fn new() -> (possible: PossibleDigits)
        ensures
            possible@ == Set::<Digit>::full(),
    {
        let possible = PossibleDigits { present: [true;9] };
        assert(possible@ =~= Set::<Digit>::full());
        possible
    }

    /// No digit at all.
    pub fn empty() -> (possible: PossibleDigits)
        ensures
            possible@ == Set::<Digit>::empty(),
    {
        let possible = PossibleDigits { present: [false;9] };
        assert(possible@ =~= Set::<Digit>::empty());
        possible
    }

    /// Adds a digit; nothing changes where the set holds it already.
    pub fn insert(&mut self, digit: Digit)
        ensures
            final(self)@ == old(self)@.insert(digit),
    {
        let i: usize = (digit.to_u8() - 1) as usize;
        self.present[i] = true;
        assert(self@ =~= old(self)@.insert(digit));
    }

    /// Rules a digit out; nothing changes where it was ruled out before.
    pub fn remove(&mut self, digit: Digit)
        ensures
            final(self)@ == old(self)@.remove(digit),
    {
        let i: usize = (digit.to_u8() - 1) as usize;
        self.present[i] = false;
        assert(self@ =~= old(self)@.remove(digit));
    }

    /// Removes every digit that one of the nine cells holds.
    pub fn remove_held(&mut self, cells: &[Cell; 9])
        ensures
            final(self)@ == old(self)@.filter(|d: Digit| !held_by(cells@, d)),
    {
        for i in 0..9usize
            invariant
                self@ == old(self)@.filter(|d: Digit| !held_by(cells@.take(i as int), d)),
        {
            if let Some(digit) = cells[i].digit {
                self.remove(digit);
            }
            proof {
                let before = cells@.take(i as int);
                let after = cells@.take(i + 1);
                let here = cells[i as int].digit;
                assert forall|d: Digit| held_by(after, d) <==> held_by(before, d) || here == Some(
                    d,
                ) by {
                    if held_by(after, d) {
                        let j = choose|j: int| 0 <= j < after.len() && (#[trigger] after[j]).digit == Some(d);
                        if j < i {
                            assert(before[j].digit == Some(d));
                        }
                    }
                    if held_by(before, d) {
                        let j = choose|j: int|
                            0 <= j < before.len() && (#[trigger] before[j]).digit == Some(d);
                        assert(after[j].digit == Some(d));
                    }
                    if cells[i as int].digit == Some(d) {
                        assert(after[i as int].digit == Some(d));
                    }
                }
                assert(self@ =~= old(self)@.filter(|d: Digit| !held_by(after, d)));
            }
        }
        proof {
            assert(cells@.take(9) =~= cells@);
        }
    }

    /// Whether the digit is still possible.
    pub fn contains(&self, digit: Digit) -> (held: bool)
        ensures
            held == self@.contains(digit),
    {
        let i: usize = (digit.to_u8() - 1) as usize;
        self.present[i]
    }

    /// How many digits are left.
    pub fn len(&self) -> (n: usize)
        ensures
            self@.finite(),
            n == self@.len(),
            n <= 9,
    {
        let mut n: usize = 0;
        let ghost mut seen: Set<Digit> = Set::empty();
        for i in 0..9usize
            invariant
                n <= i,
                seen.finite(),
                n == seen.len(),
                forall|d: Digit| seen.contains(d) <==> self@.contains(d) && d.value() <= i,
        {
            if self.present[i] {
                proof {
                    let d = Digit::of_value(i + 1)->0;
                    assert(d.value() == i + 1);
                    assert(!seen.contains(d));
                    seen = seen.insert(d);
                }
                n += 1;
            }
        }
        assert(seen =~= self@);
        n
    }

    /// The digit that is left, where exactly one is.
    pub fn get_solution(&self) -> (solution: Option<Digit>)
        ensures
            solution == only_member(self@),
            forall|d: Digit| solution == Some(d) <==> self@ == #[trigger] Set::empty().insert(d),
    {
        let mut found: Option<Digit> = None;
        let mut several: bool = false;
        for i in 0..9usize
            invariant
                several ==> exists|a: Digit, b: Digit|
                    a != b && self@.contains(a) && self@.contains(b),
                !several ==> match found {
                    Some(d) => d.value() <= i && self@.contains(d) && forall|e: Digit|
                        self@.contains(e) && e.value() <= i ==> e == d,
                    None => forall|e: Digit| self@.contains(e) ==> e.value() > i,
                },
        {
            if self.present[i] {
                let digit = Digit::from_u8((i + 1) as u8).unwrap();
                assert(self@.contains(digit));
                if found.is_some() {
                    several = true;
                } else {
                    found = Some(digit);
                }
            }
        }
        let solution = if several {
            None
        } else {
            found
        };
        proof {
            match solution {
                Some(d) => {
                    assert(self@ =~= set![d]);
                    lemma_only_member_of_singleton(d);
                    assert forall|e: Digit| self@ == #[trigger] Set::empty().insert(e) implies e
                        == d by {
                        assert(set![e].contains(d));
                    }
                },
                None => {
                    assert forall|d: Digit| self@ != set![d] by {
                        if self@ == set![d] {
                            if several {
                                let (a, b) = choose|a: Digit, b: Digit|
                                    a != b && self@.contains(a) && self@.contains(b);
                                assert(set![d].contains(a) && set![d].contains(b));
                            } else {
                                assert(set![d].contains(d));
                            }
                        }
                    }
                },
            }
        }
        solution
    }
}

} // verus!
