use vstd::prelude::*;

verus! {

/// One of the nine Sudoku symbols.
#[derive(Debug, Clone, Copy, PartialEq, Eq, Structural, Hash)]
pub enum Digit {
    One,
    Two,
    Three,
    Four,
    Five,
    Six,
    Seven,
    Eight,
    Nine,
}

impl Digit {
    /// The character that marks an unfilled cell in text.
    pub const EMPTY_CHARACTER: char = '-';

    /// The canonical number of the digit, between 1 and 9.
    pub open spec fn value(self) -> int {
        match self {
            Digit::One => 1,
            Digit::Two => 2,
            Digit::Three => 3,
            Digit::Four => 4,
            Digit::Five => 5,
            Digit::Six => 6,
            Digit::Seven => 7,
            Digit::Eight => 8,
            Digit::Nine => 9,
        }
    }

    /// The digit whose canonical number is `n`, if `n` lies between 1 and 9.
    pub open spec fn of_value(n: int) -> Option<Digit> {
        if n == 1 {
            Some(Digit::One)
        } else if n == 2 {
            Some(Digit::Two)
        } else if n == 3 {
            Some(Digit::Three)
        } else if n == 4 {
            Some(Digit::Four)
        } else if n == 5 {
            Some(Digit::Five)
        } else if n == 6 {
            Some(Digit::Six)
        } else if n == 7 {
            Some(Digit::Seven)
        } else if n == 8 {
            Some(Digit::Eight)
        } else if n == 9 {
            Some(Digit::Nine)
        } else {
            None
        }
    }

    /// The digit that the character `c` writes: `'1'` to `'9'` are the code
    /// points 49 to 57; no other character writes a digit.
    pub open spec fn of_char(c: char) -> Option<Digit> {
        Digit::of_value(c as int - 48)
    }

    /// The character that writes the digit.
    pub open spec fn glyph(self) -> char {
        match self {
            Digit::One => '1',
            Digit::Two => '2',
            Digit::Three => '3',
            Digit::Four => '4',
            Digit::Five => '5',
            Digit::Six => '6',
            Digit::Seven => '7',
            Digit::Eight => '8',
            Digit::Nine => '9',
        }
    }

    /// The canonical number of the digit.
    pub fn to_u8(&self) -> (n: u8)
        ensures
            n == self.value(),
            1 <= n <= 9,
    {
        match self {
            Digit::One => 1,
            Digit::Two => 2,
            Digit::Three => 3,
            Digit::Four => 4,
            Digit::Five => 5,
            Digit::Six => 6,
            Digit::Seven => 7,
            Digit::Eight => 8,
            Digit::Nine => 9,
        }
    }

    /// The digit with the canonical number `value`; none unless `value`
    /// lies between 1 and 9.
    pub fn from_u8(value: u8) -> (digit: Option<Digit>)
        ensures
            digit == Digit::of_value(value as int),
            digit is Some <==> 1 <= value <= 9,
            digit is Some ==> digit->0.value() == value,
    {
        match value {
            1 => Some(Digit::One),
            2 => Some(Digit::Two),
            3 => Some(Digit::Three),
            4 => Some(Digit::Four),
            5 => Some(Digit::Five),
            6 => Some(Digit::Six),
            7 => Some(Digit::Seven),
            8 => Some(Digit::Eight),
            9 => Some(Digit::Nine),
            _ => None,
        }
    }

    /// The digit that `value` writes; none unless `value` is one of `'1'`
    /// to `'9'`.
    pub fn from_char(value: char) -> (digit: Option<Digit>)
        ensures
            digit == Digit::of_char(value),
            digit is Some <==> '1' <= value <= '9',
            digit is Some ==> digit->0.glyph() == value,
    {
        match value {
            '1' => Some(Digit::One),
            '2' => Some(Digit::Two),
            '3' => Some(Digit::Three),
            '4' => Some(Digit::Four),
            '5' => Some(Digit::Five),
            '6' => Some(Digit::Six),
            '7' => Some(Digit::Seven),
            '8' => Some(Digit::Eight),
            '9' => Some(Digit::Nine),
            _ => None,
        }
    }

    /// The nine digits in ascending order.
    pub fn all() -> (digits: [Digit; 9])
        ensures
            forall|i: int| 0 <= i < 9 ==> (#[trigger] digits[i]).value() == i + 1,
    {
        [
            Digit::One,
            Digit::Two,
            Digit::Three,
            Digit::Four,
            Digit::Five,
            Digit::Six,
            Digit::Seven,
            Digit::Eight,
            Digit::Nine,
        ]
    }
}

/// A digit is recovered from its canonical number, and a number between 1
/// and 9 from its digit.
pub proof fn lemma_value_round_trip(d: Digit, n: int)
    ensures
        1 <= d.value() <= 9,
        Digit::of_value(d.value()) == Some(d),
        Digit::of_value(n) is Some <==> 1 <= n <= 9,
        Digit::of_value(n) is Some ==> Digit::of_value(n)->0.value() == n,
{
}

/// A digit is recovered from the character that writes it, and that
/// character is never the empty marker.
pub proof fn lemma_glyph_round_trip(d: Digit)
    ensures
        Digit::of_char(d.glyph()) == Some(d),
        d.glyph() != Digit::EMPTY_CHARACTER,
        Digit::of_char(Digit::EMPTY_CHARACTER) is None,
{
}

/// Two digits with the same canonical number are the same digit.
pub proof fn lemma_value_injective(a: Digit, b: Digit)
    requires
        a.value() == b.value(),
    ensures
        a == b,
{
}

} // verus!
