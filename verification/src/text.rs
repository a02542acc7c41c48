use vstd::prelude::*;
use crate::digit::Digit;

verus! {

/// What one character of a board's text stands for: the empty marker stands
/// for an unfilled cell, `'1'` to `'9'` for a filled one, and any other
/// character for nothing.
pub open spec fn symbol(c: char) -> Option<Option<Digit>> {
    if c == Digit::EMPTY_CHARACTER {
        Some(None)
    } else if Digit::of_char(c) is Some {
        Some(Digit::of_char(c))
    } else {
        None
    }
}

/// The cells that a text writes, in the order in which it writes them.
pub open spec fn symbols(text: Seq<char>) -> Seq<Option<Digit>>
    decreases text.len(),
{
    if text.len() == 0 {
        Seq::empty()
    } else {
        let before = symbols(text.drop_last());
        match symbol(text.last()) {
            Some(cell) => before.push(cell),
            None => before,
        }
    }
}

/// Reading one character more appends what that character stands for.
pub proof fn lemma_symbols_step(text: Seq<char>, n: int)
    requires
        0 <= n < text.len(),
    ensures
        symbols(text.subrange(0, n + 1)) == match symbol(text[n]) {
            Some(cell) => symbols(text.subrange(0, n)).push(cell),
            None => symbols(text.subrange(0, n)),
        },
{
    assert(text.subrange(0, n + 1).drop_last() =~= text.subrange(0, n));
}

/// What a text writes begins with what each of its prefixes writes.
pub proof fn lemma_symbols_prefix(text: Seq<char>, n: int)
    requires
        0 <= n <= text.len(),
    ensures
        symbols(text.subrange(0, n)).is_prefix_of(symbols(text)),
    decreases text.len() - n,
{
    if n == text.len() {
        assert(text.subrange(0, n) =~= text);
    } else {
        lemma_symbols_step(text, n);
        lemma_symbols_prefix(text, n + 1);
    }
}

/// What two texts in a row write is what the first writes, then what the
/// second writes.
pub proof fn lemma_symbols_concat(a: Seq<char>, b: Seq<char>)
    ensures
        symbols(a + b) =~= symbols(a) + symbols(b),
    decreases b.len(),
{
    if b.len() == 0 {
        assert(a + b =~= a);
    } else {
        assert((a + b).drop_last() =~= a + b.drop_last());
        lemma_symbols_concat(a, b.drop_last());
    }
}

/// A character that stands for nothing can be put into a text, or taken out
/// of it, anywhere: the text writes the same cells.
pub proof fn lemma_symbols_skip(before: Seq<char>, c: char, after: Seq<char>)
    requires
        symbol(c) is None,
    ensures
        symbols(before + seq![c] + after) == symbols(before + after),
{
    lemma_symbols_concat(before + seq![c], after);
    lemma_symbols_concat(before, seq![c]);
    lemma_symbols_concat(before, after);
    let one = seq![c];
    assert(one.drop_last() =~= Seq::<char>::empty());
    assert(one.last() == c);
    assert(symbols(one.drop_last()) =~= Seq::<Option<Digit>>::empty());
    assert(symbols(one) =~= Seq::<Option<Digit>>::empty());
    assert(symbols(before) + Seq::<Option<Digit>>::empty() =~= symbols(before));
}

/// The character that writes a cell.
pub open spec fn token(cell: Option<Digit>) -> char {
    match cell {
        Some(d) => d.glyph(),
        None => Digit::EMPTY_CHARACTER,
    }
}

/// The text of a board: nine lines, one for each row from the top, each of
/// nine tokens with one space between neighbours; a line feed ends every
/// line but the last.
pub open spec fn render(grid: Seq<Option<Digit>>) -> Seq<char> {
    Seq::new(
        161,
        |i: int|
            {
                let line = i / 18;
                let at = i % 18;
                if at == 17 {
                    '\n'
                } else if at % 2 == 1 {
                    ' '
                } else {
                    token(grid[line * 9 + at / 2])
                }
            },
    )
}

/// How many characters of a board's text come before the token of the cell
/// in row `row` and column `col`; the whole length where no such cell is
/// left.
pub open spec fn written(row: int, col: int) -> int {
    if row * 18 + col * 2 < 161 {
        row * 18 + col * 2
    } else {
        161
    }
}

/// How many tokens stand among the first `n` characters of a board's text.
pub open spec fn tokens_before(n: int) -> int {
    (n / 18) * 9 + (n % 18 + 1) / 2
}

/// The first `n` characters of a board's text write the board's first
/// `tokens_before(n)` cells.
pub proof fn lemma_render_prefix(grid: Seq<Option<Digit>>, n: int)
    requires
        grid.len() == 81,
        0 <= n <= 161,
    ensures
        symbols(render(grid).subrange(0, n)) == grid.subrange(0, tokens_before(n)),
    decreases n,
{
    let text = render(grid);
    if n == 0 {
        assert(text.subrange(0, 0) =~= Seq::<char>::empty());
        assert(grid.subrange(0, 0) =~= Seq::<Option<Digit>>::empty());
    } else {
        let m = n - 1;
        lemma_render_prefix(grid, m);
        lemma_symbols_step(text, m);
        let at = m % 18;
        let before = grid.subrange(0, tokens_before(m));
        if at == 17 || at % 2 == 1 {
            assert(symbol(text[m]) is None);
            assert(tokens_before(n) == tokens_before(m));
        } else {
            let cell = grid[tokens_before(m)];
            assert(text[m] == token(cell));
            assert(symbol(token(cell)) == Some(cell));
            assert(tokens_before(n) == tokens_before(m) + 1);
            assert(before.push(cell) =~= grid.subrange(0, tokens_before(n)));
        }
    }
}

/// Reading the text of a board gives the board back.
pub proof fn lemma_render_round_trip(grid: Seq<Option<Digit>>)
    requires
        grid.len() == 81,
    ensures
        render(grid).len() == 161,
        symbols(render(grid)) == grid,
{
    lemma_render_prefix(grid, 161);
    assert(render(grid).subrange(0, 161) =~= render(grid));
    assert(grid.subrange(0, 81) =~= grid);
}

} // verus!
