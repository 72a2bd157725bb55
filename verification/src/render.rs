//! The text form of a grid: nine lines of nine digits, the digits of a line
//! separated by single spaces.

use crate::grid::{is_board, Sudoku};
use itertools::Itertools;
use vstd::prelude::*;
use vstd::string::StringExecFns;

verus! {

/// The character that stands for a digit.
pub open spec fn digit_char(d: int) -> char {
    if d == 0 {
        '0'
    } else if d == 1 {
        '1'
    } else if d == 2 {
        '2'
    } else if d == 3 {
        '3'
    } else if d == 4 {
        '4'
    } else if d == 5 {
        '5'
    } else if d == 6 {
        '6'
    } else if d == 7 {
        '7'
    } else if d == 8 {
        '8'
    } else {
        '9'
    }
}

/// The decimal digits of a number, the most significant one first.
pub open spec fn decimal(value: nat) -> Seq<char>
    decreases value,
{
    if value < 10 {
        seq![digit_char(value as int)]
    } else {
        decimal(value / 10).push(digit_char((value % 10) as int))
    }
}

/// The items with `separator` put between each two neighbours.
pub open spec fn interspersed<T>(items: Seq<T>, separator: T) -> Seq<T> {
    Seq::new(
        if items.len() == 0 {
            0
        } else {
            (2 * items.len() - 1) as nat
        },
        |i: int|
            if i % 2 == 0 {
                items[i / 2]
            } else {
                separator
            },
    )
}

/// The items cut into pieces of `size` items each, in order; the last piece
/// is shorter where the items do not fill it.
pub open spec fn chunked<T>(items: Seq<T>, size: int) -> Seq<Seq<T>> {
    Seq::new(
        ((items.len() + size - 1) / size) as nat,
        |r: int|
            items.subrange(
                r * size,
                if (r + 1) * size <= items.len() {
                    (r + 1) * size
                } else {
                    items.len() as int
                },
            ),
    )
}

/// The texts of a list of strings.
pub open spec fn texts(strings: Seq<String>) -> Seq<Seq<char>> {
    Seq::new(strings.len(), |i: int| strings[i]@)
}

/// The contents of a list of vectors.
pub open spec fn contents(vectors: Seq<Vec<u32>>) -> Seq<Seq<u32>> {
    Seq::new(vectors.len(), |i: int| vectors[i]@)
}

/// The parts joined into one text, in order.
pub open spec fn concatenated(parts: Seq<Seq<char>>) -> Seq<char>
    decreases parts.len(),
{
    if parts.len() == 0 {
        Seq::empty()
    } else {
        concatenated(parts.drop_last()) + parts.last()
    }
}

/// The text of row `y` of a board: its nine digits with a space between each
/// two neighbours.
pub open spec fn row_text(g: Seq<u32>, y: int) -> Seq<char> {
    Seq::new(
        17,
        |i: int|
            if i % 2 == 0 {
                digit_char(g[9 * y + i / 2] as int)
            } else {
                ' '
            },
    )
}

/// The text of a board: its nine rows, each followed by a line feed.
pub open spec fn board_text(g: Seq<u32>) -> Seq<char> {
    Seq::new(
        162,
        |i: int|
            if i % 18 == 17 {
                '\n'
            } else {
                row_text(g, i / 18)[i % 18]
            },
    )
}

/// Calls `Itertools::chunks` of the crate itertools on the values and
/// collects each chunk. The contract states what its documentation says:
/// the chunks hold `size` values each, in order, but for the last one, which
/// holds what is left; `size` may not be 0, on which the call panics.
#[verifier::external_body]
fn chunks_of(values: &[u32], size: usize) -> (rows: Vec<Vec<u32>>)
    requires
        size > 0,
    ensures
        contents(rows@) == chunked(values@, size as int),
{
    values.iter().chunks(size).into_iter().map(|row| row.copied().collect()).collect()
}

/// Calls `Itertools::intersperse` of the crate itertools on the strings and
/// collects the result. The contract states what its documentation says:
/// the result holds the strings in order, with a copy of the separator
/// between each two neighbours.
#[verifier::external_body]
fn intersperse_strings(strings: Vec<String>, separator: &str) -> (spaced: Vec<String>)
    ensures
        texts(spaced@) == interspersed(texts(strings@), separator@),
{
    Itertools::intersperse(strings.into_iter(), separator.to_owned()).collect()
}

/// Calls `to_string` of std on the value. The contract states that the
/// result holds the decimal digits of the value.
#[verifier::external_body]
fn value_string(value: u32) -> (text: String)
    ensures
        text@ == decimal(value as nat),
{
    value.to_string()
}

/// Join the strings into one.
fn concat_strings(parts: &Vec<String>) -> (text: String)
    ensures
        text@ == concatenated(texts(parts@)),
{
    let mut text = String::new();
    let mut i: usize = 0;
    while i < parts.len()
        invariant
            i <= parts.len(),
            text@ == concatenated(texts(parts@).take(i as int)),
        decreases parts.len() - i,
    {
        assert(texts(parts@).take(i + 1).drop_last() =~= texts(parts@).take(i as int));
        text.append(parts[i].as_str());
        i += 1;
    }
    assert(texts(parts@).take(i as int) =~= texts(parts@));
    text
}

/// Nine digits with spaces between them make the text of a row.
proof fn lemma_row_text(g: Seq<u32>, y: int, spaced: Seq<Seq<char>>)
    requires
        is_board(g),
        0 <= y < 9,
        spaced.len() == 17,
        forall|i: int|
            0 <= i < 17 ==> #[trigger] spaced[i] == if i % 2 == 0 {
                decimal(g[9 * y + i / 2] as nat)
            } else {
                seq![' ']
            },
    ensures
        concatenated(spaced) == row_text(g, y),
{
    reveal_with_fuel(concatenated, 18);
    assert forall|i: int| 0 <= i < 17 implies (#[trigger] spaced[i]).len() == 1 by {
        if i % 2 == 0 {
            assert(g[9 * y + i / 2] <= 9);
        }
    }
    assert(concatenated(spaced) =~= row_text(g, y));
}

/// The texts of the first `y` rows, each followed by a line feed, make the
/// first `18 * y` characters of the text of the board.
proof fn lemma_board_text(g: Seq<u32>, joined: Seq<Seq<char>>, y: int)
    requires
        0 <= y <= 9,
        joined.len() == 18,
        forall|i: int|
            0 <= i < 18 ==> #[trigger] joined[i] == if i % 2 == 0 {
                row_text(g, i / 2)
            } else {
                seq!['\n']
            },
    ensures
        concatenated(joined.take(2 * y)) == board_text(g).take(18 * y),
    decreases y,
{
    if y == 0 {
        assert(concatenated(joined.take(0)) =~= board_text(g).take(0));
    } else {
        lemma_board_text(g, joined, y - 1);
        let row = joined.take(2 * y - 1);
        assert(joined.take(2 * y).drop_last() =~= row);
        assert(row.drop_last() =~= joined.take(2 * y - 2));
        assert(joined.take(2 * y).last() == joined[2 * y - 1]);
        assert(row.last() == joined[2 * y - 2]);
        assert(concatenated(joined.take(2 * y)) == concatenated(row) + joined[2 * y - 1]);
        assert(concatenated(row) == concatenated(joined.take(2 * y - 2)) + joined[2 * y - 2]);
        assert(concatenated(joined.take(2 * y)) == concatenated(joined.take(2 * y - 2)) + row_text(
            g,
            y - 1,
        ) + seq!['\n']);
        assert(concatenated(joined.take(2 * y)) =~= board_text(g).take(18 * y));
    }
}

impl Sudoku {
    /// Get a [String] representation of this [Sudoku] grid.
    ///
    /// Each row of the grid makes a line of the string: the values of its
    /// squares with a space between each two neighbours, and a line feed at
    /// the end.
    pub fn string_repr(&self) -> (repr: String)
        ensures
            repr@ == board_text(self@),
    {
        proof {
            use_type_invariant(self);
            self.lemma_is_board();
            reveal_strlit(" ");
            reveal_strlit("\n");
        }
        let values = self.values();
        let rows = chunks_of(values.as_slice(), 9);
        assert(contents(rows@).len() == 9);
        let mut lines: Vec<String> = Vec::new();
        let mut y: usize = 0;
        while y < 9
            invariant
                y <= 9,
                is_board(self@),
                values@ == self@,
                rows@.len() == 9,
                contents(rows@) == chunked(values@, 9),
                " "@ == seq![' '],
                lines@.len() == y,
                forall|r: int| 0 <= r < y ==> (#[trigger] lines@[r])@ == row_text(self@, r),
            decreases 9 - y,
        {
            let row = &rows[y];
            assert(row@ == contents(rows@)[y as int]);
            assert(row@ == self@.subrange(9 * y, 9 * y + 9));
            let mut cells: Vec<String> = Vec::new();
            let mut x: usize = 0;
            while x < 9
                invariant
                    x <= 9,
                    y < 9,
                    row@ == self@.subrange(9 * y, 9 * y + 9),
                    self@.len() == 81,
                    cells@.len() == x,
                    forall|k: int|
                        0 <= k < x ==> (#[trigger] cells@[k])@ == decimal(self@[9 * y + k] as nat),
                decreases 9 - x,
            {
                cells.push(value_string(row[x]));
                x += 1;
            }
            let ghost digits = texts(cells@);
            let spaced = intersperse_strings(cells, " ");
            let line = concat_strings(&spaced);
            proof {
                assert(texts(spaced@).len() == 17);
                assert forall|i: int| 0 <= i < 17 implies #[trigger] texts(spaced@)[i] == if i % 2
                    == 0 {
                    decimal(self@[9 * y + i / 2] as nat)
                } else {
                    seq![' ']
                } by {
                    if i % 2 == 0 {
                        assert(digits[i / 2] == cells@[i / 2]@);
                    }
                }
                lemma_row_text(self@, y as int, texts(spaced@));
            }
            lines.push(line);
            y += 1;
        }
        let ghost rows_text = texts(lines@);
        let joined = intersperse_strings(lines, "\n");
        let mut repr = concat_strings(&joined);
        repr.append("\n");
        proof {
            let parts = texts(joined@).push(seq!['\n']);
            assert(texts(joined@).len() == 17);
            assert forall|i: int| 0 <= i < 18 implies #[trigger] parts[i] == if i % 2 == 0 {
                row_text(self@, i / 2)
            } else {
                seq!['\n']
            } by {
                if i % 2 == 0 {
                    assert(parts[i] == texts(joined@)[i]);
                    assert(rows_text[i / 2] == row_text(self@, i / 2));
                }
            }
            lemma_board_text(self@, parts, 9);
            assert(parts.take(18) =~= parts);
            assert(parts.drop_last() =~= texts(joined@));
            assert(board_text(self@).take(162) =~= board_text(self@));
        }
        repr
    }
}

} // verus!
