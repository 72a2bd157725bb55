//! The Sudoku board: 81 squares holding the values 0 to 9, where 0 marks an
//! empty square.

use crate::bits::{has_digit, lemma_full_and_empty, lemma_with_digit};
use vstd::prelude::*;

verus! {

/// The number of squares on a Sudoku grid.
pub const NUM_SQUARES: usize = 81;

/// The position in the board's sequence of the square at column `x`, row `y`.
pub open spec fn square(x: int, y: int) -> int {
    x + 9 * y
}

/// A sequence is a board when it has 81 entries, none of them above 9.
pub open spec fn is_board(g: Seq<u32>) -> bool {
    &&& g.len() == 81
    &&& forall|i: int| 0 <= i < 81 ==> #[trigger] g[i] <= 9
}

/// The units of the board are numbered 0 to 26: the rows from top to bottom,
/// then the columns from left to right, then the nine 3x3 cells row by row.
pub open spec fn row_unit(y: int) -> int {
    y
}

/// The number of the unit that is column `x`.
pub open spec fn column_unit(x: int) -> int {
    9 + x
}

/// The number of the unit that is the 3x3 cell holding the square at column
/// `x`, row `y`.
pub open spec fn cell_unit(x: int, y: int) -> int {
    18 + x / 3 + 3 * (y / 3)
}

/// The board position of the `k`-th of the nine squares of unit `u`.
pub open spec fn unit_square(u: int, k: int) -> int {
    if u < 9 {
        square(k, u)
    } else if u < 18 {
        square(u - 9, k)
    } else {
        square(3 * ((u - 18) % 3) + k % 3, 3 * ((u - 18) / 3) + k / 3)
    }
}

/// True if the square at board position `i` lies in unit `u`.
pub open spec fn in_unit(u: int, i: int) -> bool {
    if u < 9 {
        i / 9 == u
    } else if u < 18 {
        i % 9 == u - 9
    } else {
        cell_unit(i % 9, i / 9) == u
    }
}

/// Which of the nine squares of unit `u` the square at board position `i` is.
pub open spec fn unit_position(u: int, i: int) -> int {
    if u < 9 {
        i % 9
    } else if u < 18 {
        i / 9
    } else {
        (i % 9) % 3 + 3 * ((i / 9) % 3)
    }
}

/// The nine squares of a unit lie on the board and in the unit, each at its
/// own position.
pub proof fn lemma_unit_square(u: int, k: int)
    requires
        0 <= u < 27,
        0 <= k < 9,
    ensures
        0 <= unit_square(u, k) < 81,
        in_unit(u, unit_square(u, k)),
        unit_position(u, unit_square(u, k)) == k,
{
    if u >= 18 {
        let x = 3 * ((u - 18) % 3) + k % 3;
        let y = 3 * ((u - 18) / 3) + k / 3;
        let i = x + 9 * y;
        assert(i % 9 == x && i / 9 == y);
        assert(x / 3 == (u - 18) % 3 && x % 3 == k % 3);
        assert(y / 3 == (u - 18) / 3 && y % 3 == k / 3);
    }
}

/// A square of the board that lies in a unit is one of its nine squares.
pub proof fn lemma_unit_position(u: int, i: int)
    requires
        0 <= u < 27,
        0 <= i < 81,
        in_unit(u, i),
    ensures
        0 <= unit_position(u, i) < 9,
        unit_square(u, unit_position(u, i)) == i,
{
    if u >= 18 {
        let x = i % 9;
        let y = i / 9;
        let k = x % 3 + 3 * (y % 3);
        assert(k % 3 == x % 3 && k / 3 == y % 3);
        assert((u - 18) % 3 == x / 3 && (u - 18) / 3 == y / 3);
    }
}

/// Every square lies in its row, in its column and in its 3x3 cell.
pub proof fn lemma_own_units(i: int)
    requires
        0 <= i < 81,
    ensures
        in_unit(row_unit(i / 9), i),
        in_unit(column_unit(i % 9), i),
        in_unit(cell_unit(i % 9, i / 9), i),
        0 <= row_unit(i / 9) < 9,
        9 <= column_unit(i % 9) < 18,
        18 <= cell_unit(i % 9, i / 9) < 27,
{
}

/// True if some square of unit `u` holds the value `d`.
pub open spec fn unit_holds(g: Seq<u32>, u: int, d: int) -> bool {
    exists|k: int| 0 <= k < 9 && g[#[trigger] unit_square(u, k)] == d
}

/// Among the first `k + 1` squares of a unit are the first `k` and the `k`-th.
proof fn lemma_seen_one_more(g: Seq<u32>, u: int, k: int, d: int)
    requires
        0 <= k,
    ensures
        (exists|j: int| 0 <= j < k + 1 && g[#[trigger] unit_square(u, j)] == d) == ((exists|j: int|
            0 <= j < k && g[#[trigger] unit_square(u, j)] == d) || g[unit_square(u, k)] == d),
{
    if exists|j: int| 0 <= j < k + 1 && g[#[trigger] unit_square(u, j)] == d {
        let j = choose|j: int| 0 <= j < k + 1 && g[#[trigger] unit_square(u, j)] == d;
        if j < k {
            assert(0 <= j < k && g[unit_square(u, j)] == d);
        }
    }
    if g[unit_square(u, k)] == d {
        assert(0 <= k < k + 1 && g[unit_square(u, k)] == d);
    }
}

/// True if no value but 0 occurs twice in unit `u`.
pub open spec fn unit_distinct(g: Seq<u32>, u: int) -> bool {
    forall|j: int, k: int|
        0 <= j < 9 && 0 <= k < 9 && j != k && g[#[trigger] unit_square(u, j)] != 0 ==> g[unit_square(
            u,
            j,
        )] != g[#[trigger] unit_square(u, k)]
}

/// True if no row holds a value but 0 twice.
pub open spec fn rows_distinct(g: Seq<u32>) -> bool {
    forall|y: int| 0 <= y < 9 ==> unit_distinct(g, #[trigger] row_unit(y))
}

/// True if no column holds a value but 0 twice.
pub open spec fn columns_distinct(g: Seq<u32>) -> bool {
    forall|x: int| 0 <= x < 9 ==> unit_distinct(g, #[trigger] column_unit(x))
}

/// True if no 3x3 cell holds a value but 0 twice.
pub open spec fn cells_distinct(g: Seq<u32>) -> bool {
    forall|u: int| 18 <= u < 27 ==> #[trigger] unit_distinct(g, u)
}

/// A board is valid when no row, column or 3x3 cell holds a value but 0 twice.
pub open spec fn is_valid_board(g: Seq<u32>) -> bool {
    rows_distinct(g) && columns_distinct(g) && cells_distinct(g)
}

/// The positions below `end` at which the board holds `value`.
pub open spec fn positions_below(g: Seq<u32>, value: u32, end: int) -> Set<int> {
    Set::new(|i: int| 0 <= i < end && i < g.len() && g[i] == value)
}

/// The positions at which the board holds `value`.
pub open spec fn positions_of(g: Seq<u32>, value: u32) -> Set<int> {
    positions_below(g, value, g.len() as int)
}

/// True if some square of the board is empty.
pub open spec fn has_empty(g: Seq<u32>) -> bool {
    exists|i: int| 0 <= i < g.len() && #[trigger] g[i] == 0
}

/// A board is solved when it is valid and no square is empty.
pub open spec fn is_solved_board(g: Seq<u32>) -> bool {
    is_valid_board(g) && !has_empty(g)
}

/// The positions below `end` that hold a value are finitely many, and one
/// more position adds at most itself.
pub proof fn lemma_positions_below(g: Seq<u32>, value: u32, end: int)
    requires
        0 <= end <= g.len(),
    ensures
        positions_below(g, value, end).finite(),
        positions_below(g, value, end).len() <= end,
        end < g.len() ==> positions_below(g, value, end + 1) == if g[end] == value {
            positions_below(g, value, end).insert(end)
        } else {
            positions_below(g, value, end)
        },
        end < g.len() ==> positions_below(g, value, end + 1).len() == positions_below(
            g,
            value,
            end,
        ).len() + if g[end] == value {
            1int
        } else {
            0int
        },
    decreases end,
{
    if end == 0 {
        assert(positions_below(g, value, 0) =~= Set::<int>::empty());
    } else {
        lemma_positions_below(g, value, end - 1);
    }
    if end < g.len() {
        if g[end] == value {
            assert(positions_below(g, value, end + 1) =~= positions_below(g, value, end).insert(
                end,
            ));
        } else {
            assert(positions_below(g, value, end + 1) =~= positions_below(g, value, end));
        }
    }
}

/// True if both coordinates name a column and a row of the grid.
pub fn validate_coordinates(x: usize, y: usize) -> (ok: bool)
    ensures
        ok == (x <= 8 && y <= 8),
{
    x <= 8 && y <= 8
}

/// True if the value may be stored in a square.
pub fn validate_value(value: u32) -> (ok: bool)
    ensures
        ok == (value <= 9),
{
    value <= 9
}

/// A Sudoku grid
///
/// Holds a 9 x 9 grid of squares containing values ranging from 0 to 9. A
/// value of 0 means that the square is considered empty.
///
/// Each square in the grid is uniquely identified by a pair of x and y
/// coordinates ranging from 0 to 8 each. The point of origin (x = 0, y = 0) is
/// in the top left corner. The x axis signifies horizontal offset from the
/// origin, whereas the y axis signifies vertical offset.
#[derive(Clone, Copy, Debug, Eq, PartialEq)]
pub struct Sudoku {
    grid: [u32; NUM_SQUARES],
}

impl View for Sudoku {
    type V = Seq<u32>;

    /// The 81 values of the board, row by row.
    closed spec fn view(&self) -> Seq<u32> {
        self.grid@
    }
}

impl Sudoku {
    #[verifier::type_invariant]
    pub closed spec fn inv(&self) -> bool {
        is_board(self.grid@)
    }

    /// Every grid is a board.
    pub proof fn lemma_is_board(&self)
        requires
            self.inv(),
        ensures
            is_board(self@),
    {
    }

    /// Initialize a new Sudoku board from an array.
    ///
    /// If `i` is an index into the array, the value at `array[i]` will end up
    /// at the coordinates ( `x = i % 9` / `y = i / 9` ).
    pub fn new_from_array(array: [u32; NUM_SQUARES]) -> (sudoku: Sudoku)
        requires
            is_board(array@),
        ensures
            sudoku@ == array@,
    {
        Sudoku { grid: array }
    }

    /// Initialize a new empty Sudoku board.
    ///
    /// "Empty board" means that all squares contain a value of 0.
    pub fn new_empty() -> (sudoku: Sudoku)
        ensures
            sudoku@ == Seq::new(81, |i: int| 0u32),
    {
        let sudoku = Sudoku { grid: [0; NUM_SQUARES] };
        assert(sudoku@ =~= Seq::new(81, |i: int| 0u32));
        sudoku
    }

    /// The values of the 81 squares, row by row.
    pub(crate) fn values(&self) -> (values: &[u32; NUM_SQUARES])
        ensures
            values@ == self@,
    {
        &self.grid
    }

    /// Get the value at the given coordinates in the Sudoku grid.
    pub fn get_value(&self, x: usize, y: usize) -> (value: u32)
        requires
            x <= 8,
            y <= 8,
        ensures
            value == self@[square(x as int, y as int)],
            value <= 9,
    {
        proof {
            use_type_invariant(self);
        }
        self.grid[x + y * 9]
    }

    /// Set the value at the given coordinates in the Sudoku grid.
    pub fn set_value(&mut self, x: usize, y: usize, value: u32)
        requires
            x <= 8,
            y <= 8,
            value <= 9,
        ensures
            final(self)@ == old(self)@.update(square(x as int, y as int), value),
    {
        proof {
            use_type_invariant(&*self);
        }
        self.grid[x + y * 9] = value;
    }

    /// The board position of the `k`-th square of unit `u`.
    pub(crate) fn unit_square_index(u: usize, k: usize) -> (i: usize)
        requires
            u < 27,
            k < 9,
        ensures
            i == unit_square(u as int, k as int),
            i < 81,
    {
        if u < 9 {
            k + 9 * u
        } else if u < 18 {
            (u - 9) + 9 * k
        } else {
            (3 * ((u - 18) % 3) + k % 3) + 9 * (3 * ((u - 18) / 3) + k / 3)
        }
    }

    /// The digits that occur in unit `u`, as a mask.
    pub(crate) fn unit_digits(&self, u: usize) -> (mask: u32)
        requires
            u < 27,
        ensures
            mask <= crate::bits::ALL_DIGITS,
            forall|d: int| has_digit(mask, d) == (1 <= d <= 9 && unit_holds(self@, u as int, d)),
    {
        proof {
            use_type_invariant(self);
            lemma_full_and_empty();
        }
        let mut mask: u32 = 0;
        for k in 0..9usize
            invariant
                u < 27,
                is_board(self@),
                self@ == self.grid@,
                mask <= crate::bits::ALL_DIGITS,
                forall|d: int|
                    has_digit(mask, d) == (1 <= d <= 9 && exists|j: int|
                        0 <= j < k && self@[#[trigger] unit_square(u as int, j)] == d),
        {
            let i = Self::unit_square_index(u, k);
            let value = self.grid[i];
            let ghost seen = mask;
            if value != 0 {
                proof {
                    lemma_with_digit(mask, value);
                }
                mask = mask | (1u32 << (value - 1));
            }
            assert forall|d: int|
                has_digit(mask, d) == (1 <= d <= 9 && exists|j: int|
                    0 <= j < k + 1 && self@[#[trigger] unit_square(u as int, j)] == d) by {
                lemma_seen_one_more(self@, u as int, k as int, d);
                assert(has_digit(mask, d) == (has_digit(seen, d) || (d != 0 && d == value)));
            }
        }
        mask
    }

    /// True if no value but 0 occurs twice in unit `u`.
    fn unit_is_distinct(&self, u: usize) -> (ok: bool)
        requires
            u < 27,
        ensures
            ok == unit_distinct(self@, u as int),
    {
        proof {
            use_type_invariant(self);
            lemma_full_and_empty();
        }
        let mut bit_flags: u32 = 0;
        for k in 0..9usize
            invariant
                u < 27,
                is_board(self@),
                self@ == self.grid@,
                forall|d: int|
                    has_digit(bit_flags, d) == (1 <= d <= 9 && exists|j: int|
                        0 <= j < k && self@[#[trigger] unit_square(u as int, j)] == d),
                forall|i: int, j: int|
                    0 <= i < k && 0 <= j < k && i != j && self@[#[trigger] unit_square(u as int, i)]
                        != 0 ==> self@[unit_square(u as int, i)] != self@[#[trigger] unit_square(
                        u as int,
                        j,
                    )],
        {
            let value = self.grid[Self::unit_square_index(u, k)];
            let ghost seen = bit_flags;
            // Zeros can just be ignored, empty squares don't matter here.
            if value != 0 {
                if (bit_flags >> (value - 1)) & 1 == 1 {
                    proof {
                        assert(has_digit(bit_flags, value as int));
                        let j = choose|j: int|
                            0 <= j < k && self@[#[trigger] unit_square(u as int, j)] == value;
                        assert(self@[unit_square(u as int, j)] == self@[unit_square(
                            u as int,
                            k as int,
                        )]);
                    }
                    return false;
                }
                proof {
                    lemma_with_digit(bit_flags, value);
                    assert(!has_digit(bit_flags, value as int));
                }
                bit_flags = bit_flags | (1u32 << (value - 1));
            }
            assert forall|d: int|
                has_digit(bit_flags, d) == (1 <= d <= 9 && exists|j: int|
                    0 <= j < k + 1 && self@[#[trigger] unit_square(u as int, j)] == d) by {
                lemma_seen_one_more(self@, u as int, k as int, d);
                assert(has_digit(bit_flags, d) == (has_digit(seen, d) || (d != 0 && d == value)));
            }
        }
        true
    }

    /// True if this [Sudoku] grid has no duplicate values within any
    /// horizontal line.
    pub fn fulfills_horizontal_condition(&self) -> (ok: bool)
        ensures
            ok == rows_distinct(self@),
    {
        for y in 0..9usize
            invariant
                forall|r: int| 0 <= r < y ==> unit_distinct(self@, #[trigger] row_unit(r)),
        {
            if !self.unit_is_distinct(y) {
                assert(!unit_distinct(self@, row_unit(y as int)));
                return false;
            }
        }
        true
    }

    /// True if this [Sudoku] grid has no duplicate values within any vertical
    /// line.
    pub fn fulfills_vertical_condition(&self) -> (ok: bool)
        ensures
            ok == columns_distinct(self@),
    {
        for x in 0..9usize
            invariant
                forall|c: int| 0 <= c < x ==> unit_distinct(self@, #[trigger] column_unit(c)),
        {
            if !self.unit_is_distinct(9 + x) {
                assert(!unit_distinct(self@, column_unit(x as int)));
                return false;
            }
        }
        true
    }

    /// True if this [Sudoku] grid has no duplicate values within any of the 9
    /// 3x3 cells.
    pub fn fulfills_in_3x3_cell_condition(&self) -> (ok: bool)
        ensures
            ok == cells_distinct(self@),
    {
        for x_cell in 0..3usize
            invariant
                forall|u: int|
                    18 <= u < 27 && (u - 18) % 3 < x_cell ==> #[trigger] unit_distinct(self@, u),
        {
            for y_cell in 0..3usize
                invariant
                    x_cell < 3,
                    forall|u: int|
                        18 <= u < 27 && ((u - 18) % 3 < x_cell || ((u - 18) % 3 == x_cell && (u
                            - 18) / 3 < y_cell)) ==> #[trigger] unit_distinct(self@, u),
            {
                if !self.unit_is_distinct(18 + x_cell + 3 * y_cell) {
                    return false;
                }
            }
        }
        true
    }

    /// Check if this [Sudoku] is valid.
    ///
    /// A [Sudoku] is considered valid if it contains no duplicate values
    /// within any row, column or any of the 9 3x3 cells.
    ///
    /// IMPORTANT: Valid does not imply solvable, a [Sudoku] may well be valid
    /// but unsolvable. To check for solvability see [Sudoku::is_solvable()].
    pub fn is_valid(&self) -> (valid: bool)
        ensures
            valid == is_valid_board(self@),
    {
        self.fulfills_horizontal_condition() && self.fulfills_vertical_condition()
            && self.fulfills_in_3x3_cell_condition()
    }

    /// True if this [Sudoku] has any empty squares.
    pub fn has_empty_squares(&self) -> (has: bool)
        ensures
            has == has_empty(self@),
    {
        proof {
            use_type_invariant(self);
        }
        for i in 0..NUM_SQUARES
            invariant
                self@ == self.grid@,
                self@.len() == 81,
                forall|j: int| 0 <= j < i ==> #[trigger] self@[j] != 0,
        {
            if self.grid[i] == 0 {
                return true;
            }
        }
        false
    }

    /// Get the number of empty squares on this [Sudoku] grid.
    ///
    /// This does the same as calling [Sudoku::num_occurrences_of()] with an argument of
    /// `0`.
    pub fn num_empty_squares(&self) -> (count: usize)
        ensures
            count == positions_of(self@, 0).len(),
            count <= 81,
            (count == 0) == !has_empty(self@),
    {
        let count = self.num_occurrences_of(0);
        proof {
            use_type_invariant(self);
            lemma_positions_below(self@, 0, 81);
            if has_empty(self@) {
                let i = choose|i: int| 0 <= i < self@.len() && #[trigger] self@[i] == 0;
                assert(positions_of(self@, 0).contains(i));
            } else if count != 0 {
                let i = positions_of(self@, 0).choose();
                assert(positions_of(self@, 0).contains(i));
                assert(self@[i] == 0);
            }
        }
        count
    }

    /// Get the number of squares on this [Sudoku] grid that contain a certain
    /// value.
    pub fn num_occurrences_of(&self, value: u32) -> (count: usize)
        requires
            value <= 9,
        ensures
            count == positions_of(self@, value).len(),
            count <= 81,
    {
        proof {
            use_type_invariant(self);
            lemma_positions_below(self@, value, 0);
        }
        let mut count: usize = 0;
        for i in 0..NUM_SQUARES
            invariant
                self@ == self.grid@,
                self@.len() == 81,
                count == positions_below(self@, value, i as int).len(),
                count <= i,
        {
            proof {
                lemma_positions_below(self@, value, i as int);
            }
            if self.grid[i] == value {
                count += 1;
            }
        }
        count
    }

    /// Check if this [Sudoku] is solved.
    ///
    /// A Sudoku grid is considered solved if it has no empty squares and
    /// contains no duplicate values within any row, column or any of the 9 3x3
    /// cells.
    pub fn is_solved(&self) -> (solved: bool)
        ensures
            solved == is_solved_board(self@),
    {
        !self.has_empty_squares() && self.is_valid()
    }
}

} // verus!
