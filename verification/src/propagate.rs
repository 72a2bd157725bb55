//! Deduction on a grid: noting which values the filled squares leave possible
//! in the others, and filling the squares in which a single value is left.

use crate::bits::{complement, digit_set};
use crate::grid::{
    cell_unit, column_unit, in_unit, is_board, lemma_positions_below,
    lemma_unit_position, lemma_unit_square, positions_of, row_unit, square, unit_holds,
    unit_position, Sudoku,
};
use crate::notes::{is_note, is_notes, lemma_next_possible, next_possible, NotesGrid};
use vstd::prelude::*;

verus! {

/// The values from 1 to 9 that no square of unit `u` holds.
pub open spec fn free_in(g: Seq<u32>, u: int) -> Set<int> {
    Set::new(|d: int| 1 <= d <= 9 && !unit_holds(g, u, d))
}

/// The values from 1 to 9 that occur neither in the column, nor in the row,
/// nor in the 3x3 cell of the square at board position `i`.
pub open spec fn candidates(g: Seq<u32>, i: int) -> Set<int> {
    free_in(g, column_unit(i % 9)).intersect(free_in(g, row_unit(i / 9))).intersect(
        free_in(g, cell_unit(i % 9, i / 9)),
    )
}

/// The notes `n` narrowed by the columns of `g`.
pub open spec fn column_notes(n: Seq<Set<int>>, g: Seq<u32>) -> Seq<Set<int>> {
    Seq::new(n.len(), |i: int| n[i].intersect(free_in(g, column_unit(i % 9))))
}

/// The notes `n` narrowed by the rows of `g`.
pub open spec fn row_notes(n: Seq<Set<int>>, g: Seq<u32>) -> Seq<Set<int>> {
    Seq::new(n.len(), |i: int| n[i].intersect(free_in(g, row_unit(i / 9))))
}

/// The notes `n` narrowed by the 3x3 cells of `g`.
pub open spec fn cell_notes(n: Seq<Set<int>>, g: Seq<u32>) -> Seq<Set<int>> {
    Seq::new(n.len(), |i: int| n[i].intersect(free_in(g, cell_unit(i % 9, i / 9))))
}

/// The notes `n` narrowed by all units of `g`: in each square the values
/// stay that were noted and are candidates.
pub open spec fn propagated(n: Seq<Set<int>>, g: Seq<u32>) -> Seq<Set<int>> {
    Seq::new(n.len(), |i: int| n[i].intersect(candidates(g, i)))
}

/// Narrowing by the columns, then the rows, then the 3x3 cells narrows by
/// all units.
pub proof fn lemma_propagated(n: Seq<Set<int>>, g: Seq<u32>)
    ensures
        cell_notes(row_notes(column_notes(n, g), g), g) == propagated(n, g),
{
    let left = cell_notes(row_notes(column_notes(n, g), g), g);
    assert forall|i: int| 0 <= i < n.len() implies #[trigger] left[i] == propagated(n, g)[i] by {
        assert(left[i] =~= propagated(n, g)[i]);
    }
    assert(left =~= propagated(n, g));
}

/// Strike the values that occur in unit `u` from the notes of its squares.
fn strike_unit(notes: &mut NotesGrid, sudoku: &Sudoku, u: usize)
    requires
        u < 27,
    ensures
        final(notes)@.len() == 81,
        forall|i: int|
            0 <= i < 81 ==> #[trigger] final(notes)@[i] == if in_unit(u as int, i) {
                old(notes)@[i].intersect(free_in(sudoku@, u as int))
            } else {
                old(notes)@[i]
            },
{
    let notes_mask = complement(sudoku.unit_digits(u));
    proof {
        notes.lemma_notes();
        assert(digit_set(notes_mask) =~= free_in(sudoku@, u as int));
    }
    for k in 0..9usize
        invariant
            u < 27,
            notes@.len() == 81,
            digit_set(notes_mask) == free_in(sudoku@, u as int),
            forall|i: int|
                0 <= i < 81 ==> #[trigger] notes@[i] == if in_unit(u as int, i) && unit_position(
                    u as int,
                    i,
                ) < k {
                    old(notes)@[i].intersect(free_in(sudoku@, u as int))
                } else {
                    old(notes)@[i]
                },
    {
        let i = Sudoku::unit_square_index(u, k);
        let ghost before = notes@;
        proof {
            lemma_unit_square(u as int, k as int);
        }
        notes.get_note_mut(i % 9, i / 9).retain(notes_mask);
        proof {
            assert(square((i % 9) as int, (i / 9) as int) == i);
            assert forall|j: int| 0 <= j < 81 implies #[trigger] notes@[j] == if in_unit(
                u as int,
                j,
            ) && unit_position(u as int, j) < k + 1 {
                old(notes)@[j].intersect(free_in(sudoku@, u as int))
            } else {
                old(notes)@[j]
            } by {
                if in_unit(u as int, j) {
                    lemma_unit_position(u as int, j);
                }
            }
        }
    }
}

/// Make vertical notes for every square in a [Sudoku].
///
/// After the call a value is noted as possible in a square if it was before
/// and does not occur in the column of the square.
pub fn make_vertical_notes(notes: &mut NotesGrid, sudoku: &Sudoku)
    ensures
        final(notes)@ == column_notes(old(notes)@, sudoku@),
{
    proof {
        notes.lemma_notes();
    }
    for x in 0..9usize
        invariant
            notes@.len() == 81,
            forall|i: int|
                0 <= i < 81 ==> #[trigger] notes@[i] == if i % 9 < x {
                    old(notes)@[i].intersect(free_in(sudoku@, column_unit(i % 9)))
                } else {
                    old(notes)@[i]
                },
    {
        strike_unit(notes, sudoku, 9 + x);
    }
    assert(notes@ =~= column_notes(old(notes)@, sudoku@));
}

/// Make horizontal notes for every square in a [Sudoku].
///
/// After the call a value is noted as possible in a square if it was before
/// and does not occur in the row of the square.
pub fn make_horizontal_notes(notes: &mut NotesGrid, sudoku: &Sudoku)
    ensures
        final(notes)@ == row_notes(old(notes)@, sudoku@),
{
    proof {
        notes.lemma_notes();
    }
    for y in 0..9usize
        invariant
            notes@.len() == 81,
            forall|i: int|
                0 <= i < 81 ==> #[trigger] notes@[i] == if i / 9 < y {
                    old(notes)@[i].intersect(free_in(sudoku@, row_unit(i / 9)))
                } else {
                    old(notes)@[i]
                },
    {
        strike_unit(notes, sudoku, y);
    }
    assert(notes@ =~= row_notes(old(notes)@, sudoku@));
}

/// Make notes in the 3x3 cell for every square in a [Sudoku].
///
/// After the call a value is noted as possible in a square if it was before
/// and does not occur in the 3x3 cell of the square.
pub fn make_in_cell_notes(notes: &mut NotesGrid, sudoku: &Sudoku)
    ensures
        final(notes)@ == cell_notes(old(notes)@, sudoku@),
{
    proof {
        notes.lemma_notes();
    }
    for cell_y in 0..3usize
        invariant
            notes@.len() == 81,
            forall|i: int|
                0 <= i < 81 ==> #[trigger] notes@[i] == if cell_unit(i % 9, i / 9) < 18 + 3
                    * cell_y {
                    old(notes)@[i].intersect(free_in(sudoku@, cell_unit(i % 9, i / 9)))
                } else {
                    old(notes)@[i]
                },
    {
        for cell_x in 0..3usize
            invariant
                cell_y < 3,
                notes@.len() == 81,
                forall|i: int|
                    0 <= i < 81 ==> #[trigger] notes@[i] == if cell_unit(i % 9, i / 9) < 18 + 3
                        * cell_y + cell_x {
                        old(notes)@[i].intersect(free_in(sudoku@, cell_unit(i % 9, i / 9)))
                    } else {
                        old(notes)@[i]
                    },
        {
            strike_unit(notes, sudoku, 18 + 3 * cell_y + cell_x);
        }
    }
    assert(notes@ =~= cell_notes(old(notes)@, sudoku@));
}

/// Check every square in the given [Sudoku] grid and remove all impossible
/// values from the given [NotesGrid].
///
/// After the call a value is noted as possible in a square if it was before
/// and occurs neither in the column, nor in the row, nor in the 3x3 cell of
/// the square. For an empty square these are the values that may be placed
/// in it without making the grid invalid.
pub fn make_all_notes(notes: &mut NotesGrid, sudoku: &Sudoku)
    ensures
        final(notes)@ == propagated(old(notes)@, sudoku@),
{
    make_vertical_notes(notes, sudoku);
    make_horizontal_notes(notes, sudoku);
    make_in_cell_notes(notes, sudoku);
    proof {
        lemma_propagated(old(notes)@, sudoku@);
    }
}

/// True if the square at board position `i` is empty and noted to admit
/// exactly one value.
pub open spec fn forced(g: Seq<u32>, n: Seq<Set<int>>, i: int) -> bool {
    g[i] == 0 && n[i].len() == 1
}

/// The board positions of the squares that are forced.
pub open spec fn forced_squares(g: Seq<u32>, n: Seq<Set<int>>) -> Set<int> {
    Set::new(|i: int| 0 <= i < g.len() && forced(g, n, i))
}

/// The board `g` after every forced square has received its one value.
pub open spec fn committed(g: Seq<u32>, n: Seq<Set<int>>) -> Seq<u32> {
    Seq::new(
        g.len(),
        |i: int|
            if forced(g, n, i) {
                n[i].choose() as u32
            } else {
                g[i]
            },
    )
}

/// True if the square at board position `i` comes before the square at
/// column `x`, row `y`, when the grid is walked column by column.
pub open spec fn walked(i: int, x: int, y: int) -> bool {
    i % 9 < x || (i % 9 == x && i / 9 < y)
}

/// Two members of a set of one element are equal.
pub proof fn lemma_single(values: Set<int>, a: int, b: int)
    requires
        values.finite(),
        values.len() == 1,
        values.contains(a),
        values.contains(b),
    ensures
        a == b,
{
    if a != b {
        assert(values.remove(a).contains(b));
    }
}

/// The forced squares are finitely many, and they are empty squares.
pub proof fn lemma_forced_squares(g: Seq<u32>, n: Seq<Set<int>>)
    ensures
        forced_squares(g, n).finite(),
        forced_squares(g, n).len() <= positions_of(g, 0).len(),
{
    lemma_positions_below(g, 0, g.len() as int);
    assert(forced_squares(g, n).subset_of(positions_of(g, 0)));
    vstd::set_lib::lemma_len_subset(forced_squares(g, n), positions_of(g, 0));
}

/// Replace all the empty squares in the [Sudoku] where only a single value is
/// possible based on the provided [NotesGrid] with that value.
///
/// Return the number of values newly written to the [Sudoku].
pub fn replace_notes_with_values(sudoku: &mut Sudoku, notes: &NotesGrid) -> (num_new_values: u32)
    ensures
        final(sudoku)@ == committed(old(sudoku)@, notes@),
        num_new_values == forced_squares(old(sudoku)@, notes@).len(),
{
    let mut num_new_values: u32 = 0;
    let ghost g = sudoku@;
    let ghost n = notes@;
    proof {
        use_type_invariant(&*sudoku);
        sudoku.lemma_is_board();
        notes.lemma_notes();
        assert(Set::new(|i: int| 0 <= i < 81 && walked(i, 0, 0) && forced(g, n, i))
            =~= Set::<int>::empty());
    }
    for x in 0..9usize
        invariant
            is_board(g),
            is_notes(n),
            n == notes@,
            sudoku@.len() == 81,
            forall|i: int|
                0 <= i < 81 ==> #[trigger] sudoku@[i] == if walked(i, x as int, 0) {
                    committed(g, n)[i]
                } else {
                    g[i]
                },
            Set::new(|i: int| 0 <= i < 81 && walked(i, x as int, 0) && forced(g, n, i)).finite(),
            num_new_values == Set::new(
                |i: int| 0 <= i < 81 && walked(i, x as int, 0) && forced(g, n, i),
            ).len(),
            num_new_values <= 9 * x,
    {
        for y in 0..9usize
            invariant
                x < 9,
                is_board(g),
                is_notes(n),
                n == notes@,
                sudoku@.len() == 81,
                forall|i: int|
                    0 <= i < 81 ==> #[trigger] sudoku@[i] == if walked(i, x as int, y as int) {
                        committed(g, n)[i]
                    } else {
                        g[i]
                    },
                Set::new(
                    |i: int| 0 <= i < 81 && walked(i, x as int, y as int) && forced(g, n, i),
                ).finite(),
                num_new_values == Set::new(
                    |i: int| 0 <= i < 81 && walked(i, x as int, y as int) && forced(g, n, i),
                ).len(),
                num_new_values <= 9 * x + y,
        {
            let ghost here = square(x as int, y as int);
            let ghost counted = Set::new(
                |i: int| 0 <= i < 81 && walked(i, x as int, y as int) && forced(g, n, i),
            );
            let ghost counted_next = Set::new(
                |i: int| 0 <= i < 81 && walked(i, x as int, y + 1) && forced(g, n, i),
            );
            let current_note = notes.get_note(x, y);
            // The second part of this expression is required because the
            // notes of squares that already contain a value may still allow
            // some possible values.
            if current_note.num_values_possible() == 1 && sudoku.get_value(x, y) == 0 {
                let mut values = current_note.possible_values();
                proof {
                    lemma_next_possible(n[here], 0);
                    if next_possible(n[here], 0).is_none() {
                        let d = n[here].choose();
                        assert(n[here].contains(d));
                    }
                }
                let certain_value = values.next().unwrap();
                proof {
                    lemma_single(n[here], certain_value as int, n[here].choose());
                }
                sudoku.set_value(x, y, certain_value);
                num_new_values += 1;
                assert(counted_next =~= counted.insert(here));
            } else {
                assert(counted_next =~= counted);
            }
        }
        assert(Set::new(|i: int| 0 <= i < 81 && walked(i, x as int, 9) && forced(g, n, i))
            =~= Set::new(|i: int| 0 <= i < 81 && walked(i, x + 1, 0) && forced(g, n, i)));
    }
    proof {
        assert(Set::new(|i: int| 0 <= i < 81 && walked(i, 9, 0) && forced(g, n, i))
            =~= forced_squares(g, n));
        assert(sudoku@ =~= committed(g, n));
    }
    num_new_values
}

/// The board and the notes after values have been noted and forced squares
/// filled, in turn, until no square is forced any more.
pub open spec fn advanced(g: Seq<u32>, n: Seq<Set<int>>) -> (Seq<u32>, Seq<Set<int>>)
    decreases positions_of(g, 0).len(),
    when n.len() == g.len()
    via advanced_decreases
{
    let noted = propagated(n, g);
    if forced_squares(g, noted).len() == 0 {
        (g, noted)
    } else {
        advanced(committed(g, noted), noted)
    }
}

#[via_fn]
proof fn advanced_decreases(g: Seq<u32>, n: Seq<Set<int>>) {
    let noted = propagated(n, g);
    if forced_squares(g, noted).len() != 0 {
        lemma_commit_fills(g, n);
    }
}

/// The values noted after a round of notes are candidates, so they are
/// finitely many values from 1 to 9.
pub proof fn lemma_propagated_notes(n: Seq<Set<int>>, g: Seq<u32>)
    ensures
        forall|i: int| 0 <= i < n.len() ==> is_note(#[trigger] propagated(n, g)[i]),
        n.len() == 81 ==> is_notes(propagated(n, g)),
{
    assert forall|i: int| 0 <= i < n.len() implies is_note(#[trigger] propagated(n, g)[i]) by {
        crate::notes::lemma_nine_digits();
        assert(candidates(g, i).subset_of(crate::bits::all_digits()));
        vstd::set_lib::lemma_len_subset(candidates(g, i), crate::bits::all_digits());
    }
}

/// Filling the forced squares after a round of notes leaves the filled
/// squares as they are, fills each forced square with a value from 1 to 9 and
/// leaves fewer squares empty, as many fewer as squares were forced.
pub proof fn lemma_commit_fills(g: Seq<u32>, n: Seq<Set<int>>)
    requires
        n.len() == g.len(),
    ensures
        ({
            let noted = propagated(n, g);
            let next = committed(g, noted);
            &&& next.len() == g.len()
            &&& forall|i: int| 0 <= i < g.len() && g[i] != 0 ==> #[trigger] next[i] == g[i]
            &&& forall|i: int|
                0 <= i < g.len() && forced(g, noted, i) ==> 1 <= #[trigger] next[i] <= 9
                    && noted[i].contains(next[i] as int)
            &&& positions_of(next, 0) == positions_of(g, 0).difference(forced_squares(g, noted))
            &&& positions_of(next, 0).len() + forced_squares(g, noted).len() == positions_of(
                g,
                0,
            ).len()
        }),
{
    let noted = propagated(n, g);
    let next = committed(g, noted);
    lemma_propagated_notes(n, g);
    lemma_forced_squares(g, noted);
    lemma_positions_below(g, 0, g.len() as int);
    assert forall|i: int| 0 <= i < g.len() && forced(g, noted, i) implies 1 <= #[trigger] next[i]
        <= 9 && noted[i].contains(next[i] as int) by {
        assert(noted[i].contains(noted[i].choose()));
    }
    assert(positions_of(next, 0) =~= positions_of(g, 0).difference(forced_squares(g, noted)));
    vstd::set_lib::lemma_set_difference_len(positions_of(g, 0), forced_squares(g, noted));
    assert(positions_of(g, 0).intersect(forced_squares(g, noted)) =~= forced_squares(g, noted));
}

/// Fill in all squares of a [Sudoku] that can be using a [NotesGrid].
///
/// Notes are made and forced squares are filled, in turn, until a round of
/// notes forces no further square.
pub fn advance_with_notes(sudoku_grid: &mut Sudoku, notes: &mut NotesGrid)
    ensures
        (final(sudoku_grid)@, final(notes)@) == advanced(old(sudoku_grid)@, old(notes)@),
{
    let mut num_changes: u32 = u32::MAX;
    proof {
        notes.lemma_notes();
        use_type_invariant(&*sudoku_grid);
        sudoku_grid.lemma_is_board();
    }
    while num_changes != 0
        invariant
            notes@.len() == 81,
            sudoku_grid@.len() == 81,
            num_changes != 0 ==> advanced(sudoku_grid@, notes@) == advanced(
                old(sudoku_grid)@,
                old(notes)@,
            ),
            num_changes == 0 ==> (sudoku_grid@, notes@) == advanced(
                old(sudoku_grid)@,
                old(notes)@,
            ),
        decreases
                positions_of(sudoku_grid@, 0).len() + if num_changes != 0 {
                    1int
                } else {
                    0int
                },
    {
        let ghost g = sudoku_grid@;
        let ghost n = notes@;
        make_all_notes(notes, sudoku_grid);
        num_changes = replace_notes_with_values(sudoku_grid, notes);
        proof {
            lemma_commit_fills(g, n);
            lemma_forced_squares(g, propagated(n, g));
            if num_changes == 0 {
                assert(committed(g, propagated(n, g)) =~= g) by {
                    assert forall|i: int| 0 <= i < 81 implies !forced(g, propagated(n, g), i) by {
                        if forced(g, propagated(n, g), i) {
                            assert(forced_squares(g, propagated(n, g)).contains(i));
                        }
                    }
                }
            }
        }
    }
}

/// True if some empty square of the board is noted to admit no value.
pub open spec fn dead_end(g: Seq<u32>, n: Seq<Set<int>>) -> bool {
    exists|i: int| 0 <= i < 81 && g[i] == 0 && (#[trigger] n[i]).len() == 0
}

/// Check if a [Sudoku] is a dead end based on an existing [NotesGrid].
///
/// A [Sudoku] is considered a dead end if there exists at least 1 square
/// on the grid that will result in an invalid [Sudoku] if any value is
/// inserted.
pub fn is_dead_end(sudoku_grid: &Sudoku, notes: &NotesGrid) -> (dead: bool)
    ensures
        dead == dead_end(sudoku_grid@, notes@),
{
    proof {
        notes.lemma_notes();
    }
    for x in 0..9usize
        invariant
            notes@.len() == 81,
            forall|i: int|
                0 <= i < 81 && i % 9 < x ==> !(sudoku_grid@[i] == 0 && (#[trigger] notes@[i]).len()
                    == 0),
    {
        for y in 0..9usize
            invariant
                x < 9,
                notes@.len() == 81,
                forall|i: int|
                    0 <= i < 81 && walked(i, x as int, y as int) ==> !(sudoku_grid@[i] == 0 && (
                    #[trigger] notes@[i]).len() == 0),
        {
            if notes.get_note(x, y).num_values_possible() == 0 && sudoku_grid.get_value(x, y)
                == 0 {
                return true;
            }
        }
    }
    false
}

} // verus!
