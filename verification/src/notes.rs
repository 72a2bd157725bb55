//! Notes on which values may still be placed in a square, for one square and
//! for the whole grid.

use crate::bits::{
    all_digits, count_digits, digit_set, lemma_common_digits, lemma_digit_set,
    lemma_full_and_empty, lemma_with_digit, lemma_without_digit, ALL_DIGITS,
};
use crate::grid::{square, NUM_SQUARES};
use vstd::prelude::*;

verus! {

/// The least value above `after`, and at most 9, that the set holds.
pub open spec fn next_possible(values: Set<int>, after: int) -> Option<int>
    decreases 9 - after,
{
    if after >= 9 {
        None
    } else if values.contains(after + 1) {
        Some(after + 1)
    } else {
        next_possible(values, after + 1)
    }
}

/// `next_possible` finds a member of the set above `after`, passes over no
/// member on its way, and finds none only where there is none.
pub proof fn lemma_next_possible(values: Set<int>, after: int)
    ensures
        match next_possible(values, after) {
            Some(d) => after < d <= 9 && values.contains(d) && forall|e: int|
                after < e < d ==> !values.contains(e),
            None => forall|e: int| after < e <= 9 ==> !values.contains(e),
        },
    decreases 9 - after,
{
    if after < 9 && !values.contains(after + 1) {
        lemma_next_possible(values, after + 1);
    }
}

/// The notes of a grid in which every value is possible in every square.
pub open spec fn fresh_notes() -> Seq<Set<int>> {
    Seq::new(81, |i: int| all_digits())
}

/// Remember all values that may still be possible for a specific square.
///
/// The note is the set of those values, kept as a mask together with the
/// number of values in it.
///
/// See also [NotesGrid].
#[derive(Clone, Copy, Debug, Eq, PartialEq)]
pub struct SudokuNote {
    notes_flags: u32,
    num_values_possible: u32,
}

impl View for SudokuNote {
    type V = Set<int>;

    /// The values that are still possible.
    closed spec fn view(&self) -> Set<int> {
        digit_set(self.notes_flags)
    }
}

impl SudokuNote {
    #[verifier::type_invariant]
    pub closed spec fn inv(&self) -> bool {
        &&& self.notes_flags <= ALL_DIGITS
        &&& self.num_values_possible == digit_set(self.notes_flags).len()
    }

    /// A note holds finitely many values, all of them from 1 to 9.
    pub proof fn lemma_values(&self)
        ensures
            self@.finite(),
            self@.len() <= 9,
            forall|d: int| self@.contains(d) ==> 1 <= d <= 9,
    {
        lemma_digit_set(self.notes_flags);
    }

    /// Make the note of the values that `mask` holds.
    fn from_mask(mask: u32) -> (note: SudokuNote)
        requires
            mask <= ALL_DIGITS,
        ensures
            note@ == digit_set(mask),
    {
        SudokuNote { notes_flags: mask, num_values_possible: count_digits(mask) }
    }

    /// Initialize a new SudokuNote. It will assume that all values are still
    /// possible in the square it represents.
    pub fn new_with_all_values_possible() -> (note: SudokuNote)
        ensures
            note@ == all_digits(),
    {
        proof {
            lemma_full_and_empty();
            lemma_digit_set(ALL_DIGITS);
            assert(digit_set(ALL_DIGITS) =~= all_digits());
            lemma_nine_digits();
        }
        SudokuNote { notes_flags: ALL_DIGITS, num_values_possible: 9 }
    }

    /// Check if a certain value can still possibly be placed in the square
    /// corresponding to this [SudokuNote].
    pub fn is_value_possible(&self, value: u32) -> (possible: bool)
        requires
            1 <= value <= 9,
        ensures
            possible == self@.contains(value as int),
    {
        proof {
            let flags = self.notes_flags;
            let s = (value - 1) as u32;
            assert(((flags >> s) & 1 != 0) == ((flags >> s) & 1 == 1)) by (bit_vector);
        }
        (self.notes_flags >> (value - 1)) & 1 != 0
    }

    /// Get how many values can still possibly be placed in the square
    /// corresponding to this [SudokuNote].
    pub fn num_values_possible(&self) -> (count: u32)
        ensures
            count == self@.len(),
            count <= 9,
    {
        proof {
            use_type_invariant(self);
            lemma_digit_set(self.notes_flags);
        }
        self.num_values_possible
    }

    /// Get a traversal of all the values that can still possibly be placed
    /// in the square corresponding to this [SudokuNote].
    ///
    /// The traversal returns the values in ascending order. Each call starts
    /// a traversal of its own.
    pub fn possible_values(&self) -> (values: SudokuNoteIter<'_>)
        ensures
            values.position() == 0,
            values.note() == self@,
            is_note(values.note()),
    {
        SudokuNoteIter::new(self)
    }

    /// Note that `value` is possible, or that it is not. The count of the
    /// possible values follows the change of the mask.
    pub fn note(&mut self, value: u32, possible: bool)
        requires
            1 <= value <= 9,
        ensures
            final(self)@ == if possible {
                old(self)@.insert(value as int)
            } else {
                old(self)@.remove(value as int)
            },
    {
        proof {
            use_type_invariant(&*self);
            lemma_with_digit(self.notes_flags, value);
            lemma_without_digit(self.notes_flags, value);
            lemma_digit_set(self.notes_flags);
        }
        let before = self.notes_flags;
        let bit = 1u32 << (value - 1);
        let after = if possible {
            before | bit
        } else {
            before & !bit
        };
        let was_set = before & bit != 0;
        let is_set = after & bit != 0;
        proof {
            lemma_bit_test(before, value);
            lemma_bit_test(after, value);
            if possible {
                assert(digit_set(after) =~= digit_set(before).insert(value as int));
            } else {
                assert(digit_set(after) =~= digit_set(before).remove(value as int));
            }
        }
        let count = if is_set && !was_set {
            self.num_values_possible + 1
        } else if was_set && !is_set {
            self.num_values_possible - 1
        } else {
            assert(digit_set(after) =~= digit_set(before));
            self.num_values_possible
        };
        *self = SudokuNote { notes_flags: after, num_values_possible: count };
    }

    /// Keep of the possible values only those that `mask` holds.
    pub(crate) fn retain(&mut self, mask: u32)
        ensures
            final(self)@ == old(self)@.intersect(digit_set(mask)),
    {
        proof {
            use_type_invariant(&*self);
            lemma_common_digits(self.notes_flags, mask);
            assert(digit_set(self.notes_flags & mask) =~= digit_set(self.notes_flags).intersect(
                digit_set(mask),
            ));
        }
        *self = SudokuNote::from_mask(self.notes_flags & mask);
    }

    /// Reset this note to a state where every value could possibly be placed
    /// in the corresponding sudoku square.
    pub fn reset_to_all_values_possible(&mut self)
        ensures
            final(self)@ == all_digits(),
    {
        *self = SudokuNote::new_with_all_values_possible();
    }
}

/// There are nine digits.
pub proof fn lemma_nine_digits()
    ensures
        all_digits().finite(),
        all_digits().len() == 9,
{
    lemma_full_and_empty();
    lemma_digit_set(ALL_DIGITS);
    assert(digit_set(ALL_DIGITS) =~= all_digits());
    reveal_with_fuel(crate::bits::digits_up_to, 10);
}

/// Testing a mask against the bit of a digit tells whether it holds the digit.
proof fn lemma_bit_test(mask: u32, value: u32)
    requires
        1 <= value <= 9,
    ensures
        (mask & (1u32 << ((value - 1) as u32)) != 0) == crate::bits::has_digit(mask, value as int),
{
    let s = (value - 1) as u32;
    assert((mask & (1u32 << s) != 0) == ((mask >> s) & 1 == 1)) by (bit_vector)
        requires
            s < 9,
    ;
}

/// The traversal returned by [SudokuNote::possible_values()].
pub struct SudokuNoteIter<'a> {
    position: u32,
    note: &'a SudokuNote,
}

impl<'a> SudokuNoteIter<'a> {
    /// The value that the traversal has reached: it goes on above it.
    pub closed spec fn position(&self) -> int {
        self.position as int
    }

    /// The set of values that is traversed.
    pub closed spec fn note(&self) -> Set<int> {
        self.note@
    }

    /// A traversal stands at no value below 0, and the values that it
    /// traverses are finitely many values from 1 to 9.
    pub proof fn lemma_bounds(&self)
        ensures
            0 <= self.position(),
            is_note(self.note()),
    {
        self.note.lemma_values();
    }

    /// Start a traversal below the value 1.
    pub fn new(note: &'a SudokuNote) -> (values: SudokuNoteIter<'a>)
        ensures
            values.position() == 0,
            values.note() == note@,
            is_note(values.note()),
    {
        proof {
            note.lemma_values();
        }
        SudokuNoteIter { position: 0, note: note }
    }

    /// Move on to the next possible value and return it, or return `None`
    /// when no value above the current position is possible.
    ///
    /// The value returned is the least possible value above the position
    /// that the traversal had, and the traversal then stands at it.
    pub fn next(&mut self) -> (value: Option<u32>)
        ensures
            final(self).note() == old(self).note(),
            is_note(final(self).note()),
            0 <= old(self).position() <= final(self).position(),
            match value {
                Some(found) => {
                    &&& 1 <= found <= 9
                    &&& next_possible(old(self).note(), old(self).position()) == Some(found as int)
                    &&& final(self).position() == found
                },
                None => {
                    &&& next_possible(old(self).note(), old(self).position()).is_none()
                    &&& final(self).position() >= 9
                },
            },
    {
        proof {
            self.lemma_bounds();
        }
        while self.position < 9
            invariant
                self.note() == old(self).note(),
                is_note(self.note()),
                old(self).position() <= self.position(),
                next_possible(self.note(), self.position()) == next_possible(
                    old(self).note(),
                    old(self).position(),
                ),
            decreases 9 - self.position,
        {
            self.position += 1;
            if self.note.is_value_possible(self.position) {
                return Some(self.position);
            }
        }
        None
    }
}

/// A collection of [SudokuNote]s that resembles the grid of a [Sudoku].
///
/// This makes it very simple to associate a [Sudoku] square with a
/// corresponding [SudokuNote] as both can be uniquely identified by a pair of
/// x and y coordinates.
///
/// [Sudoku]: crate::grid::Sudoku
#[derive(Clone, Copy, Debug, Eq, PartialEq)]
pub struct NotesGrid {
    grid: [SudokuNote; NUM_SQUARES],
}

impl View for NotesGrid {
    type V = Seq<Set<int>>;

    /// The possible values of the 81 squares, row by row.
    closed spec fn view(&self) -> Seq<Set<int>> {
        Seq::new(81, |i: int| self.grid@[i]@)
    }
}

impl NotesGrid {
    /// The notes of a grid are 81 finite sets of values from 1 to 9.
    pub proof fn lemma_notes(&self)
        ensures
            is_notes(self@),
    {
        assert forall|i: int| 0 <= i < 81 implies is_note(#[trigger] self@[i]) by {
            self.grid@[i].lemma_values();
        }
    }

    /// Initialize a new [NotesGrid].
    ///
    /// Set all [SudokuNote]s to a state where all values are still possible.
    pub fn new() -> (notes: NotesGrid)
        ensures
            notes@ == fresh_notes(),
    {
        let notes = NotesGrid { grid: [SudokuNote::new_with_all_values_possible(); NUM_SQUARES] };
        assert(notes@ =~= fresh_notes());
        notes
    }

    /// Borrow the [SudokuNote] for the square at position (`x` / `y`).
    pub fn get_note(&self, x: usize, y: usize) -> (note: &SudokuNote)
        requires
            x <= 8,
            y <= 8,
        ensures
            note@ == self@[square(x as int, y as int)],
    {
        &self.grid[x + y * 9]
    }

    /// Get a mutable borrow of the [SudokuNote] for the square at position
    /// (`x` / `y`).
    pub fn get_note_mut(&mut self, x: usize, y: usize) -> (note: &mut SudokuNote)
        requires
            x <= 8,
            y <= 8,
        ensures
            note@ == old(self)@[square(x as int, y as int)],
            final(self)@ == old(self)@.update(square(x as int, y as int), final(note)@),
    {
        &mut self.grid[x + y * 9]
    }

    /// Reset the [NotesGrid] to the state generated by [NotesGrid::new()].
    pub fn reset(&mut self)
        ensures
            final(self)@ == fresh_notes(),
    {
        for i in 0..NUM_SQUARES
            invariant
                forall|j: int| 0 <= j < i ==> (#[trigger] self.grid@[j])@ == all_digits(),
        {
            self.grid[i].reset_to_all_values_possible();
        }
        assert(self@ =~= fresh_notes());
    }
}

/// A note is a finite set of values from 1 to 9.
pub open spec fn is_note(values: Set<int>) -> bool {
    values.finite() && forall|d: int| values.contains(d) ==> 1 <= d <= 9
}

/// The notes of a grid are 81 notes.
pub open spec fn is_notes(n: Seq<Set<int>>) -> bool {
    n.len() == 81 && forall|i: int| 0 <= i < 81 ==> is_note(#[trigger] n[i])
}

} // verus!
