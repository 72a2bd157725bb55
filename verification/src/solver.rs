//! The solver: a traversal of the solutions of a puzzle, which deduces as
//! far as it can, then guesses, and goes back to its last guess when a
//! branch fails.

use crate::complete::{least_solution, theorem_finds_if_solvable};
use crate::grid::{square, Sudoku};
use crate::notes::{fresh_notes, lemma_next_possible, next_possible, NotesGrid};
use crate::propagate::{advance_with_notes, is_dead_end};
use crate::search::{
    change_at, changes_ok, first_empty, first_empty_from, first_solution, guess,
    lemma_changes_prefix,
    lemma_replayed, lemma_search_step, rank_left, replayed, search, search_ok, solves, Search,
    SearchState, ValueChange,
};
use vstd::prelude::*;

verus! {

/// The traversal returned by [Sudoku::find_all_solutions()] and the type that
/// does the actual solving of [Sudoku]s.
///
/// `sudoku_grid` is a reference to the [Sudoku] puzzle to be solved by the solver.
///
/// `changes_stack` is a record of what changes needed to be made to the
/// [Sudoku] to find the previous solution. This is required for the solver to
/// know where to continue the search.
pub struct AllSolutionsIterator<'a> {
    sudoku_grid: &'a Sudoku,
    changes_stack: Vec<ValueChange>,
    state: SearchState,
}

impl<'a> View for AllSolutionsIterator<'a> {
    type V = Search;

    closed spec fn view(&self) -> Search {
        Search { puzzle: self.sudoku_grid@, changes: self.changes_stack@, state: self.state }
    }
}

impl<'a> AllSolutionsIterator<'a> {
    /// Initialize a new [AllSolutionsIterator].
    ///
    /// Takes care of initializing `changes_stack`.
    pub fn new(sudoku_grid: &'a Sudoku) -> (solutions: AllSolutionsIterator<'a>)
        ensures
            solutions@ == Search::start(sudoku_grid@),
            solutions@.wf(),
    {
        // A capacity for `changes_stack` that is seldom exceeded: a change
        // fills a square that was empty, and the last few empty squares
        // are mostly filled by deduction.
        let num_empty_squares = sudoku_grid.num_empty_squares();
        let stack_capacity = if num_empty_squares > 3 {
            num_empty_squares - 3
        } else {
            0
        };
        proof {
            use_type_invariant(sudoku_grid);
            sudoku_grid.lemma_is_board();
        }
        AllSolutionsIterator {
            sudoku_grid,
            changes_stack: Vec::with_capacity(stack_capacity),
            state: SearchState::Exploring,
        }
    }

    /// The puzzle with the changes of the stack made on it.
    fn replay(&self) -> (sudoku_grid: Sudoku)
        requires
            changes_ok(self@.puzzle, self@.changes),
        ensures
            sudoku_grid@ == replayed(self@.puzzle, self@.changes),
    {
        let mut sudoku_grid = *self.sudoku_grid;
        let mut i: usize = 0;
        while i < self.changes_stack.len()
            invariant
                i <= self.changes_stack.len(),
                changes_ok(self@.puzzle, self@.changes),
                self@.changes == self.changes_stack@,
                sudoku_grid@ == replayed(self@.puzzle, self@.changes.take(i as int)),
            decreases self.changes_stack.len() - i,
        {
            let value_change = self.changes_stack[i];
            proof {
                lemma_changes_prefix(self@.puzzle, self@.changes, i as int);
            }
            sudoku_grid.set_value(value_change.x, value_change.y, value_change.value);
            i += 1;
        }
        assert(self@.changes.take(i as int) =~= self@.changes);
        sudoku_grid
    }

    /// Revert the last change made by the solver.
    ///
    /// Pop the last change off `changes_stack`, revert `sudoku_grid` and
    /// `notes` to the state before the last change and set `last_value` to the
    /// value of the last change.
    ///
    /// Return an Error if `changes_stack` is empty.
    fn revert_last_change(
        &mut self,
        sudoku_grid: &mut Sudoku,
        notes: &mut NotesGrid,
        last_value: &mut u32,
    ) -> (result: Result<(), &'static str>)
        requires
            changes_ok(old(self)@.puzzle, old(self)@.changes),
        ensures
            final(self)@.puzzle == old(self)@.puzzle,
            final(self)@.state == old(self)@.state,
            match result {
                Ok(_) => {
                    &&& old(self)@.changes.len() > 0
                    &&& final(self)@.changes == old(self)@.changes.drop_last()
                    &&& *final(last_value) == old(self)@.changes.last().value
                    &&& final(sudoku_grid)@ == replayed(
                        old(self)@.puzzle,
                        old(self)@.changes.drop_last(),
                    )
                    &&& final(notes)@ == fresh_notes()
                },
                Err(_) => {
                    &&& old(self)@.changes.len() == 0
                    &&& final(self)@.changes == old(self)@.changes
                    &&& *final(last_value) == *old(last_value)
                    &&& *final(sudoku_grid) == *old(sudoku_grid)
                    &&& *final(notes) == *old(notes)
                },
            },
    {
        let last_value_change = match self.changes_stack.pop() {
            Some(value_change) => value_change,
            None => return Err("stack empty"),
        };
        *last_value = last_value_change.value;
        *sudoku_grid = self.replay();
        notes.reset();

        Ok(())
    }

    /// Return the next solution of the puzzle, or `None` when there is no
    /// further one.
    ///
    /// No work is done before the first call. A call after the search is
    /// exhausted returns `None` again. Over the calls every solution of the
    /// puzzle is returned once, the least one first, when the grids are read
    /// row by row.
    pub fn next(&mut self) -> (solution: Option<Sudoku>)
        requires
            old(self)@.wf(),
        ensures
            final(self)@.wf(),
            final(self)@ == old(self)@.step().0,
            match solution {
                Some(sudoku) => {
                    &&& old(self)@.step().1 == Some(sudoku@)
                    &&& solves(sudoku@, old(self)@.puzzle)
                },
                None => old(self)@.step().1.is_none(),
            },
    {
        match self.state {
            SearchState::Exhausted => {
                return None;
            },
            SearchState::Found => {
                if self.changes_stack.len() == 0 {
                    self.state = SearchState::Exhausted;
                    return None;
                }
            },
            SearchState::Exploring => {},
        }
        let mut notes = NotesGrid::new();

        // `last_value` ensures that the solver will not just find the same
        // solution over and over again
        //
        // if this is the search for the first solution, set `last_value` to 0,
        // else remove the last value on the stack (otherwise the exact same
        // solution that was already found will be returned) and set last_value
        // to that value: the square of that change, which is the first
        // empty one again, is then tried with the values above it only
        let mut last_value = match self.changes_stack.pop() {
            Some(value_change) => value_change.value,
            None => 0,
        };
        let mut sudoku_grid = self.replay();
        let ghost puzzle = self@.puzzle;
        let ghost outcome = search(puzzle, sudoku_grid@, notes@, self@.changes, last_value as int);
        proof {
            lemma_replayed(puzzle, self@.changes);
            assert(search_ok(puzzle, sudoku_grid@, notes@, self@.changes, last_value as int));
            assert(old(self)@.step().1 == outcome.1);
            assert(old(self)@.step().0 == old(self)@.after(outcome));
        }
        loop
            invariant
                self@.puzzle == puzzle,
                self@.state == old(self)@.state,
                old(self)@.step().1 == outcome.1,
                old(self)@.step().0 == old(self)@.after(outcome),
                old(self)@.puzzle == puzzle,
                search_ok(puzzle, sudoku_grid@, notes@, self@.changes, last_value as int),
                search(puzzle, sudoku_grid@, notes@, self@.changes, last_value as int) == outcome,
            decreases rank_left(self@.changes, last_value as int),
        {
            proof {
                lemma_search_step(puzzle, sudoku_grid@, notes@, self@.changes, last_value as int);
            }
            advance_with_notes(&mut sudoku_grid, &mut notes);

            // advance_with_notes() does not guarantee that the grid it
            // produces is valid, so it has to be checked here
            if (!sudoku_grid.is_valid()) || is_dead_end(&sudoku_grid, &notes) {
                match self.revert_last_change(&mut sudoku_grid, &mut notes, &mut last_value) {
                    Ok(_) => {
                        continue ;
                    },
                    // if the stack is empty
                    Err(_) => {
                        self.state = SearchState::Exhausted;
                        return None;
                    },
                }
            }
            // if a Sudoku grid is valid and has no empty squares, that means
            // it is solved

            if sudoku_grid.num_empty_squares() == 0 {
                self.state = SearchState::Found;
                return Some(sudoku_grid);
            }
            match find_guess(&sudoku_grid, &notes, last_value) {
                Some(change) => {
                    last_value = 0;
                    sudoku_grid.set_value(change.x, change.y, change.value);
                    self.changes_stack.push(change);
                    continue ;
                },
                None => {},
            }

            match self.revert_last_change(&mut sudoku_grid, &mut notes, &mut last_value) {
                Ok(_) => {
                    continue ;
                },
                // if the stack is empty
                Err(_) => {
                    self.state = SearchState::Exhausted;
                    return None;
                },
            }
        }
    }
}

impl Sudoku {
    /// Find a solution for this [Sudoku] puzzle.
    ///
    /// If there exist one or more possible solutions for this puzzle, this
    /// function will return one of them. Else, `None` will be returned.
    ///
    /// If the given [Sudoku] is invalid (meaning it contains the same value twice
    /// in the same row, column or 3x3 cell), None will be returned.
    pub fn find_solution(&self) -> (solution: Option<Sudoku>)
        ensures
            match solution {
                Some(sudoku) => first_solution(self@) == Some(sudoku@) && least_solution(
                    sudoku@,
                    self@,
                ),
                None => first_solution(self@).is_none() && forall|s: Seq<u32>| !solves(s, self@),
            },
    {
        proof {
            use_type_invariant(self);
            self.lemma_is_board();
            theorem_finds_if_solvable(self@);
        }
        self.find_all_solutions().next()
    }

    /// Find all solutions for this [Sudoku] puzzle.
    ///
    /// Return a traversal of the solutions for the [Sudoku], which are had
    /// from it one by one with [AllSolutionsIterator::next()].
    ///
    /// Avoid collecting what this function returns unless you are certain
    /// that the number of possible solutions is very limited.
    pub fn find_all_solutions(&self) -> (solutions: AllSolutionsIterator<'_>)
        ensures
            solutions@ == Search::start(self@),
            solutions@.wf(),
    {
        AllSolutionsIterator::new(self)
    }

    /// Return `true` if this [Sudoku] is solvable.
    ///
    /// This is just syntactic sugar for [Sudoku::find_solution()] and then
    /// checking whether the returned [Option] is `None`.
    pub fn is_solvable(&self) -> (solvable: bool)
        ensures
            solvable == exists|s: Seq<u32>| solves(s, self@),
            solvable == first_solution(self@).is_some(),
    {
        self.find_solution().is_some()
    }
}

/// Find the guess that the search makes on a grid with its notes: the least
/// value above `last_value` that is noted as possible in the first empty
/// square, row by row. There is none where no square is empty or the first
/// empty square admits no such value.
fn find_guess(sudoku_grid: &Sudoku, notes: &NotesGrid, last_value: u32) -> (change: Option<
    ValueChange,
>)
    requires
        last_value <= 9,
    ensures
        change == guess(sudoku_grid@, notes@, last_value as int),
{
    let ghost g = sudoku_grid@;
    let ghost n = notes@;
    let ghost floor = last_value as int;
    proof {
        notes.lemma_notes();
    }
    for y in 0..9usize
        invariant
            first_empty(g) == first_empty_from(g, 9 * y),
            g == sudoku_grid@,
            n == notes@,
            n.len() == 81,
            floor == last_value,
    {
        for x in 0..9usize
            invariant
                y < 9,
                first_empty(g) == first_empty_from(g, x + 9 * y),
                g == sudoku_grid@,
                n == notes@,
                n.len() == 81,
                floor == last_value,
        {
            let ghost here = square(x as int, y as int);
            if sudoku_grid.get_value(x, y) == 0 {
                assert(first_empty(g) == here);
                let mut values = notes.get_note(x, y).possible_values();
                loop
                    invariant_except_break
                        0 <= values.position() <= floor,
                    invariant
                        x < 9,
                        y < 9,
                        here == square(x as int, y as int),
                        first_empty(g) == here,
                        n.len() == 81,
                        values.note() == n[here],
                        floor == last_value,
                        g == sudoku_grid@,
                        n == notes@,
                    ensures
                        next_possible(n[here], floor).is_none(),
                    decreases 9 - values.position(),
                {
                    proof {
                        lemma_next_possible(values.note(), values.position());
                    }
                    match values.next() {
                        Some(possible_value) => {
                            if possible_value > last_value {
                                proof {
                                    lemma_next_possible_is(
                                        n[here],
                                        floor,
                                        Some(possible_value as int),
                                    );
                                    assert(change_at(here, possible_value as int) == ValueChange {
                                        x,
                                        y,
                                        value: possible_value,
                                    });
                                }
                                return Some(ValueChange { x, y, value: possible_value });
                            }
                        },
                        None => {
                            proof {
                                lemma_next_possible_is(n[here], floor, None);
                            }
                            break ;
                        },
                    }
                }
                // The floor belongs to this square: with no value above it
                // left here, the branch is done.
                return None;
            }
        }
    }
    None
}

/// A member of a set above `after`, with no member between the two, is the
/// one that `next_possible` finds; and where no member is above `after`, it
/// finds none.
proof fn lemma_next_possible_is(values: Set<int>, after: int, found: Option<int>)
    requires
        match found {
            Some(d) => after < d <= 9 && values.contains(d) && forall|e: int|
                after < e < d ==> !values.contains(e),
            None => forall|e: int| after < e <= 9 ==> !values.contains(e),
        },
    ensures
        next_possible(values, after) == found,
    decreases 9 - after,
{
    if after < 9 && !values.contains(after + 1) {
        lemma_next_possible_is(values, after + 1, found);
    }
}

} // verus!
