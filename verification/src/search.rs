//! The search as the contracts see it: the changes that lead from the
//! puzzle to a point of the search, the order of those points, and what a
//! step of the search returns.

use crate::grid::{
    has_empty, is_board, is_solved_board, is_valid_board, lemma_positions_below, positions_of,
    square,
};
use crate::notes::{fresh_notes, is_notes, lemma_next_possible, next_possible};
use crate::propagate::{
    advanced, committed, dead_end, forced_squares, lemma_commit_fills, lemma_propagated_notes,
    propagated,
};
use vstd::prelude::*;

verus! {

/// Stores one change of the solver: a value that it has placed in a square
/// on a guess.
#[derive(Clone, Copy, Debug, Eq, PartialEq)]
pub struct ValueChange {
    pub x: usize,
    pub y: usize,
    pub value: u32,
}

/// Where a search stands between two steps.
#[derive(Clone, Copy, Debug, Eq, PartialEq)]
pub enum SearchState {
    /// No solution has been asked for yet.
    Exploring,
    /// The last step returned a solution, and the search can go on after it.
    Found,
    /// The search is over: there are no more solutions.
    Exhausted,
}

/// A search as the contracts see it: the puzzle, the guesses that lead to
/// the place where the search stands, and its state.
pub struct Search {
    pub puzzle: Seq<u32>,
    pub changes: Seq<ValueChange>,
    pub state: SearchState,
}

/// True if the board `g` agrees with the board `h` wherever `h` holds a value.
pub open spec fn extends(g: Seq<u32>, h: Seq<u32>) -> bool {
    forall|i: int| 0 <= i < 81 && h[i] != 0 ==> #[trigger] g[i] == h[i]
}

/// True if the board `s` is a solution of the puzzle `g`: a solved board
/// that keeps every value of the puzzle.
pub open spec fn solves(s: Seq<u32>, g: Seq<u32>) -> bool {
    is_board(s) && is_solved_board(s) && extends(s, g)
}

/// The board position of the square that a change fills.
pub open spec fn change_square(change: ValueChange) -> int {
    square(change.x as int, change.y as int)
}

/// The puzzle with the changes made on it, the first one first.
pub open spec fn replayed(puzzle: Seq<u32>, changes: Seq<ValueChange>) -> Seq<u32>
    decreases changes.len(),
{
    if changes.len() == 0 {
        puzzle
    } else {
        replayed(puzzle, changes.drop_last()).update(
            change_square(changes.last()),
            changes.last().value,
        )
    }
}

/// True if each change places a value from 1 to 9 in a square of the grid
/// that is empty in the puzzle and that no earlier change has filled.
pub open spec fn changes_ok(puzzle: Seq<u32>, changes: Seq<ValueChange>) -> bool
    decreases changes.len(),
{
    changes.len() == 0 || {
        let change = changes.last();
        &&& changes_ok(puzzle, changes.drop_last())
        &&& change.x <= 8
        &&& change.y <= 8
        &&& 1 <= change.value <= 9
        &&& replayed(puzzle, changes.drop_last())[change_square(change)] == 0
    }
}

/// Nineteen to the power `k`.
pub open spec fn weight(k: int) -> int
    decreases k,
{
    if k <= 0 {
        1
    } else {
        19 * weight(k - 1)
    }
}

/// The place of a list of changes among all such lists, in the order in
/// which the search comes to them.
pub open spec fn changes_rank(changes: Seq<ValueChange>) -> int
    decreases changes.len(),
{
    if changes.len() == 0 {
        0
    } else {
        changes_rank(changes.drop_last()) + (2 * changes.last().value - 1) * weight(
            82 - changes.len(),
        )
    }
}

/// The place of a point of the search, given by the changes made and the
/// floor: the value that the next guess must be above.
pub open spec fn rank(changes: Seq<ValueChange>, floor: int) -> int {
    changes_rank(changes) + 2 * floor * weight(81 - changes.len())
}

/// How far a point of the search is from the end of the order.
pub open spec fn rank_left(changes: Seq<ValueChange>, floor: int) -> int {
    weight(82) - rank(changes, floor)
}

/// Every weight is positive.
proof fn lemma_weight_positive(k: int)
    ensures
        weight(k) >= 1,
    decreases k,
{
    if k > 0 {
        lemma_weight_positive(k - 1);
    }
}

/// Multiples of a weight are ordered as their factors.
proof fn lemma_scaled(a: int, b: int, w: int)
    by (nonlinear_arith)
    requires
        a <= b,
        0 <= w,
    ensures
        a * w <= b * w,
{
}

/// The changes of a search rank below the end of the order, with room for
/// what may follow them.
proof fn lemma_changes_rank(puzzle: Seq<u32>, changes: Seq<ValueChange>)
    requires
        changes_ok(puzzle, changes),
        changes.len() <= 81,
    ensures
        0 <= changes_rank(changes),
        changes_rank(changes) + weight(82 - changes.len()) <= weight(82),
    decreases changes.len(),
{
    if changes.len() > 0 {
        let w = weight(82 - changes.len());
        lemma_changes_rank(puzzle, changes.drop_last());
        lemma_weight_positive(82 - changes.len());
        lemma_scaled(2 * changes.last().value - 1, 18, w);
        lemma_scaled(0, 2 * changes.last().value - 1, w);
        assert(weight(83 - changes.len()) == 19 * w);
    }
}

/// A point of the search ranks below the end of the order.
pub proof fn lemma_rank_left(puzzle: Seq<u32>, changes: Seq<ValueChange>, floor: int)
    requires
        changes_ok(puzzle, changes),
        changes.len() <= 81,
        0 <= floor <= 9,
    ensures
        0 < rank_left(changes, floor) <= weight(82),
{
    let w = weight(81 - changes.len());
    lemma_changes_rank(puzzle, changes);
    lemma_weight_positive(81 - changes.len());
    lemma_scaled(2 * floor, 18, w);
    lemma_scaled(0, 2 * floor, w);
    assert(weight(82 - changes.len()) == 19 * w);
}

/// A new change above the floor comes later in the order.
proof fn lemma_rank_push(changes: Seq<ValueChange>, floor: int, change: ValueChange)
    requires
        changes.len() < 81,
        floor < change.value,
    ensures
        rank(changes.push(change), 0) > rank(changes, floor),
{
    let w = weight(81 - changes.len());
    assert(changes.push(change).drop_last() =~= changes);
    lemma_weight_positive(81 - changes.len());
    lemma_scaled(2 * floor + 1, 2 * change.value - 1, w);
    assert((2 * floor + 1) * w == 2 * floor * w + w) by (nonlinear_arith);
}

/// Taking the last change back, with its value as the floor, comes later in
/// the order.
proof fn lemma_rank_pop(changes: Seq<ValueChange>, floor: int)
    requires
        0 < changes.len() <= 81,
        0 <= floor <= 9,
    ensures
        rank(changes.drop_last(), changes.last().value as int) > rank(changes, floor),
{
    let v = changes.last().value as int;
    let w = weight(81 - changes.len());
    let w1 = weight(82 - changes.len());
    lemma_weight_positive(81 - changes.len());
    assert(w1 == 19 * w);
    lemma_scaled(2 * floor, 18, w);
    assert(2 * v * w1 == (2 * v - 1) * w1 + w1) by (nonlinear_arith);
}

/// A change to an empty square of a board leaves one empty square fewer.
proof fn lemma_fill_one(g: Seq<u32>, i: int, value: u32)
    requires
        0 <= i < g.len(),
        g[i] == 0,
        value != 0,
    ensures
        positions_of(g.update(i, value), 0) == positions_of(g, 0).remove(i),
        positions_of(g.update(i, value), 0).len() + 1 == positions_of(g, 0).len(),
{
    lemma_positions_below(g, 0, g.len() as int);
    assert(positions_of(g.update(i, value), 0) =~= positions_of(g, 0).remove(i));
    assert(positions_of(g, 0).contains(i));
}

/// The changes of a search fill as many squares as they are, so they are
/// never more than the puzzle has empty squares; and the puzzle with the
/// changes made on it is a board that extends the puzzle.
pub proof fn lemma_replayed(puzzle: Seq<u32>, changes: Seq<ValueChange>)
    requires
        is_board(puzzle),
        changes_ok(puzzle, changes),
    ensures
        is_board(replayed(puzzle, changes)),
        extends(replayed(puzzle, changes), puzzle),
        positions_of(replayed(puzzle, changes), 0).len() + changes.len() == positions_of(
            puzzle,
            0,
        ).len(),
        changes.len() <= 81,
    decreases changes.len(),
{
    lemma_positions_below(puzzle, 0, 81);
    if changes.len() > 0 {
        lemma_replayed(puzzle, changes.drop_last());
        lemma_fill_one(
            replayed(puzzle, changes.drop_last()),
            change_square(changes.last()),
            changes.last().value,
        );
    }
}

/// Deduction turns a board into a board that extends it, with notes that
/// force no further square.
pub proof fn lemma_advanced(g: Seq<u32>, n: Seq<Set<int>>)
    requires
        is_board(g),
        n.len() == 81,
    ensures
        is_board(advanced(g, n).0),
        extends(advanced(g, n).0, g),
        is_notes(advanced(g, n).1),
        forced_squares(advanced(g, n).0, advanced(g, n).1).len() == 0,
    decreases positions_of(g, 0).len(),
{
    let noted = propagated(n, g);
    lemma_propagated_notes(n, g);
    if forced_squares(g, noted).len() != 0 {
        let next = committed(g, noted);
        lemma_commit_fills(g, n);
        assert(is_board(next)) by {
            assert forall|i: int| 0 <= i < 81 implies #[trigger] next[i] <= 9 by {}
        }
        lemma_advanced(next, noted);
    }
}

/// The board position of the first empty square at or after `from`, or 81
/// if there is none.
pub open spec fn first_empty_from(g: Seq<u32>, from: int) -> int
    decreases 81 - from,
{
    if from >= 81 {
        81
    } else if g[from] == 0 {
        from
    } else {
        first_empty_from(g, from + 1)
    }
}

/// The board position of the first empty square of the board, row by row,
/// or 81 if the board has no empty square.
pub open spec fn first_empty(g: Seq<u32>) -> int {
    first_empty_from(g, 0)
}

/// `first_empty_from` finds an empty square, passes over none on its way,
/// and finds none only where there is none.
pub proof fn lemma_first_empty(g: Seq<u32>, from: int)
    requires
        0 <= from <= 81,
    ensures
        from <= first_empty_from(g, from) <= 81,
        first_empty_from(g, from) < 81 ==> g[first_empty_from(g, from)] == 0,
        forall|j: int| from <= j < first_empty_from(g, from) ==> #[trigger] g[j] != 0,
    decreases 81 - from,
{
    if from < 81 && g[from] != 0 {
        lemma_first_empty(g, from + 1);
    }
}

/// The change that places `value` in the square at board position `i`.
pub open spec fn change_at(i: int, value: int) -> ValueChange {
    ValueChange { x: (i % 9) as usize, y: (i / 9) as usize, value: value as u32 }
}

/// The guess that the search makes on the board `g` with the notes `n`: the
/// least noted value above `floor` in the first empty square. There is no
/// guess where the board has no empty square, or the first one is noted to
/// admit no value above `floor`.
pub open spec fn guess(g: Seq<u32>, n: Seq<Set<int>>, floor: int) -> Option<ValueChange> {
    if first_empty(g) < 81 {
        match next_possible(n[first_empty(g)], floor) {
            Some(value) => Some(change_at(first_empty(g), value)),
            None => None,
        }
    } else {
        None
    }
}

/// True if the board cannot be completed: it is invalid, or an empty square
/// is noted to admit no value.
pub open spec fn contradictory(g: Seq<u32>, n: Seq<Set<int>>) -> bool {
    !is_valid_board(g) || dead_end(g, n)
}

/// What a point of the search must fulfil: the board `g` extends the puzzle
/// with the changes made on it, and the changes are in order.
pub open spec fn search_ok(
    puzzle: Seq<u32>,
    g: Seq<u32>,
    n: Seq<Set<int>>,
    changes: Seq<ValueChange>,
    floor: int,
) -> bool {
    &&& is_board(puzzle)
    &&& is_board(g)
    &&& n.len() == 81
    &&& changes_ok(puzzle, changes)
    &&& extends(g, replayed(puzzle, changes))
    &&& 0 <= floor <= 9
}

/// The search from the board `g` with the notes `n`, reached from the puzzle
/// by `changes`, where the next guess must be above `floor`: the changes
/// that remain and the solution found, if any.
///
/// The board is advanced by deduction. If the result is contradictory, or
/// its first empty square admits no value above the floor, the last change
/// is taken back and the search goes on from the puzzle with the other
/// changes, above the value of that change; with no change left, the search
/// ends. If the result has no empty square, it is the solution. Else the
/// guess is made and the search goes on, with no floor.
pub open spec fn search(
    puzzle: Seq<u32>,
    g: Seq<u32>,
    n: Seq<Set<int>>,
    changes: Seq<ValueChange>,
    floor: int,
) -> (Seq<ValueChange>, Option<Seq<u32>>)
    decreases rank_left(changes, floor),
    when search_ok(puzzle, g, n, changes, floor)
    via search_decreases
{
    let (filled, noted) = advanced(g, n);
    if !contradictory(filled, noted) && !has_empty(filled) {
        (changes, Some(filled))
    } else if !contradictory(filled, noted) && guess(filled, noted, floor).is_some() {
        let change = guess(filled, noted, floor).unwrap();
        search(
            puzzle,
            filled.update(change_square(change), change.value),
            noted,
            changes.push(change),
            0,
        )
    } else if changes.len() == 0 {
        (changes, None)
    } else {
        search(
            puzzle,
            replayed(puzzle, changes.drop_last()),
            fresh_notes(),
            changes.drop_last(),
            changes.last().value as int,
        )
    }
}

#[via_fn]
proof fn search_decreases(
    puzzle: Seq<u32>,
    g: Seq<u32>,
    n: Seq<Set<int>>,
    changes: Seq<ValueChange>,
    floor: int,
) {
    lemma_search_step(puzzle, g, n, changes, floor);
}

/// A guess is a change in order, and the search goes on from a point as it
/// must be, later in the order; so for taking the last change back.
pub proof fn lemma_search_step(
    puzzle: Seq<u32>,
    g: Seq<u32>,
    n: Seq<Set<int>>,
    changes: Seq<ValueChange>,
    floor: int,
)
    requires
        search_ok(puzzle, g, n, changes, floor),
    ensures
        0 < rank_left(changes, floor),
        is_board(advanced(g, n).0),
        is_notes(advanced(g, n).1),
        extends(advanced(g, n).0, replayed(puzzle, changes)),
        extends(advanced(g, n).0, puzzle),
        guess(advanced(g, n).0, advanced(g, n).1, floor) matches Some(change) ==> {
            &&& change.x <= 8
            &&& change.y <= 8
            &&& floor < change.value <= 9
            &&& advanced(g, n).0[change_square(change)] == 0
            &&& change_square(change) == first_empty(advanced(g, n).0)
            &&& next_possible(advanced(g, n).1[change_square(change)], floor) == Some(
                change.value as int,
            )
            &&& search_ok(
                puzzle,
                advanced(g, n).0.update(change_square(change), change.value),
                advanced(g, n).1,
                changes.push(change),
                0,
            )
            &&& 0 < rank_left(changes.push(change), 0) < rank_left(changes, floor)
        },
        changes.len() > 0 ==> {
            &&& search_ok(
                puzzle,
                replayed(puzzle, changes.drop_last()),
                fresh_notes(),
                changes.drop_last(),
                changes.last().value as int,
            )
            &&& 0 < rank_left(changes.drop_last(), changes.last().value as int) < rank_left(
                changes,
                floor,
            )
        },
{
    let (filled, noted) = advanced(g, n);
    lemma_advanced(g, n);
    lemma_replayed(puzzle, changes);
    lemma_rank_left(puzzle, changes, floor);
    if guess(filled, noted, floor).is_some() {
        let change = guess(filled, noted, floor).unwrap();
        let i = first_empty(filled);
        lemma_first_empty(filled, 0);
        lemma_next_possible(noted[i], floor);
        assert(change_square(change) == i);
        let more = changes.push(change);
        assert(more.drop_last() =~= changes);
        assert(changes_ok(puzzle, more));
        lemma_replayed(puzzle, more);
        lemma_rank_push(changes, floor, change);
        lemma_rank_left(puzzle, more, 0);
    }
    if changes.len() > 0 {
        lemma_replayed(puzzle, changes.drop_last());
        lemma_rank_pop(changes, floor);
        lemma_rank_left(puzzle, changes.drop_last(), changes.last().value as int);
    }
}

/// The prefixes of changes in order are in order, and each change names a
/// square of the grid and a value from 1 to 9.
pub proof fn lemma_changes_prefix(puzzle: Seq<u32>, changes: Seq<ValueChange>, len: int)
    requires
        changes_ok(puzzle, changes),
        0 <= len <= changes.len(),
    ensures
        changes_ok(puzzle, changes.take(len)),
        len < changes.len() ==> changes[len].x <= 8 && changes[len].y <= 8 && 1
            <= changes[len].value <= 9,
        len < changes.len() ==> replayed(puzzle, changes.take(len + 1)) == replayed(
            puzzle,
            changes.take(len),
        ).update(change_square(changes[len]), changes[len].value),
    decreases changes.len(),
{
    if len < changes.len() {
        assert(changes.take(len + 1).drop_last() =~= changes.take(len));
        if len + 1 == changes.len() {
            assert(changes.take(len + 1) =~= changes);
            assert(changes.drop_last() =~= changes.take(len));
        } else {
            lemma_changes_prefix(puzzle, changes.drop_last(), len);
            assert(changes.drop_last().take(len) =~= changes.take(len));
            assert(changes.drop_last().take(len + 1) =~= changes.take(len + 1));
        }
    } else {
        assert(changes.take(len) =~= changes);
    }
}

impl Search {
    /// True if the puzzle is a board, the changes are in order, and changes
    /// are left only where the search has found a solution.
    pub open spec fn wf(self) -> bool {
        &&& is_board(self.puzzle)
        &&& changes_ok(self.puzzle, self.changes)
        &&& (self.state is Found || self.changes.len() == 0)
    }

    /// The search for the solutions of `puzzle` before its first step.
    pub open spec fn start(puzzle: Seq<u32>) -> Search {
        Search { puzzle, changes: Seq::empty(), state: SearchState::Exploring }
    }

    /// The search after a step that ended with `outcome`: the changes that
    /// remain and the solution found, if any.
    pub open spec fn after(self, outcome: (Seq<ValueChange>, Option<Seq<u32>>)) -> Search {
        Search {
            puzzle: self.puzzle,
            changes: outcome.0,
            state: if outcome.1.is_some() {
                SearchState::Found
            } else {
                SearchState::Exhausted
            },
        }
    }

    /// One step of the search: the search after it, and the solution that it
    /// returns, if any.
    ///
    /// A search that is exhausted stays so. A search that has found a
    /// solution without any change is exhausted by the next step. Otherwise
    /// the last change, if there is one, is taken back, and the search goes
    /// on from the puzzle with the other changes, above the value of that
    /// change.
    pub open spec fn step(self) -> (Search, Option<Seq<u32>>) {
        if self.state is Exhausted {
            (self, None)
        } else if self.changes.len() == 0 {
            if self.state is Found {
                (Search { state: SearchState::Exhausted, ..self }, None)
            } else {
                let outcome = search(self.puzzle, self.puzzle, fresh_notes(), self.changes, 0);
                (self.after(outcome), outcome.1)
            }
        } else {
            let outcome = search(
                self.puzzle,
                replayed(self.puzzle, self.changes.drop_last()),
                fresh_notes(),
                self.changes.drop_last(),
                self.changes.last().value as int,
            );
            (self.after(outcome), outcome.1)
        }
    }
}

/// The solution that the search finds first, if it finds any.
pub open spec fn first_solution(puzzle: Seq<u32>) -> Option<Seq<u32>> {
    Search::start(puzzle).step().1
}

} // verus!
