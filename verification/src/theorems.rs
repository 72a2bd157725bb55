//! What holds of every search, proved from the definition of its steps.

use crate::grid::{
    has_empty, is_board, is_solved_board, is_valid_board, columns_distinct,
    column_unit, row_unit, rows_distinct, unit_distinct, unit_square, lemma_unit_square,
};
use crate::notes::fresh_notes;
use crate::propagate::{advanced, dead_end, forced_squares, lemma_forced_squares, propagated};
use crate::search::{
    changes_ok, contradictory, extends, guess, lemma_search_step, rank_left,
    replayed, search, search_ok, solves, Search, SearchState, ValueChange, change_square,
};
use vstd::prelude::*;

verus! {

/// The search on `puzzle` that has found a solution without any change.
pub open spec fn found_at_once(puzzle: Seq<u32>) -> Search {
    Search { puzzle, changes: Seq::empty(), state: SearchState::Found }
}

/// The search on `puzzle` that is over.
pub open spec fn exhausted(puzzle: Seq<u32>) -> Search {
    Search { puzzle, changes: Seq::empty(), state: SearchState::Exhausted }
}

/// A search leaves changes in order, returns only solutions of the puzzle,
/// and leaves no change when it returns none.
pub proof fn lemma_search_sound(
    puzzle: Seq<u32>,
    g: Seq<u32>,
    n: Seq<Set<int>>,
    changes: Seq<ValueChange>,
    floor: int,
)
    requires
        search_ok(puzzle, g, n, changes, floor),
    ensures
        changes_ok(puzzle, search(puzzle, g, n, changes, floor).0),
        match search(puzzle, g, n, changes, floor).1 {
            Some(solution) => solves(solution, puzzle),
            None => search(puzzle, g, n, changes, floor).0.len() == 0,
        },
    decreases rank_left(changes, floor),
{
    let (filled, noted) = advanced(g, n);
    lemma_search_step(puzzle, g, n, changes, floor);
    if !contradictory(filled, noted) && !has_empty(filled) {
    } else if !contradictory(filled, noted) && guess(filled, noted, floor).is_some() {
        let change = guess(filled, noted, floor).unwrap();
        lemma_search_sound(
            puzzle,
            filled.update(change_square(change), change.value),
            noted,
            changes.push(change),
            0,
        );
    } else if changes.len() > 0 {
        lemma_search_sound(
            puzzle,
            replayed(puzzle, changes.drop_last()),
            fresh_notes(),
            changes.drop_last(),
            changes.last().value as int,
        );
    }
}

/// A step of a search starts its search, if any, from a point as it must be.
proof fn lemma_step_starts(s: Search)
    requires
        s.wf(),
        s.changes.len() > 0,
    ensures
        search_ok(
            s.puzzle,
            replayed(s.puzzle, s.changes.drop_last()),
            fresh_notes(),
            s.changes.drop_last(),
            s.changes.last().value as int,
        ),
{
    crate::search::lemma_replayed(s.puzzle, s.changes.drop_last());
}

/// Every solution that a search returns is a solved board, and agrees with
/// the puzzle in every square that the puzzle fills. The search stays well
/// formed from step to step.
pub proof fn theorem_solutions_solve(s: Search)
    requires
        s.wf(),
    ensures
        s.step().0.wf(),
        s.step().0.puzzle == s.puzzle,
        s.step().1 matches Some(solution) ==> solves(solution, s.puzzle),
{
    if s.state is Exhausted {
    } else if s.changes.len() == 0 {
        if s.state is Exploring {
            lemma_search_sound(s.puzzle, s.puzzle, fresh_notes(), s.changes, 0);
        }
    } else {
        lemma_step_starts(s);
        lemma_search_sound(
            s.puzzle,
            replayed(s.puzzle, s.changes.drop_last()),
            fresh_notes(),
            s.changes.drop_last(),
            s.changes.last().value as int,
        );
    }
}

/// Deduction leaves a board without empty squares as it is.
pub proof fn lemma_advanced_full(g: Seq<u32>, n: Seq<Set<int>>)
    requires
        is_board(g),
        n.len() == 81,
        !has_empty(g),
    ensures
        advanced(g, n) == (g, propagated(n, g)),
        !dead_end(g, propagated(n, g)),
{
    lemma_forced_squares(g, propagated(n, g));
    assert(forced_squares(g, propagated(n, g)) =~= Set::<int>::empty());
}

/// Solving an already solved grid returns exactly that grid as the sole
/// solution: the first step of the search returns the grid, and the step
/// after it returns nothing and ends the search.
pub proof fn theorem_solved_puzzle(puzzle: Seq<u32>)
    requires
        is_board(puzzle),
        is_solved_board(puzzle),
    ensures
        Search::start(puzzle).step().0 == found_at_once(puzzle),
        Search::start(puzzle).step().1 == Some(puzzle),
        found_at_once(puzzle).step().0 == exhausted(puzzle),
        found_at_once(puzzle).step().1.is_none(),
        exhausted(puzzle).step().0 == exhausted(puzzle),
        exhausted(puzzle).step().1.is_none(),
{
    lemma_advanced_full(puzzle, fresh_notes());
    assert(search_ok(puzzle, puzzle, fresh_notes(), Seq::empty(), 0));
}

/// A board that extends an invalid board is invalid.
pub proof fn lemma_extends_invalid(g: Seq<u32>, h: Seq<u32>)
    requires
        is_board(g),
        is_board(h),
        extends(g, h),
        !is_valid_board(h),
    ensures
        !is_valid_board(g),
{
    let u = if !rows_distinct(h) {
        let y = choose|y: int| 0 <= y < 9 && !unit_distinct(h, #[trigger] row_unit(y));
        row_unit(y)
    } else if !columns_distinct(h) {
        let x = choose|x: int| 0 <= x < 9 && !unit_distinct(h, #[trigger] column_unit(x));
        column_unit(x)
    } else {
        choose|u: int| 18 <= u < 27 && !#[trigger] unit_distinct(h, u)
    };
    assert(0 <= u < 27 && !unit_distinct(h, u));
    let (j, k) = choose|j: int, k: int|
        0 <= j < 9 && 0 <= k < 9 && j != k && h[#[trigger] unit_square(u, j)] != 0 && h[unit_square(
            u,
            j,
        )] == h[#[trigger] unit_square(u, k)];
    lemma_unit_square(u, j);
    lemma_unit_square(u, k);
    assert(g[unit_square(u, j)] == h[unit_square(u, j)]);
    assert(g[unit_square(u, k)] == h[unit_square(u, k)]);
    assert(!unit_distinct(g, u));
    if u < 9 {
        assert(u == row_unit(u));
    } else if u < 18 {
        assert(u == column_unit(u - 9));
    }
}

/// A search on an invalid puzzle finds nothing.
proof fn lemma_search_invalid(
    puzzle: Seq<u32>,
    g: Seq<u32>,
    n: Seq<Set<int>>,
    changes: Seq<ValueChange>,
    floor: int,
)
    requires
        search_ok(puzzle, g, n, changes, floor),
        !is_valid_board(puzzle),
    ensures
        search(puzzle, g, n, changes, floor).1.is_none(),
    decreases rank_left(changes, floor),
{
    let (filled, noted) = advanced(g, n);
    lemma_search_step(puzzle, g, n, changes, floor);
    lemma_extends_invalid(filled, puzzle);
    if changes.len() > 0 {
        lemma_search_invalid(
            puzzle,
            replayed(puzzle, changes.drop_last()),
            fresh_notes(),
            changes.drop_last(),
            changes.last().value as int,
        );
    }
}

/// A puzzle with the same value twice in a row, a column or a 3x3 cell has
/// no solution in any search: the first step returns nothing and ends the
/// search, and no step of any search on it returns a solution.
pub proof fn theorem_invalid_puzzle(s: Search)
    requires
        s.wf(),
        !is_valid_board(s.puzzle),
    ensures
        s.step().1.is_none(),
        s == Search::start(s.puzzle) ==> s.step().0 == exhausted(s.puzzle),
{
    if s.state is Exhausted {
    } else if s.changes.len() == 0 {
        if s.state is Exploring {
            lemma_search_invalid(s.puzzle, s.puzzle, fresh_notes(), s.changes, 0);
            lemma_search_sound(s.puzzle, s.puzzle, fresh_notes(), s.changes, 0);
            assert(search(s.puzzle, s.puzzle, fresh_notes(), s.changes, 0).0 =~= Seq::empty());
        }
    } else {
        lemma_step_starts(s);
        lemma_search_invalid(
            s.puzzle,
            replayed(s.puzzle, s.changes.drop_last()),
            fresh_notes(),
            s.changes.drop_last(),
            s.changes.last().value as int,
        );
    }
}

/// A puzzle on which deduction ends with an empty square that admits no
/// value has no solution in the search: the first step returns nothing and
/// ends the search.
pub proof fn theorem_dead_end(puzzle: Seq<u32>)
    requires
        is_board(puzzle),
        dead_end(advanced(puzzle, fresh_notes()).0, advanced(puzzle, fresh_notes()).1),
    ensures
        Search::start(puzzle).step().0 == exhausted(puzzle),
        Search::start(puzzle).step().1.is_none(),
{
    assert(search_ok(puzzle, puzzle, fresh_notes(), Seq::empty(), 0));
}

} // verus!
