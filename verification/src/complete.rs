//! Why the search misses no solution and returns none twice: it passes
//! over a value in a square only where every solution that has the value
//! there has been returned already, and it comes back to no value that it
//! has passed over.

use crate::deduction::{
    between, lemma_advanced_below, lemma_advanced_end, lemma_below_settled,
    lemma_candidates_shrink, lemma_confluence, lemma_extends_twice, lemma_fresh_covers,
    lemma_solved_settled, lemma_value_is_candidate, settled, settled_from,
};
use crate::grid::{has_empty, is_board};
use crate::notes::{fresh_notes, lemma_next_possible};
use crate::propagate::{advanced, candidates};
use crate::search::{
    change_square, changes_ok, contradictory, extends, first_empty, first_solution, guess,
    lemma_changes_prefix, lemma_first_empty, lemma_rank_left, lemma_replayed,
    lemma_search_step, rank, rank_left, replayed, search, search_ok, solves, weight, Search,
    ValueChange,
};
use crate::theorems::lemma_search_sound;
use vstd::prelude::*;

verus! {

/// True if `sol` is a solution of the board `g` that is not among `seen`.
pub open spec fn unseen(sol: Seq<u32>, g: Seq<u32>, seen: Set<Seq<u32>>) -> bool {
    solves(sol, g) && !seen.contains(sol)
}

/// True if the `k`-th change was a guess in the first square that deduction
/// had left empty, without contradiction, and the solutions in `seen` are
/// those that the search has passed below it: of the solutions of the
/// puzzle with the changes before the `k`-th, those in `seen` have in that
/// square the value of the change or a lesser one, and the others have the
/// value of the change or a greater one.
pub open spec fn level_ok(
    puzzle: Seq<u32>,
    changes: Seq<ValueChange>,
    k: int,
    seen: Set<Seq<u32>>,
) -> bool {
    let before = settled_from(puzzle, changes.take(k));
    let i = change_square(changes[k]);
    &&& !contradictory(before.0, before.1)
    &&& i == first_empty(before.0)
    &&& before.0[i] == 0
    &&& forall|sol: Seq<u32>| #[trigger]
        solves(sol, replayed(puzzle, changes.take(k))) ==> {
            &&& seen.contains(sol) ==> sol[i] <= changes[k].value
            &&& !seen.contains(sol) ==> sol[i] >= changes[k].value
        }
}

/// True if the solutions in `seen` are those that the search has passed
/// below its changes.
pub open spec fn levels_ok(
    puzzle: Seq<u32>,
    changes: Seq<ValueChange>,
    seen: Set<Seq<u32>>,
) -> bool {
    forall|k: int| 0 <= k < changes.len() ==> #[trigger] level_ok(puzzle, changes, k, seen)
}

/// True if the solutions in `seen` are those that the floor passes over.
/// With the floor 0, no solution of the puzzle with the changes is in
/// `seen`. With a floor above 0, deduction leaves the puzzle with the
/// changes without contradiction and with an empty square, and a solution of
/// the puzzle with the changes is in `seen` if and only if its value in the
/// first empty square is not above the floor.
pub open spec fn floor_ok(
    puzzle: Seq<u32>,
    changes: Seq<ValueChange>,
    floor: int,
    seen: Set<Seq<u32>>,
) -> bool {
    let here = settled_from(puzzle, changes);
    if floor == 0 {
        forall|sol: Seq<u32>| #[trigger]
            solves(sol, replayed(puzzle, changes)) ==> !seen.contains(sol)
    } else {
        &&& !contradictory(here.0, here.1)
        &&& has_empty(here.0)
        &&& forall|sol: Seq<u32>| #[trigger]
            solves(sol, replayed(puzzle, changes)) ==> (seen.contains(sol) <==> sol[first_empty(
                here.0,
            )] <= floor)
    }
}

/// A solution of the puzzle with the changes extends what deduction makes
/// of a board between the two, and deduction ends there without
/// contradiction, where it ends from the puzzle with the changes.
proof fn lemma_solution_above(
    puzzle: Seq<u32>,
    g: Seq<u32>,
    n: Seq<Set<int>>,
    changes: Seq<ValueChange>,
    sol: Seq<u32>,
)
    requires
        between(puzzle, g, n, changes),
        solves(sol, replayed(puzzle, changes)),
    ensures
        extends(sol, advanced(g, n).0),
        !contradictory(advanced(g, n).0, advanced(g, n).1),
        advanced(g, n).0 == settled_from(puzzle, changes).0,
        settled(advanced(g, n).0),
{
    let start = replayed(puzzle, changes);
    lemma_replayed(puzzle, changes);
    lemma_fresh_covers(start);
    lemma_solved_settled(sol);
    lemma_advanced_below(start, fresh_notes(), sol);
    lemma_advanced_end(start, fresh_notes());
    lemma_below_settled(settled_from(puzzle, changes).0, sol);
    lemma_confluence(puzzle, g, n, changes);
    lemma_advanced_end(g, n);
}

/// Where deduction ends with an empty square and a solution of the puzzle
/// with the changes is not in `seen`, the search has a guess to make, and
/// it is no value above the one that the solution has in that square.
proof fn lemma_guess_below(
    puzzle: Seq<u32>,
    g: Seq<u32>,
    n: Seq<Set<int>>,
    changes: Seq<ValueChange>,
    floor: int,
    seen: Set<Seq<u32>>,
    sol: Seq<u32>,
)
    requires
        search_ok(puzzle, g, n, changes, floor),
        between(puzzle, g, n, changes),
        floor_ok(puzzle, changes, floor, seen),
        unseen(sol, replayed(puzzle, changes), seen),
        has_empty(advanced(g, n).0),
    ensures
        guess(advanced(g, n).0, advanced(g, n).1, floor) matches Some(change) && change.value
            <= sol[change_square(change)],
{
    let (filled, noted) = advanced(g, n);
    lemma_solution_above(puzzle, g, n, changes, sol);
    lemma_advanced_end(g, n);
    lemma_first_empty(filled, 0);
    let e = first_empty(filled);
    assert(e < 81) by {
        let i = choose|i: int| 0 <= i < filled.len() && #[trigger] filled[i] == 0;
        assert(filled[i] == 0);
    }
    assert(sol[e] != 0);
    lemma_value_is_candidate(sol, filled, e);
    assert(noted[e] == candidates(filled, e));
    assert(sol[e] > floor);
    lemma_next_possible(noted[e], floor);
    lemma_search_step(puzzle, g, n, changes, floor);
}

/// Where deduction ends in a contradiction, or the search has no guess to
/// make on a board with an empty square, every solution of the puzzle with
/// the changes is in `seen`.
proof fn lemma_no_solution_here(
    puzzle: Seq<u32>,
    g: Seq<u32>,
    n: Seq<Set<int>>,
    changes: Seq<ValueChange>,
    floor: int,
    seen: Set<Seq<u32>>,
    sol: Seq<u32>,
)
    requires
        search_ok(puzzle, g, n, changes, floor),
        between(puzzle, g, n, changes),
        floor_ok(puzzle, changes, floor, seen),
        contradictory(advanced(g, n).0, advanced(g, n).1) || (has_empty(advanced(g, n).0) && guess(
            advanced(g, n).0,
            advanced(g, n).1,
            floor,
        ).is_none()),
    ensures
        !unseen(sol, replayed(puzzle, changes), seen),
{
    if unseen(sol, replayed(puzzle, changes), seen) {
        lemma_solution_above(puzzle, g, n, changes, sol);
        lemma_guess_below(puzzle, g, n, changes, floor, seen, sol);
    }
}

/// After a guess the search stands at a point as before: between the
/// puzzle with the changes and what deduction makes of it, with the
/// solutions in `seen` passed and no other.
proof fn lemma_after_guess(
    puzzle: Seq<u32>,
    g: Seq<u32>,
    n: Seq<Set<int>>,
    changes: Seq<ValueChange>,
    floor: int,
    seen: Set<Seq<u32>>,
)
    requires
        search_ok(puzzle, g, n, changes, floor),
        between(puzzle, g, n, changes),
        levels_ok(puzzle, changes, seen),
        floor_ok(puzzle, changes, floor, seen),
        !contradictory(advanced(g, n).0, advanced(g, n).1),
        has_empty(advanced(g, n).0),
        guess(advanced(g, n).0, advanced(g, n).1, floor).is_some(),
    ensures
        ({
            let change = guess(advanced(g, n).0, advanced(g, n).1, floor).unwrap();
            let next = advanced(g, n).0.update(change_square(change), change.value);
            &&& between(puzzle, next, advanced(g, n).1, changes.push(change))
            &&& levels_ok(puzzle, changes.push(change), seen)
            &&& floor_ok(puzzle, changes.push(change), 0, seen)
        }),
{
    let (filled, noted) = advanced(g, n);
    let change = guess(filled, noted, floor).unwrap();
    let i = change_square(change);
    let next = filled.update(i, change.value);
    let more = changes.push(change);
    let start = replayed(puzzle, changes);
    lemma_search_step(puzzle, g, n, changes, floor);
    lemma_advanced_end(g, n);
    lemma_confluence(puzzle, g, n, changes);
    lemma_replayed(puzzle, changes);
    lemma_replayed(puzzle, more);
    assert(more.drop_last() =~= changes);
    assert(replayed(puzzle, more) == start.update(i, change.value));
    assert(extends(replayed(puzzle, more), start));
    assert(extends(next, filled));
    assert forall|j: int| 0 <= j < 81 && next[j] == 0 implies candidates(next, j).subset_of(
        #[trigger] noted[j],
    ) by {
        lemma_candidates_shrink(next, filled, j);
        assert(noted[j] == candidates(filled, j));
    }
    let end = settled_from(puzzle, more).0;
    if settled(end) {
        lemma_fresh_covers(replayed(puzzle, more));
        lemma_fresh_covers(start);
        lemma_advanced_end(replayed(puzzle, more), fresh_notes());
        lemma_extends_twice(end, replayed(puzzle, more), start);
        lemma_advanced_below(start, fresh_notes(), end);
        assert(end[i] == change.value);
        assert(extends(end, next));
    }
    assert forall|sol: Seq<u32>| #[trigger] solves(sol, start) implies (seen.contains(sol)
        ==> sol[i] <= change.value) && (!seen.contains(sol) ==> sol[i] >= change.value) by {
        if seen.contains(sol) {
            lemma_solution_above(puzzle, g, n, changes, sol);
        } else {
            lemma_guess_below(puzzle, g, n, changes, floor, seen, sol);
        }
    }
    assert forall|k: int| 0 <= k < more.len() implies #[trigger] level_ok(puzzle, more, k, seen) by {
        if k < changes.len() {
            assert(more.take(k) =~= changes.take(k));
            assert(level_ok(puzzle, changes, k, seen));
        } else {
            assert(more.take(k) =~= changes);
        }
    }
    assert forall|sol: Seq<u32>| #[trigger]
        solves(sol, replayed(puzzle, more)) implies !seen.contains(sol) by {
        lemma_extends_twice(sol, replayed(puzzle, more), start);
        assert(solves(sol, start));
        assert(sol[i] == change.value);
        if seen.contains(sol) {
            lemma_solution_above(puzzle, g, n, changes, sol);
        }
    }
}

/// After the last change is taken back the search stands at a point as
/// before, where every solution of the puzzle with the changes was in
/// `seen`.
proof fn lemma_after_revert(puzzle: Seq<u32>, changes: Seq<ValueChange>, seen: Set<Seq<u32>>)
    requires
        is_board(puzzle),
        changes_ok(puzzle, changes),
        changes.len() > 0,
        levels_ok(puzzle, changes, seen),
        forall|sol: Seq<u32>| !#[trigger] unseen(sol, replayed(puzzle, changes), seen),
    ensures
        between(puzzle, replayed(puzzle, changes.drop_last()), fresh_notes(), changes.drop_last()),
        levels_ok(puzzle, changes.drop_last(), seen),
        floor_ok(puzzle, changes.drop_last(), changes.last().value as int, seen),
{
    let rest = changes.drop_last();
    let last = changes.last();
    let start = replayed(puzzle, rest);
    lemma_replayed(puzzle, rest);
    lemma_fresh_covers(start);
    lemma_advanced_end(start, fresh_notes());
    assert forall|k: int| 0 <= k < rest.len() implies #[trigger] level_ok(puzzle, rest, k, seen) by {
        assert(rest.take(k) =~= changes.take(k));
        assert(level_ok(puzzle, changes, k, seen));
    }
    assert(changes.take(rest.len() as int) =~= rest);
    assert(level_ok(puzzle, changes, rest.len() as int, seen));
    assert(has_empty(settled_from(puzzle, rest).0)) by {
        assert(settled_from(puzzle, rest).0[change_square(last)] == 0);
    }
    assert forall|sol: Seq<u32>| #[trigger] solves(sol, start) implies (seen.contains(sol)
        <==> sol[first_empty(settled_from(puzzle, rest).0)] <= last.value) by {
        if sol[change_square(last)] == last.value {
            assert(extends(sol, replayed(puzzle, changes)));
            assert(!unseen(sol, replayed(puzzle, changes), seen));
        }
    }
}

/// A solved board that extends a board without empty squares is that board.
proof fn lemma_full_board(sol: Seq<u32>, g: Seq<u32>)
    requires
        is_board(sol),
        is_board(g),
        extends(sol, g),
        !has_empty(g),
    ensures
        sol == g,
{
    assert forall|i: int| 0 <= i < 81 implies sol[i] == g[i] by {
        assert(g[i] != 0);
    }
    assert(sol =~= g);
}

/// A search that has passed the solutions in `seen` and no other goes on so
/// to its end. If it returns none, every solution of the puzzle is in
/// `seen`. If it returns a board, that is the one solution of the puzzle
/// with the changes that remain, it is not in `seen`, and the search has
/// come no earlier in its order than it began.
pub proof fn lemma_search_complete(
    puzzle: Seq<u32>,
    g: Seq<u32>,
    n: Seq<Set<int>>,
    changes: Seq<ValueChange>,
    floor: int,
    seen: Set<Seq<u32>>,
)
    requires
        search_ok(puzzle, g, n, changes, floor),
        between(puzzle, g, n, changes),
        levels_ok(puzzle, changes, seen),
        floor_ok(puzzle, changes, floor, seen),
    ensures
        match search(puzzle, g, n, changes, floor).1 {
            None => forall|sol: Seq<u32>| #[trigger] solves(sol, puzzle) ==> seen.contains(sol),
            Some(found) => {
                let rest = search(puzzle, g, n, changes, floor).0;
                &&& levels_ok(puzzle, rest, seen)
                &&& found == settled_from(puzzle, rest).0
                &&& !seen.contains(found)
                &&& forall|sol: Seq<u32>| #[trigger]
                    solves(sol, replayed(puzzle, rest)) ==> sol == found
                &&& rank_left(rest, 0) <= rank_left(changes, floor)
            },
        },
    decreases rank_left(changes, floor),
{
    let (filled, noted) = advanced(g, n);
    lemma_search_step(puzzle, g, n, changes, floor);
    if !contradictory(filled, noted) && !has_empty(filled) {
        lemma_confluence(puzzle, g, n, changes);
        lemma_search_sound(puzzle, g, n, changes, floor);
        lemma_replayed(puzzle, changes);
        assert(solves(filled, replayed(puzzle, changes)));
        assert forall|sol: Seq<u32>| #[trigger]
            solves(sol, replayed(puzzle, changes)) implies sol == filled by {
            lemma_solution_above(puzzle, g, n, changes, sol);
            lemma_full_board(sol, filled);
        }
    } else if !contradictory(filled, noted) && guess(filled, noted, floor).is_some() {
        let change = guess(filled, noted, floor).unwrap();
        lemma_after_guess(puzzle, g, n, changes, floor, seen);
        lemma_search_complete(
            puzzle,
            filled.update(change_square(change), change.value),
            noted,
            changes.push(change),
            0,
            seen,
        );
    } else {
        assert forall|sol: Seq<u32>| !#[trigger] unseen(sol, replayed(puzzle, changes), seen) by {
            lemma_no_solution_here(puzzle, g, n, changes, floor, seen, sol);
        }
        if changes.len() > 0 {
            lemma_after_revert(puzzle, changes, seen);
            lemma_search_complete(
                puzzle,
                replayed(puzzle, changes.drop_last()),
                fresh_notes(),
                changes.drop_last(),
                changes.last().value as int,
                seen,
            );
        } else {
            assert forall|sol: Seq<u32>| #[trigger] solves(sol, puzzle) implies seen.contains(
                sol,
            ) by {
                assert(!unseen(sol, replayed(puzzle, changes), seen));
            }
        }
    }
}

/// True if the board `a` comes before the board `b` when the two are read
/// row by row: in the first square in which they differ, `a` has the lesser
/// value.
pub open spec fn comes_before(a: Seq<u32>, b: Seq<u32>) -> bool {
    exists|i: int| 0 <= i < 81 && #[trigger] a[i] < b[i] && forall|j: int| 0 <= j < i ==> a[j] == b[j]
}

/// The puzzle with the changes extends the puzzle with the first `k` of them.
proof fn lemma_replayed_extends(puzzle: Seq<u32>, changes: Seq<ValueChange>, k: int)
    requires
        is_board(puzzle),
        changes_ok(puzzle, changes),
        0 <= k <= changes.len(),
    ensures
        extends(replayed(puzzle, changes), replayed(puzzle, changes.take(k))),
    decreases changes.len() - k,
{
    if k < changes.len() {
        lemma_changes_prefix(puzzle, changes, k);
        lemma_replayed_extends(puzzle, changes, k + 1);
        lemma_changes_prefix(puzzle, changes, k + 1);
        lemma_replayed(puzzle, changes.take(k));
        lemma_replayed(puzzle, changes.take(k + 1));
        assert(changes.take(k + 1).drop_last() =~= changes.take(k));
        assert(extends(replayed(puzzle, changes.take(k + 1)), replayed(puzzle, changes.take(k))));
        lemma_extends_twice(
            replayed(puzzle, changes),
            replayed(puzzle, changes.take(k + 1)),
            replayed(puzzle, changes.take(k)),
        );
    } else {
        assert(changes.take(k) =~= changes);
    }
}

/// Where the search has passed over no solution but those in `seen`, the
/// one solution of the puzzle with the changes comes before every other
/// solution that is not in `seen`.
proof fn lemma_least(
    puzzle: Seq<u32>,
    changes: Seq<ValueChange>,
    seen: Set<Seq<u32>>,
    found: Seq<u32>,
    sol: Seq<u32>,
    k: int,
)
    requires
        is_board(puzzle),
        changes_ok(puzzle, changes),
        levels_ok(puzzle, changes, seen),
        solves(found, replayed(puzzle, changes)),
        forall|s: Seq<u32>| #[trigger] solves(s, replayed(puzzle, changes)) ==> s == found,
        0 <= k <= changes.len(),
        unseen(sol, replayed(puzzle, changes.take(k)), seen),
    ensures
        sol == found || comes_before(found, sol),
    decreases changes.len() - k,
{
    if k == changes.len() {
        assert(changes.take(k) =~= changes);
    } else {
        let part = changes.take(k);
        let start = replayed(puzzle, part);
        let i = change_square(changes[k]);
        assert(level_ok(puzzle, changes, k, seen));
        lemma_changes_prefix(puzzle, changes, k);
        lemma_changes_prefix(puzzle, changes, k + 1);
        lemma_replayed(puzzle, part);
        lemma_replayed_extends(puzzle, changes, k);
        lemma_replayed_extends(puzzle, changes, k + 1);
        lemma_extends_twice(found, replayed(puzzle, changes), start);
        lemma_fresh_covers(start);
        lemma_solved_settled(sol);
        lemma_solved_settled(found);
        lemma_advanced_below(start, fresh_notes(), sol);
        lemma_advanced_below(start, fresh_notes(), found);
        let before = settled_from(puzzle, part).0;
        lemma_first_empty(before, 0);
        assert(replayed(puzzle, changes.take(k + 1))[i] == changes[k].value);
        assert(found[i] == changes[k].value) by {
            assert(replayed(puzzle, changes)[i] == changes[k].value);
        }
        if sol[i] > changes[k].value {
            assert forall|j: int| 0 <= j < i implies found[j] == sol[j] by {
                assert(before[j] != 0);
                assert(sol[j] == before[j]);
                assert(found[j] == before[j]);
            }
            assert(found[i] < sol[i]);
        } else {
            assert(extends(sol, replayed(puzzle, changes.take(k + 1))));
            lemma_least(puzzle, changes, seen, found, sol, k + 1);
        }
    }
}

/// What is seen once a step has returned `found`.
pub open spec fn with_found(seen: Set<Seq<u32>>, found: Option<Seq<u32>>) -> Set<Seq<u32>> {
    match found {
        Some(solution) => seen.insert(solution),
        None => seen,
    }
}

/// True if the solutions in `seen` are those that the search has passed,
/// and no other. Before the first step no solution of the puzzle is in
/// `seen`. Where the search has found a solution, the solutions in `seen`
/// are those passed below its changes and the one solution of the puzzle
/// with the changes. Where the search is over, every solution of the puzzle
/// is in `seen`.
pub open spec fn passed(s: Search, seen: Set<Seq<u32>>) -> bool {
    if s.state is Found {
        &&& levels_ok(s.puzzle, s.changes, seen)
        &&& forall|sol: Seq<u32>| #[trigger]
            solves(sol, replayed(s.puzzle, s.changes)) ==> seen.contains(sol)
    } else if s.state is Exhausted {
        forall|sol: Seq<u32>| #[trigger] solves(sol, s.puzzle) ==> seen.contains(sol)
    } else {
        forall|sol: Seq<u32>| #[trigger] solves(sol, s.puzzle) ==> !seen.contains(sol)
    }
}

/// The place of a search in the order of its points.
pub open spec fn place(s: Search) -> int {
    rank(s.changes, 0)
}

/// What was passed below the changes stays so when a solution of the puzzle
/// with the changes is seen too.
proof fn lemma_levels_found(
    puzzle: Seq<u32>,
    changes: Seq<ValueChange>,
    seen: Set<Seq<u32>>,
    found: Seq<u32>,
)
    requires
        is_board(puzzle),
        changes_ok(puzzle, changes),
        levels_ok(puzzle, changes, seen),
        solves(found, replayed(puzzle, changes)),
    ensures
        levels_ok(puzzle, changes, seen.insert(found)),
{
    assert forall|k: int| 0 <= k < changes.len() implies #[trigger] level_ok(
        puzzle,
        changes,
        k,
        seen.insert(found),
    ) by {
        assert(level_ok(puzzle, changes, k, seen));
        lemma_replayed_extends(puzzle, changes, k + 1);
        lemma_changes_prefix(puzzle, changes, k);
        lemma_changes_prefix(puzzle, changes, k + 1);
        lemma_replayed(puzzle, changes.take(k));
        lemma_replayed(puzzle, changes);
        assert(found[change_square(changes[k])] == changes[k].value) by {
            assert(replayed(puzzle, changes.take(k + 1))[change_square(changes[k])]
                == changes[k].value);
            assert(replayed(puzzle, changes)[change_square(changes[k])] == changes[k].value);
        }
    }
}

/// The end of a search that began with the solutions in `seen` passed and
/// no other: the same holds after it, with what it returned seen too. What
/// it returned was not seen before, and comes before every other solution
/// that was not seen.
proof fn lemma_search_passes(
    s: Search,
    g: Seq<u32>,
    changes: Seq<ValueChange>,
    floor: int,
    seen: Set<Seq<u32>>,
)
    requires
        s.wf(),
        search_ok(s.puzzle, g, fresh_notes(), changes, floor),
        between(s.puzzle, g, fresh_notes(), changes),
        levels_ok(s.puzzle, changes, seen),
        floor_ok(s.puzzle, changes, floor, seen),
    ensures
        ({
            let outcome = search(s.puzzle, g, fresh_notes(), changes, floor);
            &&& passed(s.after(outcome), with_found(seen, outcome.1))
            &&& outcome.1 matches Some(found) ==> {
                &&& !seen.contains(found)
                &&& place(s.after(outcome)) >= rank(changes, floor)
                &&& forall|sol: Seq<u32>| #[trigger]
                    unseen(sol, s.puzzle, seen) ==> sol == found || comes_before(found, sol)
            }
        }),
{
    let outcome = search(s.puzzle, g, fresh_notes(), changes, floor);
    lemma_search_complete(s.puzzle, g, fresh_notes(), changes, floor, seen);
    lemma_search_sound(s.puzzle, g, fresh_notes(), changes, floor);
    if outcome.1.is_some() {
        let found = outcome.1.unwrap();
        let rest = outcome.0;
        lemma_replayed(s.puzzle, rest);
        lemma_fresh_covers(replayed(s.puzzle, rest));
        lemma_advanced_end(replayed(s.puzzle, rest), fresh_notes());
        lemma_extends_twice(found, replayed(s.puzzle, rest), s.puzzle);
        assert(solves(found, replayed(s.puzzle, rest)));
        lemma_levels_found(s.puzzle, rest, seen, found);
        assert forall|sol: Seq<u32>| #[trigger] unseen(sol, s.puzzle, seen) implies sol == found
            || comes_before(found, sol) by {
            assert(rest.take(0) =~= Seq::<ValueChange>::empty());
            lemma_least(s.puzzle, rest, seen, found, sol, 0);
        }
    }
}

/// One step of a search that has passed the solutions in `seen` and no
/// other leaves a search that has passed those and the one that the step
/// returns. A solution that the step returns was not returned before: it is
/// not in `seen`. It comes before every other solution that was not seen,
/// when the boards are read row by row. A step after a solution comes to a
/// later place in the order of the search, and the places are bounded: the
/// solutions come to an end.
pub proof fn theorem_step_passes(s: Search, seen: Set<Seq<u32>>)
    requires
        s.wf(),
        passed(s, seen),
    ensures
        passed(s.step().0, with_found(seen, s.step().1)),
        s.step().1 matches Some(found) ==> !seen.contains(found),
        s.step().1 matches Some(found) ==> forall|sol: Seq<u32>| #[trigger]
            unseen(sol, s.puzzle, seen) ==> sol == found || comes_before(found, sol),
        s.step().1.is_some() ==> 0 <= place(s.step().0) < weight(82),
        s.state is Found && s.step().1.is_some() ==> place(s) < place(s.step().0),
{
    crate::theorems::theorem_solutions_solve(s);
    lemma_replayed(s.step().0.puzzle, s.step().0.changes);
    lemma_rank_left(s.step().0.puzzle, s.step().0.changes, 0);
    if s.state is Exhausted {
    } else if s.changes.len() == 0 {
        if s.state is Exploring {
            lemma_fresh_covers(s.puzzle);
            lemma_advanced_end(s.puzzle, fresh_notes());
            lemma_search_passes(s, s.puzzle, s.changes, 0, seen);
        }
    } else {
        let rest = s.changes.drop_last();
        lemma_replayed(s.puzzle, s.changes);
        lemma_after_revert(s.puzzle, s.changes, seen);
        lemma_replayed(s.puzzle, rest);
        lemma_search_step(s.puzzle, replayed(s.puzzle, s.changes), fresh_notes(), s.changes, 0);
        lemma_search_passes(
            s,
            replayed(s.puzzle, rest),
            rest,
            s.changes.last().value as int,
            seen,
        );
    }
}

/// True if `found` is the solution of the puzzle that comes before all its
/// other solutions, when the boards are read row by row.
pub open spec fn least_solution(found: Seq<u32>, puzzle: Seq<u32>) -> bool {
    &&& solves(found, puzzle)
    &&& forall|sol: Seq<u32>| #[trigger]
        solves(sol, puzzle) ==> sol == found || comes_before(found, sol)
}

/// The search finds a solution if and only if the puzzle has one, and the
/// solution that it finds first is the least one.
pub proof fn theorem_finds_if_solvable(puzzle: Seq<u32>)
    requires
        is_board(puzzle),
    ensures
        first_solution(puzzle).is_some() <==> exists|sol: Seq<u32>| solves(sol, puzzle),
        first_solution(puzzle) matches Some(found) ==> least_solution(found, puzzle),
{
    let s = Search::start(puzzle);
    let seen = Set::<Seq<u32>>::empty();
    theorem_step_passes(s, seen);
    crate::theorems::theorem_solutions_solve(s);
    if first_solution(puzzle).is_some() {
        let found = first_solution(puzzle).unwrap();
        assert(solves(found, puzzle));
        assert forall|sol: Seq<u32>| #[trigger] solves(sol, puzzle) implies sol == found
            || comes_before(found, sol) by {
            assert(unseen(sol, puzzle, seen));
        }
    } else {
        assert forall|sol: Seq<u32>| !solves(sol, puzzle) by {
            if solves(sol, puzzle) {
                assert(seen.contains(sol));
            }
        }
    }
}

/// The search on `puzzle` after `k` steps.
pub open spec fn after_steps(puzzle: Seq<u32>, k: nat) -> Search
    decreases k,
{
    if k == 0 {
        Search::start(puzzle)
    } else {
        after_steps(puzzle, (k - 1) as nat).step().0
    }
}

/// The solutions that the first `k` steps of the search on `puzzle` return.
pub open spec fn returned(puzzle: Seq<u32>, k: nat) -> Set<Seq<u32>>
    decreases k,
{
    if k == 0 {
        Set::empty()
    } else {
        with_found(returned(puzzle, (k - 1) as nat), after_steps(puzzle, (k - 1) as nat).step().1)
    }
}

/// How many of the first `k` steps of the search on `puzzle` return a
/// solution.
pub open spec fn results(puzzle: Seq<u32>, k: nat) -> nat
    decreases k,
{
    if k == 0 {
        0
    } else if after_steps(puzzle, (k - 1) as nat).step().1.is_some() {
        results(puzzle, (k - 1) as nat) + 1
    } else {
        results(puzzle, (k - 1) as nat)
    }
}

/// What the steps of a search return are solutions of the puzzle, each one
/// returned once: a step returns no solution that an earlier step returned,
/// so the solutions returned are as many as the steps that returned one.
/// Once the search is over they are all the solutions of the puzzle: a
/// puzzle with `n` solutions gives `n` results, all different, and then
/// none.
pub proof fn theorem_returns_all(puzzle: Seq<u32>, k: nat)
    requires
        is_board(puzzle),
    ensures
        after_steps(puzzle, k).wf(),
        after_steps(puzzle, k).puzzle == puzzle,
        passed(after_steps(puzzle, k), returned(puzzle, k)),
        forall|sol: Seq<u32>| returned(puzzle, k).contains(sol) ==> solves(sol, puzzle),
        after_steps(puzzle, k).step().1 matches Some(found) ==> !returned(puzzle, k).contains(
            found,
        ),
        returned(puzzle, k).finite(),
        returned(puzzle, k).len() == results(puzzle, k),
        after_steps(puzzle, k).state is Exhausted ==> forall|sol: Seq<u32>|
            returned(puzzle, k).contains(sol) <==> #[trigger] solves(sol, puzzle),
    decreases k,
{
    if k > 0 {
        let before = after_steps(puzzle, (k - 1) as nat);
        theorem_returns_all(puzzle, (k - 1) as nat);
        theorem_step_passes(before, returned(puzzle, (k - 1) as nat));
        crate::theorems::theorem_solutions_solve(before);
    }
    theorem_step_passes(after_steps(puzzle, k), returned(puzzle, k));
}

/// The solutions of a puzzle, as a set.
pub open spec fn solutions(puzzle: Seq<u32>) -> Set<Seq<u32>> {
    Set::new(|sol: Seq<u32>| solves(sol, puzzle))
}

/// Once the search is over it has returned as many results as the puzzle
/// has solutions: a puzzle with one solution gives one result, a puzzle
/// with two solutions gives two, and a puzzle without solution gives none.
pub proof fn theorem_as_many_results(puzzle: Seq<u32>, k: nat)
    requires
        is_board(puzzle),
        after_steps(puzzle, k).state is Exhausted,
    ensures
        solutions(puzzle) == returned(puzzle, k),
        solutions(puzzle).finite(),
        solutions(puzzle).len() == results(puzzle, k),
{
    theorem_returns_all(puzzle, k);
    assert(solutions(puzzle) =~= returned(puzzle, k));
}

/// A search that has returned `k` solutions in `k` steps stands at the
/// place `k - 1` of its order, or later.
proof fn lemma_places(puzzle: Seq<u32>, k: nat)
    requires
        is_board(puzzle),
        k > 0,
        after_steps(puzzle, k).state is Found,
    ensures
        k - 1 <= place(after_steps(puzzle, k)) < weight(82),
    decreases k,
{
    let before = after_steps(puzzle, (k - 1) as nat);
    theorem_returns_all(puzzle, (k - 1) as nat);
    theorem_step_passes(before, returned(puzzle, (k - 1) as nat));
    if k > 1 {
        assert(before.state is Found);
        lemma_places(puzzle, (k - 1) as nat);
    }
}

/// Every search comes to an end: after finitely many steps it is over.
pub proof fn theorem_search_ends(puzzle: Seq<u32>)
    requires
        is_board(puzzle),
    ensures
        exists|k: nat| (#[trigger] after_steps(puzzle, k)).state is Exhausted,
{
    let k = (weight(82) + 1) as nat;
    lemma_rank_left(puzzle, Seq::empty(), 0);
    if after_steps(puzzle, k).state is Found {
        lemma_places(puzzle, k);
    }
    let before = after_steps(puzzle, (k - 1) as nat);
    assert(!(before.step().0.state is Exploring)) by {
        theorem_returns_all(puzzle, (k - 1) as nat);
    }
    assert(after_steps(puzzle, k).state is Exhausted);
}

} // verus!
