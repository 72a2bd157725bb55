//! What deduction does to the solutions of a board: it fills a square only
//! with the value that every solution has there, and it ends at the same
//! board on whatever way it gets there.

use crate::grid::{
    cell_unit, column_unit, in_unit, is_board, is_solved_board, is_valid_board, lemma_own_units,
    lemma_unit_position, lemma_unit_square, positions_of, row_unit, unit_distinct, unit_holds,
    unit_position, unit_square,
};
use crate::notes::fresh_notes;
use crate::propagate::{
    advanced, candidates, committed, dead_end, forced, forced_squares, free_in,
    lemma_commit_fills, lemma_forced_squares, lemma_single, propagated,
};
use crate::search::{
    changes_ok, contradictory, extends, lemma_advanced, lemma_replayed, replayed, ValueChange,
};
use crate::theorems::lemma_extends_invalid;
use vstd::prelude::*;

verus! {

/// In a valid board no unit holds a value but 0 twice.
pub proof fn lemma_valid_units(g: Seq<u32>, u: int)
    requires
        is_valid_board(g),
        0 <= u < 27,
    ensures
        unit_distinct(g, u),
{
    if u < 9 {
        assert(u == row_unit(u));
    } else if u < 18 {
        assert(u == column_unit(u - 9));
    }
}

/// Two squares of one unit of a valid board do not hold the same value,
/// unless they are empty.
pub proof fn lemma_conflict(g: Seq<u32>, u: int, i: int, j: int)
    requires
        is_valid_board(g),
        0 <= u < 27,
        0 <= i < 81,
        0 <= j < 81,
        i != j,
        in_unit(u, i),
        in_unit(u, j),
        g[i] != 0,
    ensures
        g[i] != g[j],
{
    lemma_valid_units(g, u);
    lemma_unit_position(u, i);
    lemma_unit_position(u, j);
    let a = unit_position(u, i);
    let b = unit_position(u, j);
    assert(g[unit_square(u, a)] != g[unit_square(u, b)]);
}

/// A unit of a board holds the values that the unit holds in a board that
/// the first extends.
pub proof fn lemma_unit_holds_more(g: Seq<u32>, h: Seq<u32>, u: int, d: int)
    requires
        extends(g, h),
        0 <= u < 27,
        d != 0,
        unit_holds(h, u, d),
    ensures
        unit_holds(g, u, d),
{
    let k = choose|k: int| 0 <= k < 9 && h[#[trigger] unit_square(u, k)] == d;
    lemma_unit_square(u, k);
    assert(g[unit_square(u, k)] == d);
}

/// The candidates of a square in a board are candidates of the square in
/// every board that the first extends.
pub proof fn lemma_candidates_shrink(g: Seq<u32>, h: Seq<u32>, i: int)
    requires
        extends(g, h),
        0 <= i < 81,
    ensures
        candidates(g, i).subset_of(candidates(h, i)),
{
    lemma_own_units(i);
    assert forall|d: int| candidates(g, i).contains(d) implies candidates(h, i).contains(d) by {
        if unit_holds(h, column_unit(i % 9), d) {
            lemma_unit_holds_more(g, h, column_unit(i % 9), d);
        }
        if unit_holds(h, row_unit(i / 9), d) {
            lemma_unit_holds_more(g, h, row_unit(i / 9), d);
        }
        if unit_holds(h, cell_unit(i % 9, i / 9), d) {
            lemma_unit_holds_more(g, h, cell_unit(i % 9, i / 9), d);
        }
    }
}

/// A value that a valid board holds in a square is absent from the units
/// of that square in every board that the valid board extends and that
/// leaves the square empty.
proof fn lemma_absent(g: Seq<u32>, h: Seq<u32>, u: int, i: int)
    requires
        is_board(g),
        is_valid_board(g),
        extends(g, h),
        0 <= u < 27,
        0 <= i < 81,
        in_unit(u, i),
        h[i] == 0,
        g[i] != 0,
    ensures
        free_in(h, u).contains(g[i] as int),
{
    if unit_holds(h, u, g[i] as int) {
        let k = choose|k: int| 0 <= k < 9 && h[#[trigger] unit_square(u, k)] == g[i] as int;
        lemma_unit_square(u, k);
        let j = unit_square(u, k);
        assert(g[j] == h[j]);
        lemma_conflict(g, u, i, j);
    }
}

/// A value that a valid board holds in a square is a candidate of the square
/// in every board that the valid board extends and that leaves the square
/// empty.
pub proof fn lemma_value_is_candidate(g: Seq<u32>, h: Seq<u32>, i: int)
    requires
        is_board(g),
        is_valid_board(g),
        extends(g, h),
        0 <= i < 81,
        h[i] == 0,
        g[i] != 0,
    ensures
        candidates(h, i).contains(g[i] as int),
{
    lemma_own_units(i);
    lemma_absent(g, h, column_unit(i % 9), i);
    lemma_absent(g, h, row_unit(i / 9), i);
    lemma_absent(g, h, cell_unit(i % 9, i / 9), i);
}

/// True if the notes hold, for every empty square of the board, at least
/// its candidates.
pub open spec fn covers(n: Seq<Set<int>>, g: Seq<u32>) -> bool {
    &&& n.len() == 81
    &&& forall|i: int| 0 <= i < 81 && g[i] == 0 ==> candidates(g, i).subset_of(#[trigger] n[i])
}

/// True if the notes hold, for every empty square of the board, exactly its
/// candidates.
pub open spec fn exact(n: Seq<Set<int>>, g: Seq<u32>) -> bool {
    &&& n.len() == 81
    &&& forall|i: int| 0 <= i < 81 && g[i] == 0 ==> #[trigger] n[i] == candidates(g, i)
}

/// True if the board is valid and each of its empty squares has two
/// candidates or more: deduction has nothing to add and nothing to object.
pub open spec fn settled(g: Seq<u32>) -> bool {
    &&& is_board(g)
    &&& is_valid_board(g)
    &&& forall|i: int| 0 <= i < 81 && g[i] == 0 ==> #[trigger] candidates(g, i).len() >= 2
}

/// The candidates of a square are finitely many values from 1 to 9.
pub proof fn lemma_candidates(g: Seq<u32>, i: int)
    ensures
        candidates(g, i).finite(),
        candidates(g, i).len() <= 9,
        forall|d: int| candidates(g, i).contains(d) ==> 1 <= d <= 9,
{
    crate::notes::lemma_nine_digits();
    assert(candidates(g, i).subset_of(crate::bits::all_digits()));
    vstd::set_lib::lemma_len_subset(candidates(g, i), crate::bits::all_digits());
}

/// A round of notes on notes that cover the board leaves exactly the
/// candidates in the empty squares.
pub proof fn lemma_propagated_exact(n: Seq<Set<int>>, g: Seq<u32>)
    requires
        covers(n, g),
    ensures
        exact(propagated(n, g), g),
{
    assert forall|i: int| 0 <= i < 81 && g[i] == 0 implies #[trigger] propagated(n, g)[i]
        == candidates(g, i) by {
        assert(n[i].intersect(candidates(g, i)) =~= candidates(g, i));
    }
}

/// After a round of notes on a board with covering notes and the filling
/// of the forced squares, the notes cover the new board, which extends the
/// old one.
pub proof fn lemma_committed_covers(n: Seq<Set<int>>, g: Seq<u32>)
    requires
        is_board(g),
        covers(n, g),
    ensures
        is_board(committed(g, propagated(n, g))),
        extends(committed(g, propagated(n, g)), g),
        covers(propagated(n, g), committed(g, propagated(n, g))),
{
    let noted = propagated(n, g);
    let next = committed(g, noted);
    lemma_commit_fills(g, n);
    lemma_propagated_exact(n, g);
    assert(is_board(next)) by {
        assert forall|i: int| 0 <= i < 81 implies #[trigger] next[i] <= 9 by {}
    }
    assert forall|i: int| 0 <= i < 81 && next[i] == 0 implies candidates(next, i).subset_of(
        #[trigger] noted[i],
    ) by {
        lemma_candidates_shrink(next, g, i);
    }
}

/// Deduction on a board with covering notes ends with notes that hold
/// exactly the candidates of each empty square.
pub proof fn lemma_advanced_exact(g: Seq<u32>, n: Seq<Set<int>>)
    requires
        is_board(g),
        covers(n, g),
    ensures
        exact(advanced(g, n).1, advanced(g, n).0),
    decreases positions_of(g, 0).len(),
{
    let noted = propagated(n, g);
    if forced_squares(g, noted).len() != 0 {
        lemma_commit_fills(g, n);
        lemma_committed_covers(n, g);
        lemma_advanced_exact(committed(g, noted), noted);
    } else {
        lemma_propagated_exact(n, g);
    }
}

/// Deduction stays below every settled board: what it adds to a board with
/// covering notes, every settled board that extends the board holds too.
pub proof fn lemma_advanced_below(g: Seq<u32>, n: Seq<Set<int>>, b: Seq<u32>)
    requires
        is_board(g),
        covers(n, g),
        settled(b),
        extends(b, g),
    ensures
        extends(b, advanced(g, n).0),
    decreases positions_of(g, 0).len(),
{
    let noted = propagated(n, g);
    if forced_squares(g, noted).len() != 0 {
        let next = committed(g, noted);
        lemma_commit_fills(g, n);
        lemma_committed_covers(n, g);
        lemma_propagated_exact(n, g);
        assert forall|i: int| 0 <= i < 81 && next[i] != 0 implies #[trigger] b[i] == next[i] by {
            if g[i] == 0 {
                assert(forced(g, noted, i));
                lemma_candidates(g, i);
                if b[i] == 0 {
                    lemma_candidates_shrink(b, g, i);
                    lemma_candidates(b, i);
                    vstd::set_lib::lemma_len_subset(candidates(b, i), candidates(g, i));
                } else {
                    lemma_value_is_candidate(b, g, i);
                    lemma_single(candidates(g, i), b[i] as int, next[i] as int);
                }
            }
        }
        lemma_advanced_below(next, noted, b);
    }
}

/// A board that extends a board which extends a third one extends the third.
pub proof fn lemma_extends_twice(g: Seq<u32>, h: Seq<u32>, k: Seq<u32>)
    requires
        extends(g, h),
        extends(h, k),
    ensures
        extends(g, k),
{
    assert forall|i: int| 0 <= i < 81 && k[i] != 0 implies #[trigger] g[i] == k[i] by {
        assert(h[i] == k[i]);
    }
}

/// Two boards that extend each other are the same board.
pub proof fn lemma_extends_both(g: Seq<u32>, h: Seq<u32>)
    requires
        is_board(g),
        is_board(h),
        extends(g, h),
        extends(h, g),
    ensures
        g == h,
{
    assert forall|i: int| 0 <= i < 81 implies g[i] == h[i] by {
        if h[i] != 0 {
            assert(g[i] == h[i]);
        } else if g[i] != 0 {
            assert(h[i] == g[i]);
        }
    }
    assert(g =~= h);
}

/// Fresh notes cover every board.
pub proof fn lemma_fresh_covers(g: Seq<u32>)
    ensures
        covers(fresh_notes(), g),
{
    assert forall|i: int| 0 <= i < 81 && g[i] == 0 implies candidates(g, i).subset_of(
        #[trigger] fresh_notes()[i],
    ) by {
        lemma_candidates(g, i);
    }
}

/// A solved board is settled.
pub proof fn lemma_solved_settled(s: Seq<u32>)
    requires
        is_board(s),
        is_solved_board(s),
    ensures
        settled(s),
{
}

/// Where deduction ends on a board with covering notes: at a board that
/// extends the first, with notes that hold exactly the candidates of each
/// empty square, none of which has a single candidate. The end is settled
/// if and only if it is not contradictory.
pub proof fn lemma_advanced_end(g: Seq<u32>, n: Seq<Set<int>>)
    requires
        is_board(g),
        covers(n, g),
    ensures
        is_board(advanced(g, n).0),
        extends(advanced(g, n).0, g),
        exact(advanced(g, n).1, advanced(g, n).0),
        forall|i: int|
            0 <= i < 81 && advanced(g, n).0[i] == 0 ==> #[trigger] candidates(
                advanced(g, n).0,
                i,
            ).len() != 1,
        settled(advanced(g, n).0) == !contradictory(advanced(g, n).0, advanced(g, n).1),
{
    let (filled, noted) = advanced(g, n);
    lemma_advanced(g, n);
    lemma_advanced_exact(g, n);
    lemma_forced_squares(filled, noted);
    assert forall|i: int| 0 <= i < 81 && filled[i] == 0 implies #[trigger] candidates(
        filled,
        i,
    ).len() != 1 by {
        if candidates(filled, i).len() == 1 {
            assert(noted[i] == candidates(filled, i));
            assert(forced_squares(filled, noted).contains(i));
        }
    }
    if settled(filled) {
        if dead_end(filled, noted) {
            let i = choose|i: int| 0 <= i < 81 && filled[i] == 0 && (#[trigger] noted[i]).len() == 0;
            assert(candidates(filled, i).len() >= 2);
        }
    }
    if !contradictory(filled, noted) {
        assert forall|i: int| 0 <= i < 81 && filled[i] == 0 implies #[trigger] candidates(
            filled,
            i,
        ).len() >= 2 by {
            assert(noted[i] == candidates(filled, i));
            assert(noted[i].len() != 0);
        }
    }
}

/// A board below a settled board, none of whose empty squares has a single
/// candidate, is settled.
pub proof fn lemma_below_settled(g: Seq<u32>, b: Seq<u32>)
    requires
        is_board(g),
        settled(b),
        extends(b, g),
        forall|i: int| 0 <= i < 81 && g[i] == 0 ==> #[trigger] candidates(g, i).len() != 1,
    ensures
        settled(g),
{
    if !is_valid_board(g) {
        lemma_extends_invalid(b, g);
    }
    assert forall|i: int| 0 <= i < 81 && g[i] == 0 implies #[trigger] candidates(g, i).len()
        >= 2 by {
        lemma_candidates(g, i);
        if b[i] == 0 {
            lemma_candidates_shrink(b, g, i);
            vstd::set_lib::lemma_len_subset(candidates(b, i), candidates(g, i));
        } else {
            lemma_value_is_candidate(b, g, i);
            if candidates(g, i).len() == 0 {
                assert(candidates(g, i).contains(b[i] as int));
            }
        }
    }
}

/// What deduction makes of the puzzle with the changes made on it, from
/// fresh notes.
pub open spec fn settled_from(puzzle: Seq<u32>, changes: Seq<ValueChange>) -> (
    Seq<u32>,
    Seq<Set<int>>,
) {
    advanced(replayed(puzzle, changes), fresh_notes())
}

/// True if the board `g` with the notes `n` lies between the puzzle with the
/// changes made on it and what deduction makes of that.
pub open spec fn between(
    puzzle: Seq<u32>,
    g: Seq<u32>,
    n: Seq<Set<int>>,
    changes: Seq<ValueChange>,
) -> bool {
    &&& is_board(puzzle)
    &&& changes_ok(puzzle, changes)
    &&& is_board(g)
    &&& covers(n, g)
    &&& extends(g, replayed(puzzle, changes))
    &&& settled(settled_from(puzzle, changes).0) ==> extends(settled_from(puzzle, changes).0, g)
}

/// Deduction does not depend on the way: from a board between the puzzle
/// with the changes and what deduction makes of that, it ends where
/// deduction from the puzzle with the changes ends, or both ends are
/// contradictory.
pub proof fn lemma_confluence(
    puzzle: Seq<u32>,
    g: Seq<u32>,
    n: Seq<Set<int>>,
    changes: Seq<ValueChange>,
)
    requires
        between(puzzle, g, n, changes),
    ensures
        contradictory(advanced(g, n).0, advanced(g, n).1) == contradictory(
            settled_from(puzzle, changes).0,
            settled_from(puzzle, changes).1,
        ),
        !contradictory(advanced(g, n).0, advanced(g, n).1) ==> advanced(g, n).0 == settled_from(
            puzzle,
            changes,
        ).0,
{
    let start = replayed(puzzle, changes);
    let (filled, noted) = advanced(g, n);
    let (end, end_notes) = settled_from(puzzle, changes);
    lemma_replayed(puzzle, changes);
    lemma_fresh_covers(start);
    lemma_advanced_end(g, n);
    lemma_advanced_end(start, fresh_notes());
    if settled(filled) {
        lemma_extends_twice(filled, g, start);
        lemma_advanced_below(start, fresh_notes(), filled);
        lemma_below_settled(end, filled);
    }
    if settled(end) {
        lemma_advanced_below(g, n, end);
        lemma_below_settled(filled, end);
        lemma_extends_twice(filled, g, start);
        lemma_advanced_below(start, fresh_notes(), filled);
        lemma_extends_both(filled, end);
    }
}

} // verus!
