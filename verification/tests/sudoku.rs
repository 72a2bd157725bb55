use sudoku::propagate::make_all_notes;
use sudoku::{NotesGrid, Sudoku, SudokuNote, SudokuNoteIter, NUM_SQUARES};

/// Gather the values of a traversal of a note.
fn collect(mut values: SudokuNoteIter) -> Vec<u32> {
    let mut gathered = Vec::new();
    while let Some(value) = values.next() {
        gathered.push(value);
    }
    gathered
}

/// Make `note` hold the values that `flags` has a bit for: bit `value - 1`
/// for `value`.
fn set_flags(note: &mut SudokuNote, flags: u32) {
    for value in 1..=9 {
        note.note(value, (flags >> (value - 1)) & 1 == 1);
    }
}

/// A very simple Sudoku puzzle.
///
/// Generated with https://sudokukingdom.com/very-easy-sudoku.php (accessed 15.08.2022)
const EXTREMELY_SIMPLE_SUDOKU: [u32; NUM_SQUARES] = [7, 0, 6, 0, 5, 0, 4, 1, 9,
                                                     0, 0, 9, 0, 7, 4, 8, 0, 0,
                                                     4, 8, 0, 6, 0, 9, 0, 0, 5,
                                                     0, 0, 8, 9, 0, 5, 0, 3, 4,
                                                     9, 4, 2, 0, 6, 0, 1, 0, 0,
                                                     3, 0, 0, 4, 0, 1, 0, 9, 2,
                                                     0, 9, 0, 0, 0, 6, 5, 8, 1,
                                                     5, 3, 0, 1, 4, 0, 0, 2, 0,
                                                     0, 6, 1, 5, 9, 0, 3, 0, 0];

/// The solved state of [EXTREMELY_SIMPLE_SUDOKU].
const EXTREMELY_SIMPLE_SUDOKU_SOLUTION: [u32; NUM_SQUARES] = [7, 2, 6, 8, 5, 3, 4, 1, 9,
                                                              1, 5, 9, 2, 7, 4, 8, 6, 3,
                                                              4, 8, 3, 6, 1, 9, 2, 7, 5,
                                                              6, 1, 8, 9, 2, 5, 7, 3, 4,
                                                              9, 4, 2, 3, 6, 7, 1, 5, 8,
                                                              3, 7, 5, 4, 8, 1, 6, 9, 2,
                                                              2, 9, 4, 7, 3, 6, 5, 8, 1,
                                                              5, 3, 7, 1, 4, 8, 9, 2, 6,
                                                              8, 6, 1, 5, 9, 2, 3, 4, 7];


// Sudoku methods

#[test]
fn new_empty_is_empty() {
    let empty_grid = Sudoku::new_empty();
    
    for x in 0..9 {
        for y in 0..9 {
            assert_eq!(empty_grid.get_value(x, y), 0);
        }
    }
}

#[test]
fn get_value_set_value() {
    let mut grid = Sudoku::new_empty();

    grid.set_value(3, 4, 3);

    let result = grid.get_value(3, 4);
    let expected = 3;

    assert_eq!(expected, result);
}

#[test]
fn new_from_array_sample_test() {
    let grid = Sudoku::new_from_array(EXTREMELY_SIMPLE_SUDOKU);

    assert_eq!(grid.get_value(0, 0), 7);
    assert_eq!(grid.get_value(2, 3), 8);
    assert_eq!(grid.get_value(1, 0), 0);
    assert_eq!(grid.get_value(0, 1), 0);
    assert_eq!(grid.get_value(5, 7), 0);
    assert_eq!(grid.get_value(8, 3), 4);
}

#[test]
fn is_solved_yes() {
    // Values generated with http://www.opensky.ca/sudoku
    let solved_sudoku = Sudoku::new_from_array([1, 9, 2, 7, 5, 3, 6, 8, 4,
                                                7, 6, 5, 8, 9, 4, 1, 3, 2,
                                                3, 8, 4, 1, 2, 6, 9, 5, 7,
                                                2, 5, 8, 4, 7, 1, 3, 6, 9,
                                                4, 1, 7, 6, 3, 9, 5, 2, 8,
                                                9, 3, 6, 5, 8, 2, 4, 7, 1,
                                                8, 4, 9, 2, 6, 5, 7, 1, 3,
                                                6, 7, 1, 3, 4, 8, 2, 9, 5,
                                                5, 2, 3, 9, 1, 7, 8, 4, 6]);

    assert!(solved_sudoku.is_solved());
}

#[test]
fn is_solved_no_because_contains_0() {
    // Values generated with http://www.opensky.ca/sudoku, then changed
    //
    // Note the `0` inserted at position (x = 1 / y = 2)
    let unsolved_sudoku = Sudoku::new_from_array([1, 9, 2, 7, 5, 3, 6, 8, 4,
                                                  7, 6, 5, 8, 9, 4, 1, 3, 2,
                                                  3, 0, 4, 1, 2, 6, 9, 5, 7,
                                                  2, 5, 8, 4, 7, 1, 3, 6, 9,
                                                  4, 1, 7, 6, 3, 9, 5, 2, 8,
                                                  9, 3, 6, 5, 8, 2, 4, 7, 1,
                                                  8, 4, 9, 2, 6, 5, 7, 1, 3,
                                                  6, 7, 1, 3, 4, 8, 2, 9, 5,
                                                  5, 2, 3, 9, 1, 7, 8, 4, 6]);

    assert!(unsolved_sudoku.has_empty_squares());

    assert!(unsolved_sudoku.fulfills_horizontal_condition());
    assert!(unsolved_sudoku.fulfills_vertical_condition());
    assert!(unsolved_sudoku.fulfills_in_3x3_cell_condition());

    assert!(!unsolved_sudoku.is_solved());
}

#[test]
fn is_solved_no_contains_double_value() {
    // Values generated with http://www.opensky.ca/sudoku, then changed
    //
    // Note the `3` inserted at position (x = 2 / y = 7)
    let unsolved_sudoku = Sudoku::new_from_array([1, 9, 2, 7, 5, 3, 6, 8, 4,
                                                  7, 6, 5, 8, 9, 4, 1, 3, 2,
                                                  3, 8, 4, 1, 2, 6, 9, 5, 7,
                                                  2, 5, 8, 4, 7, 1, 3, 6, 9,
                                                  4, 1, 7, 6, 3, 9, 5, 2, 8,
                                                  9, 3, 6, 5, 8, 2, 4, 7, 1,
                                                  8, 4, 9, 2, 6, 5, 7, 1, 3,
                                                  6, 7, 3, 3, 4, 8, 2, 9, 5,
                                                  5, 2, 3, 9, 1, 7, 8, 4, 6]);

    assert!(!unsolved_sudoku.has_empty_squares());

    assert!(!unsolved_sudoku.fulfills_horizontal_condition());
    assert!(!unsolved_sudoku.fulfills_vertical_condition());
    assert!(!unsolved_sudoku.fulfills_in_3x3_cell_condition());

    assert!(!unsolved_sudoku.is_solved());
}

#[test]
fn is_solved_no_vertical() {
    let unsolved_sudoku = Sudoku:: new_from_array([1, 4, 7, 2, 5, 8, 3, 6, 9,
                                                   2, 5, 8, 3, 6, 9, 4, 7, 1,
                                                   3, 6, 9, 4, 7, 1, 5, 8, 2,
                                                   1, 4, 7, 2, 5, 8, 3, 6, 9,
                                                   2, 5, 8, 3, 6, 9, 4, 7, 1,
                                                   3, 6, 9, 4, 7, 1, 5, 8, 2,
                                                   1, 4, 7, 2, 5, 8, 3, 6, 9,
                                                   2, 5, 8, 3, 6, 9, 4, 7, 1,
                                                   3, 6, 9, 4, 7, 1, 5, 8, 2]);

    assert!(!unsolved_sudoku.has_empty_squares());

    assert!(unsolved_sudoku.fulfills_horizontal_condition());
    assert!(!unsolved_sudoku.fulfills_vertical_condition());
    assert!(unsolved_sudoku.fulfills_in_3x3_cell_condition());

    assert!(!unsolved_sudoku.is_solved());
}

#[test]
fn is_solved_no_horizontal() {
    let unsolved_sudoku = Sudoku::new_from_array([1, 2, 3, 1, 2, 3, 1, 2, 3,
                                                  4, 5, 6, 4, 5, 6, 4, 5, 6,
                                                  7, 8, 9, 7, 8, 9, 7, 8, 9,
                                                  2, 3, 4, 2, 3, 4, 2, 3, 4,
                                                  5, 6, 7, 5, 6, 7, 5, 6, 7,
                                                  8, 9, 1, 8, 9, 1, 8, 9, 1,
                                                  3, 4, 5, 3, 4, 5, 3, 4, 5,
                                                  6, 7, 8, 6, 7, 8, 6, 7, 8,
                                                  9, 1, 2, 9, 1, 2, 9, 1, 2]);

    assert!(!unsolved_sudoku.has_empty_squares());

    assert!(!unsolved_sudoku.fulfills_horizontal_condition());
    assert!(unsolved_sudoku.fulfills_vertical_condition());
    assert!(unsolved_sudoku.fulfills_in_3x3_cell_condition());

    assert!(!unsolved_sudoku.is_solved());
}

#[test]
fn is_solved_no_3x3_cell() {
    let unsolved_sudoku = Sudoku::new_from_array([1, 2, 3, 4, 5, 6, 7, 8, 9,
                                                  9, 1, 2, 3, 4, 5, 6, 7, 8,
                                                  8, 9, 1, 2, 3, 4, 5, 6, 7,
                                                  7, 8, 9, 1, 2, 3, 4, 5, 6,
                                                  6, 7, 8, 9, 1, 2, 3, 4, 5,
                                                  5, 6, 7, 8, 9, 1, 2, 3, 4,
                                                  4, 5, 6, 7, 8, 9, 1, 2, 3,
                                                  3, 4, 5, 6, 7, 8, 9, 1, 2,
                                                  2, 3, 4, 5, 6, 7, 8, 9, 1]);

    assert!(!unsolved_sudoku.has_empty_squares());

    assert!(unsolved_sudoku.fulfills_horizontal_condition());
    assert!(unsolved_sudoku.fulfills_vertical_condition());
    assert!(!unsolved_sudoku.fulfills_in_3x3_cell_condition());

    assert!(!unsolved_sudoku.is_solved());
}

#[test]
fn find_solution_extremely_simple_sudoku() {
    let expected_solution = Sudoku::new_from_array(EXTREMELY_SIMPLE_SUDOKU_SOLUTION);

    let puzzle = Sudoku::new_from_array(EXTREMELY_SIMPLE_SUDOKU);
    let found_solution = puzzle.find_solution();

    assert_eq!(found_solution, Some(expected_solution));
}

#[test]
fn find_solution_extremely_difficult_sudoku() {
    let extremely_difficult_sudoku = Sudoku::new_from_array([9, 4, 0, 0, 5, 0, 8, 0, 0,
                                                             0, 0, 0, 0, 3, 4, 0, 0, 9,
                                                             0, 0, 0, 0, 0, 0, 0, 2, 5,
                                                             1, 5, 9, 0, 7, 0, 0, 4, 0,
                                                             0, 0, 0, 5, 0, 6, 0, 0, 0,
                                                             0, 6, 0, 0, 4, 0, 5, 9, 7,
                                                             6, 2, 0, 0, 0, 0, 0, 0, 0,
                                                             3, 0, 0, 7, 2, 0, 0, 0, 0,
                                                             0, 0, 4, 0, 8, 0, 0, 3, 2]);

    let expected_solution = Sudoku::new_from_array([9, 4, 6, 2, 5, 7, 8, 1, 3,
                                                    2, 8, 5, 1, 3, 4, 6, 7, 9,
                                                    7, 3, 1, 9, 6, 8, 4, 2, 5,
                                                    1, 5, 9, 8, 7, 2, 3, 4, 6,
                                                    4, 7, 3, 5, 9, 6, 2, 8, 1,
                                                    8, 6, 2, 3, 4, 1, 5, 9, 7,
                                                    6, 2, 7, 4, 1, 3, 9, 5, 8,
                                                    3, 9, 8, 7, 2, 5, 1, 6, 4,
                                                    5, 1, 4, 6, 8, 9, 7, 3, 2]);

    let found_solution = extremely_difficult_sudoku.find_solution();

    assert_eq!(found_solution.unwrap(), expected_solution);
}

#[test]
fn find_solution_dead_end() {
    let dead_end = Sudoku::new_from_array([1, 2, 0, 4, 5, 6, 7, 8, 9,
                                           0, 0, 3, 0, 0, 0, 0, 0, 0,
                                           0, 0, 0, 0, 0, 0, 0, 0, 0,
                                           0, 0, 0, 0, 0, 0, 0, 0, 0,
                                           0, 0, 0, 0, 0, 0, 0, 0, 0,
                                           0, 0, 0, 0, 0, 0, 0, 0, 0,
                                           0, 0, 0, 0, 0, 0, 0, 0, 0,
                                           0, 0, 0, 0, 0, 0, 0, 0, 0,
                                           0, 0, 0, 0, 0, 0, 0, 0, 0]);

    let solution = dead_end.find_solution();

    assert_eq!(solution, None);
}

#[test]
fn find_solution_invalid_sudoku() {
    let invalid_sudoku = Sudoku::new_from_array([0, 0, 0, 4, 4, 0, 0, 0, 9,
                                                 0, 8, 5, 0, 0, 3, 0, 0, 0,
                                                 4, 0, 9, 6, 0, 0, 0, 3, 7,
                                                 3, 0, 0, 5, 0, 4, 0, 0, 0,
                                                 5, 0, 4, 0, 1, 0, 6, 0, 3,
                                                 0, 0, 0, 3, 0, 7, 0, 0, 5,
                                                 8, 1, 0, 0, 0, 9, 7, 0, 6,
                                                 0, 0, 0, 2, 0, 0, 1, 9, 0,
                                                 9, 0, 0, 0, 5, 0, 0, 0, 0]);

    let solution = invalid_sudoku.find_solution();

    assert_eq!(solution, None);
}

/// This used to be a bug. The solver would try to solve invalid Sudoku
/// puzzles too. `find_solution_invalid_sudoku()` was not enough to find
/// that bug.
#[test]
fn find_solution_invalid_sudoku_2() {
    // Values generated with http://www.opensky.ca/sudoku, then changed
    //
    // Note the two 9's at coordinates (0 / 0) and (1 / 0)
    let invalid_sudoku = Sudoku::new_from_array([9, 9, 2, 7, 5, 3, 6, 8, 4,
                                                 7, 6, 5, 8, 9, 4, 1, 3, 2,
                                                 3, 8, 4, 1, 2, 6, 9, 5, 7,
                                                 2, 5, 8, 4, 7, 1, 3, 6, 9,
                                                 4, 1, 7, 6, 3, 9, 5, 2, 8,
                                                 9, 3, 6, 5, 8, 2, 4, 7, 1,
                                                 8, 4, 9, 2, 6, 5, 7, 1, 3,
                                                 6, 7, 1, 3, 4, 8, 2, 9, 5,
                                                 5, 2, 3, 9, 1, 7, 8, 4, 6]);

    let solution = invalid_sudoku.find_solution();

    assert_eq!(solution, None);
}

#[test]
fn find_all_solutions_exactly_2_solutions() {
    // taken from https://puzzling.stackexchange.com/questions/67789/examples-of-sudokus-with-two-solutions
    let two_possible_solutions_puzzle = Sudoku::new_from_array([2, 9, 5, 7, 4, 3, 8, 6, 1,
                                                                4, 3, 1, 8, 6, 5, 9, 0, 0,
                                                                8, 7, 6, 1, 9, 2, 5, 4, 3,
                                                                3, 8, 7, 4, 5, 9, 2, 1, 6,
                                                                6, 1, 2, 3, 8, 7, 4, 9, 5,
                                                                5, 4, 9, 2, 1, 6, 7, 3, 8,
                                                                7, 6, 3, 5, 2, 4, 1, 8, 9,
                                                                9, 2, 8, 6, 7, 1, 3, 5, 4,
                                                                1, 5, 4, 9, 3, 8, 6, 0, 0]);
    
    let mut all_solutions = two_possible_solutions_puzzle.find_all_solutions();
    let mut solutions = Vec::new();
    while let Some(solution) = all_solutions.next() {
        solutions.push(solution);
    }
    
    assert_eq!(solutions.len(), 2);
    
    for solution in solutions {
        assert!(solution.is_solved());
    }
}

#[test]
fn num_occurrences_of_and_num_empty_squares() {
    let sudoku = Sudoku::new_from_array([2, 0, 0, 8, 7, 0, 0, 0, 0,
                                         0, 0, 0, 1, 0, 0, 8, 0, 0,
                                         0, 8, 0, 6, 0, 4, 0, 2, 1,
                                         6, 0, 3, 0, 0, 0, 0, 0, 7,
                                         0, 4, 1, 0, 6, 0, 5, 9, 0,
                                         9, 0, 0, 0, 0, 0, 4, 0, 2,
                                         5, 7, 0, 4, 0, 6, 0, 1, 0,
                                         0, 0, 6, 0, 0, 3, 0, 0, 0,
                                         0, 0, 0, 0, 1, 8, 0, 0, 6]);

    assert_eq!(sudoku.num_occurrences_of(0), 50);
    assert_eq!(sudoku.num_occurrences_of(1),  5);
    assert_eq!(sudoku.num_occurrences_of(2),  3);
    assert_eq!(sudoku.num_occurrences_of(3),  2);
    assert_eq!(sudoku.num_occurrences_of(4),  4);
    assert_eq!(sudoku.num_occurrences_of(5),  2);
    assert_eq!(sudoku.num_occurrences_of(6),  6);
    assert_eq!(sudoku.num_occurrences_of(7),  3);
    assert_eq!(sudoku.num_occurrences_of(8),  4);
    assert_eq!(sudoku.num_occurrences_of(9),  2);

    assert_eq!(sudoku.num_empty_squares(), 50);
}

#[test]
fn string_repr() {
    // Values generated with http://www.opensky.ca/sudoku
    let sudoku_grid = Sudoku::new_from_array([6, 0, 8, 4, 0, 0, 2, 0, 0,
                                              5, 0, 0, 7, 0, 0, 0, 0, 0,
                                              9, 0, 0, 0, 8, 0, 7, 1, 0,
                                              0, 0, 4, 0, 0, 9, 0, 0, 0,
                                              7, 9, 0, 8, 0, 5, 0, 2, 1,
                                              0, 0, 0, 1, 0, 0, 4, 0, 0,
                                              0, 5, 9, 0, 3, 0, 0, 0, 8,
                                              0, 0, 0, 0, 0, 4, 0, 0, 2,
                                              0, 0, 7, 0, 0, 8, 3, 0, 6]);

    let expected = "\
6 0 8 4 0 0 2 0 0
5 0 0 7 0 0 0 0 0
9 0 0 0 8 0 7 1 0
0 0 4 0 0 9 0 0 0
7 9 0 8 0 5 0 2 1
0 0 0 1 0 0 4 0 0
0 5 9 0 3 0 0 0 8
0 0 0 0 0 4 0 0 2
0 0 7 0 0 8 3 0 6
";

    let actual = sudoku_grid.string_repr();

    assert_eq!(actual, expected);
}

// SudokuNote methods

#[test]
fn new_with_all_values_possible_is_value_possible() {
    let notes = SudokuNote::new_with_all_values_possible();

    for value in 1..=9 {
        assert!(notes.is_value_possible(value));
    }
}

#[test]
fn new_with_all_values_possible_num_values_possible() {
    let notes = SudokuNote::new_with_all_values_possible();

    assert_eq!(notes.num_values_possible(), 9);
}

#[test]
fn reset_to_all_values_possible() {
    let mut note = SudokuNote::new_with_all_values_possible();

    set_flags(&mut note, 0b111_001_100);

    note.reset_to_all_values_possible();

    assert_eq!(note, SudokuNote::new_with_all_values_possible());
}

// NotesGrid methods

#[test]
fn new_all_values_possible() {
    let grid = NotesGrid::new();
    for x in 0..9 {
        for y in 0..9 {
            for value in 1..=9 {
                assert!(grid.get_note(x, y).is_value_possible(value));
            }
        }
    }
}

#[test]
fn reset() {
    let mut notes_grid = NotesGrid::new();

    // some random changes
    set_flags(notes_grid.get_note_mut(1, 5), 0b001_010_100);
    set_flags(notes_grid.get_note_mut(1, 7), 0b101_010_100);
    set_flags(notes_grid.get_note_mut(3, 1), 0b100_010_100);
    set_flags(notes_grid.get_note_mut(4, 5), 0b000_000_111);
    set_flags(notes_grid.get_note_mut(6, 2), 0b001_111_111);
    set_flags(notes_grid.get_note_mut(7, 3), 0b011_110_100);
    set_flags(notes_grid.get_note_mut(7, 4), 0b001_010_100);
    set_flags(notes_grid.get_note_mut(7, 8), 0b101_110_110);

    notes_grid.reset();

    assert_eq!(notes_grid, NotesGrid::new());
}

// crate-level functions

/// After calling `make_all_notes()`, all the squares that are empty
/// must allow for at least 1 possible value (if the provided Sudoku
/// puzzle is solvable).
#[test]
fn make_all_notes_value_possible_if_square_not_filled() {
    let sudoku = Sudoku::new_from_array(EXTREMELY_SIMPLE_SUDOKU);
    let mut notes = NotesGrid::new();
    make_all_notes(&mut notes, &sudoku);
    for x in 0..9 {
        for y in 0..9 {
            if sudoku.get_value(x, y) == 0 {
                assert_ne!(notes.get_note(x, y).num_values_possible(), 0);
            }
        }
    }
}

#[test]
fn make_all_notes_sample_test() {
    let sudoku = Sudoku::new_from_array(EXTREMELY_SIMPLE_SUDOKU);
    let mut notes = NotesGrid::new();
    make_all_notes(&mut notes, &sudoku);

    assert_eq!(collect(notes.get_note(2, 2).possible_values()), vec![3]);

    assert_eq!(collect(notes.get_note(4, 5).possible_values()), vec![8]);

    assert_eq!(collect(notes.get_note(7, 8).possible_values()), vec![4, 7]);
}

#[test]
fn make_vertical_notes() {
    let sudoku = Sudoku::new_from_array(EXTREMELY_SIMPLE_SUDOKU);
    let mut notes = NotesGrid::new();

    sudoku::propagate::make_vertical_notes(&mut notes, &sudoku);

    let expected = vec![3, 4, 5, 7];

    for y in 0..9 {
        let actual: Vec<u32> = collect(notes.get_note(2, y).possible_values());

        assert_eq!(expected, actual);
    }
}

#[test]
fn make_horizontal_notes() {
    let sudoku = Sudoku::new_from_array(EXTREMELY_SIMPLE_SUDOKU);
    let mut notes = NotesGrid::new();

    sudoku::propagate::make_horizontal_notes(&mut notes, &sudoku);

    let expected = vec![2, 3, 4, 7];

    for x in 0..9 {
        let actual: Vec<u32> = collect(notes.get_note(x, 6).possible_values());

        assert_eq!(expected, actual);
    }
}

#[test]
fn make_in_cell_notes() {
    let sudoku = Sudoku::new_from_array(EXTREMELY_SIMPLE_SUDOKU);
    let mut notes = NotesGrid::new();

    sudoku::propagate::make_in_cell_notes(&mut notes, &sudoku);

    let expected = vec![2, 4, 7, 8];
    let actual: Vec<u32> = collect(notes.get_note(2, 6).possible_values());

    assert_eq!(expected, actual);
}

#[test]
fn replace_notes_with_values() {
    let mut sudoku = Sudoku::new_from_array(EXTREMELY_SIMPLE_SUDOKU);
    let mut notes = NotesGrid::new();
    make_all_notes(&mut notes, &sudoku);
    sudoku::propagate::replace_notes_with_values(&mut sudoku, &notes);

    assert_eq!(sudoku.get_value(8, 8), 7);
    assert_eq!(sudoku.get_value(0, 6), 2);
}

/// This is an unlikely edge case, but I felt like writing it anyways. It
/// protects against possible changes in
/// [sudoku::replace_notes_with_values()] that would overwrite existing
/// values.
#[test]
fn replace_notes_with_values_will_not_replace_existing_values() {
    let mut sudoku = Sudoku::new_from_array(EXTREMELY_SIMPLE_SUDOKU);
    let mut notes = NotesGrid::new();

    // Set up "notes" so that the only possible value for square x=0/y=0 is
    // 1
    set_flags(notes.get_note_mut(0, 0), 0b000_000_001);

    sudoku::propagate::replace_notes_with_values(&mut sudoku, &notes);

    // If the square at x=0/y=0 had been replaced with 1, then this
    // assertion will fail
    assert_eq!(sudoku.get_value(0, 0), 7);
}

#[test]
fn is_dead_end() {
    let dead_end = Sudoku::new_from_array([0, 2, 3, 4, 5, 6, 7, 8, 9,
                                           1, 0, 0, 0, 0, 0, 0, 0, 0,
                                           0, 0, 0, 0, 0, 0, 0, 0, 0,
                                           0, 0, 0, 0, 0, 0, 0, 0, 0,
                                           0, 0, 0, 0, 0, 0, 0, 0, 0,
                                           0, 0, 0, 0, 0, 0, 0, 0, 0,
                                           0, 0, 0, 0, 0, 0, 0, 0, 0,
                                           0, 0, 0, 0, 0, 0, 0, 0, 0,
                                           0, 0, 0, 0, 0, 0, 0, 0, 0]);

    let mut notes = NotesGrid::new();

    make_all_notes(&mut notes, &dead_end);
   
    assert!(sudoku::propagate::is_dead_end(&dead_end, &notes));
}
