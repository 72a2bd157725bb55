use sudoku::propagate::{advance_with_notes, is_dead_end, make_all_notes, replace_notes_with_values};
use sudoku::{NotesGrid, Sudoku, SudokuNote};

const PUZZLE: [u32; 81] = [7, 0, 6, 0, 5, 0, 4, 1, 9,
                           0, 0, 9, 0, 7, 4, 8, 0, 0,
                           4, 8, 0, 6, 0, 9, 0, 0, 5,
                           0, 0, 8, 9, 0, 5, 0, 3, 4,
                           9, 4, 2, 0, 6, 0, 1, 0, 0,
                           3, 0, 0, 4, 0, 1, 0, 9, 2,
                           0, 9, 0, 0, 0, 6, 5, 8, 1,
                           5, 3, 0, 1, 4, 0, 0, 2, 0,
                           0, 6, 1, 5, 9, 0, 3, 0, 0];

const PUZZLE_SOLUTION: [u32; 81] = [7, 2, 6, 8, 5, 3, 4, 1, 9,
                                    1, 5, 9, 2, 7, 4, 8, 6, 3,
                                    4, 8, 3, 6, 1, 9, 2, 7, 5,
                                    6, 1, 8, 9, 2, 5, 7, 3, 4,
                                    9, 4, 2, 3, 6, 7, 1, 5, 8,
                                    3, 7, 5, 4, 8, 1, 6, 9, 2,
                                    2, 9, 4, 7, 3, 6, 5, 8, 1,
                                    5, 3, 7, 1, 4, 8, 9, 2, 6,
                                    8, 6, 1, 5, 9, 2, 3, 4, 7];

/// Gather the possible values of a note in the order of its traversal.
fn values_of(note: &SudokuNote) -> Vec<u32> {
    let mut values = note.possible_values();
    let mut gathered = Vec::new();
    while let Some(value) = values.next() {
        gathered.push(value);
    }
    gathered
}

#[test]
fn clearing_and_setting_values_keeps_the_count() {
    let mut note = SudokuNote::new_with_all_values_possible();

    note.note(2, false);
    note.note(7, false);
    assert_eq!(note.num_values_possible(), 7);
    assert_eq!(values_of(&note), vec![1, 3, 4, 5, 6, 8, 9]);
    assert!(!note.is_value_possible(2));
    assert!(!note.is_value_possible(7));

    note.note(2, true);
    assert_eq!(note.num_values_possible(), 8);
    assert_eq!(values_of(&note), vec![1, 2, 3, 4, 5, 6, 8, 9]);
}

#[test]
fn noting_what_is_noted_changes_nothing() {
    let mut note = SudokuNote::new_with_all_values_possible();

    note.note(5, true);
    assert_eq!(note, SudokuNote::new_with_all_values_possible());

    note.note(5, false);
    let once = note;
    note.note(5, false);
    assert_eq!(note, once);
    assert_eq!(note.num_values_possible(), 8);
}

#[test]
fn note_can_be_emptied_and_filled() {
    let mut note = SudokuNote::new_with_all_values_possible();
    for value in 1..=9 {
        note.note(value, false);
        assert_eq!(note.num_values_possible(), 9 - value);
    }
    assert_eq!(values_of(&note), vec![]);

    for value in (1..=9).rev() {
        note.note(value, true);
        assert_eq!(note.num_values_possible(), 10 - value);
    }
    assert_eq!(note, SudokuNote::new_with_all_values_possible());
}

#[test]
fn traversals_are_independent() {
    let mut note = SudokuNote::new_with_all_values_possible();
    note.note(1, false);
    note.note(9, false);

    let mut first = note.possible_values();
    assert_eq!(first.next(), Some(2));
    assert_eq!(first.next(), Some(3));

    let mut second = note.possible_values();
    assert_eq!(second.next(), Some(2));
    assert_eq!(first.next(), Some(4));
}

#[test]
fn traversal_ends_and_stays_ended() {
    let mut note = SudokuNote::new_with_all_values_possible();
    for value in 1..=8 {
        note.note(value, false);
    }
    let mut values = note.possible_values();

    assert_eq!(values.next(), Some(9));
    assert_eq!(values.next(), None);
    assert_eq!(values.next(), None);
}

#[test]
fn notes_of_filled_row_exclude_its_values() {
    let mut values = [0; 81];
    for x in 0..8 {
        values[x] = x as u32 + 1;
    }
    let sudoku = Sudoku::new_from_array(values);
    let mut notes = NotesGrid::new();
    make_all_notes(&mut notes, &sudoku);

    assert_eq!(values_of(notes.get_note(8, 0)), vec![9]);
    assert_eq!(notes.get_note(8, 0).num_values_possible(), 1);
    assert_eq!(values_of(notes.get_note(0, 1)), vec![4, 5, 6, 7, 8, 9]);
    assert_eq!(values_of(notes.get_note(0, 3)), vec![2, 3, 4, 5, 6, 7, 8, 9]);
    assert_eq!(values_of(notes.get_note(8, 8)), vec![1, 2, 3, 4, 5, 6, 7, 8, 9]);
}

#[test]
fn notes_with_a_value_twice_in_a_row_exclude_it() {
    let mut values = [0; 81];
    values[0] = 5;
    values[8] = 5;
    let sudoku = Sudoku::new_from_array(values);
    let mut notes = NotesGrid::new();
    make_all_notes(&mut notes, &sudoku);

    assert_eq!(values_of(notes.get_note(4, 0)), vec![1, 2, 3, 4, 6, 7, 8, 9]);
}

#[test]
fn replace_notes_with_values_counts_what_it_fills() {
    let mut sudoku = Sudoku::new_from_array(PUZZLE);
    let empty_before = sudoku.num_empty_squares();
    let mut notes = NotesGrid::new();
    make_all_notes(&mut notes, &sudoku);

    let filled = replace_notes_with_values(&mut sudoku, &notes);

    assert!(filled > 0);
    assert_eq!(sudoku.num_empty_squares() + filled as usize, empty_before);
}

#[test]
fn replace_notes_with_values_on_fresh_notes_fills_nothing() {
    let mut sudoku = Sudoku::new_from_array(PUZZLE);
    let notes = NotesGrid::new();

    assert_eq!(replace_notes_with_values(&mut sudoku, &notes), 0);
    assert_eq!(sudoku, Sudoku::new_from_array(PUZZLE));
}

#[test]
fn advance_with_notes_fills_what_deduction_gives() {
    let mut sudoku = Sudoku::new_from_array(PUZZLE);
    let mut notes = NotesGrid::new();

    advance_with_notes(&mut sudoku, &mut notes);

    assert_eq!(sudoku, Sudoku::new_from_array(PUZZLE_SOLUTION));
    assert!(!is_dead_end(&sudoku, &notes));
}

#[test]
fn advance_with_notes_leaves_empty_grid_empty() {
    let mut sudoku = Sudoku::new_empty();
    let mut notes = NotesGrid::new();

    advance_with_notes(&mut sudoku, &mut notes);

    assert_eq!(sudoku, Sudoku::new_empty());
    assert_eq!(notes, NotesGrid::new());
}

#[test]
fn fresh_notes_are_no_dead_end() {
    let sudoku = Sudoku::new_from_array(PUZZLE);
    let notes = NotesGrid::new();

    assert!(!is_dead_end(&sudoku, &notes));
}

#[test]
fn filled_square_without_noted_values_is_no_dead_end() {
    let mut sudoku = Sudoku::new_empty();
    sudoku.set_value(0, 0, 4);
    let mut notes = NotesGrid::new();
    for value in 1..=9 {
        notes.get_note_mut(0, 0).note(value, false);
    }
    assert!(!is_dead_end(&sudoku, &notes));

    for value in 1..=9 {
        notes.get_note_mut(5, 6).note(value, false);
    }
    assert!(is_dead_end(&sudoku, &notes));
}
