use sudoku::{validate_coordinates, validate_value, Sudoku, NUM_SQUARES};

#[test]
fn coordinates_up_to_8_are_valid() {
    assert!(validate_coordinates(0, 0));
    assert!(validate_coordinates(8, 8));
    assert!(!validate_coordinates(9, 0));
    assert!(!validate_coordinates(0, 9));
    assert!(!validate_coordinates(11, 3));
}

#[test]
fn values_up_to_9_are_valid() {
    assert!(validate_value(0));
    assert!(validate_value(9));
    assert!(!validate_value(10));
}

#[test]
fn array_index_gives_coordinates() {
    let mut sudoku_array = [0; NUM_SQUARES];
    let i = 54;
    sudoku_array[i] = 7;

    let sudoku = Sudoku::new_from_array(sudoku_array);

    assert_eq!(sudoku.get_value(i % 9, i / 9), 7);
    assert_eq!(sudoku.num_occurrences_of(7), 1);
    assert_eq!(sudoku.num_empty_squares(), 80);
}

#[test]
fn set_value_changes_one_square() {
    let mut grid = Sudoku::new_empty();
    grid.set_value(8, 0, 9);

    let mut expected = [0; NUM_SQUARES];
    expected[8] = 9;
    assert_eq!(grid, Sudoku::new_from_array(expected));

    grid.set_value(8, 0, 0);
    assert_eq!(grid, Sudoku::new_empty());
}

#[test]
fn empty_grid_is_valid_and_not_solved() {
    let grid = Sudoku::new_empty();

    assert!(grid.is_valid());
    assert!(grid.has_empty_squares());
    assert!(!grid.is_solved());
    assert_eq!(grid.num_empty_squares(), 81);
    assert_eq!(grid.num_occurrences_of(0), 81);
    assert_eq!(grid.num_occurrences_of(9), 0);
}

#[test]
fn zeros_are_no_duplicates() {
    let mut grid = Sudoku::new_empty();
    grid.set_value(0, 0, 1);
    grid.set_value(8, 8, 1);

    assert!(grid.is_valid());

    grid.set_value(8, 0, 1);
    assert!(!grid.fulfills_horizontal_condition());
    assert!(!grid.fulfills_vertical_condition());
    assert!(grid.fulfills_in_3x3_cell_condition());
    assert!(!grid.is_valid());
}

#[test]
fn string_repr_of_empty_grid() {
    let expected = "0 0 0 0 0 0 0 0 0\n".repeat(9);

    assert_eq!(Sudoku::new_empty().string_repr(), expected);
}

#[test]
fn string_repr_puts_rows_on_lines() {
    let mut grid = Sudoku::new_empty();
    grid.set_value(8, 0, 9);
    grid.set_value(0, 1, 4);
    grid.set_value(3, 8, 7);
    let repr = grid.string_repr();
    let lines: Vec<&str> = repr.lines().collect();

    assert_eq!(repr.len(), 162);
    assert_eq!(lines.len(), 9);
    assert_eq!(lines[0], "0 0 0 0 0 0 0 0 9");
    assert_eq!(lines[1], "4 0 0 0 0 0 0 0 0");
    assert_eq!(lines[8], "0 0 0 7 0 0 0 0 0");
}
