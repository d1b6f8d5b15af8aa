use rust_puzzle::constraint::DefaultConstraint;
use rust_puzzle::error::{SudokuError, SudokuParseError};
use rust_puzzle::{Sudoku, SudokuGrid};

#[test]
fn parse_ok() {
    let grid_res = SudokuGrid::parse("2x2; 1,,,2, ,3,,4, ,2,,, 3,,,");

    if let Ok(grid) = grid_res {
        assert_eq!(2, grid.block_width());
        assert_eq!(2, grid.block_height());
        assert_eq!(Some(1), grid.get_cell(0, 0).unwrap());
        assert_eq!(None, grid.get_cell(1, 0).unwrap());
        assert_eq!(None, grid.get_cell(2, 0).unwrap());
        assert_eq!(Some(2), grid.get_cell(3, 0).unwrap());
        assert_eq!(None, grid.get_cell(0, 1).unwrap());
        assert_eq!(Some(3), grid.get_cell(1, 1).unwrap());
        assert_eq!(None, grid.get_cell(2, 1).unwrap());
        assert_eq!(Some(4), grid.get_cell(3, 1).unwrap());
        assert_eq!(None, grid.get_cell(0, 2).unwrap());
        assert_eq!(Some(2), grid.get_cell(1, 2).unwrap());
        assert_eq!(None, grid.get_cell(2, 2).unwrap());
        assert_eq!(None, grid.get_cell(3, 2).unwrap());
        assert_eq!(Some(3), grid.get_cell(0, 3).unwrap());
        assert_eq!(None, grid.get_cell(1, 3).unwrap());
        assert_eq!(None, grid.get_cell(2, 3).unwrap());
        assert_eq!(None, grid.get_cell(3, 3).unwrap());
    } else {
        panic!("Parsing valid grid failed.");
    }
}

#[test]
fn parse_malformed_dimensions() {
    assert_eq!(Err(SudokuParseError::MalformedDimensions), SudokuGrid::parse("2x2x2;,,,,,,,,,,,,,,,"));
}

#[test]
fn parse_invalid_dimensions() {
    assert_eq!(Err(SudokuParseError::InvalidDimensions), SudokuGrid::parse("2x0;,"));
}

#[test]
fn parse_wrong_number_of_parts() {
    assert_eq!(Err(SudokuParseError::WrongNumberOfParts), SudokuGrid::parse("2x2;,,,,,,,,,,,,,,,;whatever"));
}

#[test]
fn parse_number_format_error() {
    assert_eq!(Err(SudokuParseError::NumberFormatError), SudokuGrid::parse("2x#;,"));
}

#[test]
fn parse_invalid_number() {
    assert_eq!(Err(SudokuParseError::InvalidNumber), SudokuGrid::parse("2x2;,,,4,,,5,,,,,,,,,"));
}

#[test]
fn parse_wrong_number_of_cells() {
    assert_eq!(Err(SudokuParseError::WrongNumberOfCells), SudokuGrid::parse("2x2;1,2,3,4,1,2,3,4,1,2,3,4,1,2,3"));
    assert_eq!(Err(SudokuParseError::WrongNumberOfCells), SudokuGrid::parse("2x2;1,2,3,4,1,2,3,4,1,2,3,4,1,2,3,4,1"));
}

#[test]
fn to_parseable_string() {
    let mut grid = SudokuGrid::new(2, 2).unwrap();

    assert_eq!("2x2;,,,,,,,,,,,,,,,", grid.to_parseable_string().as_str());

    grid.set_cell(0, 0, 1).unwrap();
    grid.set_cell(1, 1, 2).unwrap();
    grid.set_cell(2, 2, 3).unwrap();
    grid.set_cell(3, 3, 4).unwrap();

    assert_eq!("2x2;1,,,,,2,,,,,3,,,,,4", grid.to_parseable_string().as_str());

    let grid = SudokuGrid::new(4, 1).unwrap();

    assert_eq!("4x1;,,,,,,,,,,,,,,,", grid.to_parseable_string().as_str());
}

#[test]
fn size() {
    let grid1x1 = SudokuGrid::new(1, 1).unwrap();
    let grid3x2 = SudokuGrid::new(3, 2).unwrap();
    let grid3x4 = SudokuGrid::new(3, 4).unwrap();
    assert_eq!(1, grid1x1.size());
    assert_eq!(6, grid3x2.size());
    assert_eq!(12, grid3x4.size());
}

#[test]
fn count_clues_and_empty_and_full() {
    let empty = SudokuGrid::parse("2x2;,,,,,,,,,,,,,,,").unwrap();
    let partial = SudokuGrid::parse("2x2;1,,3,2,4,,,,,,,,,,1,").unwrap();
    let full = SudokuGrid::parse("2x2;2,3,4,1,1,4,2,3,4,1,3,2,3,2,1,4").unwrap();

    assert_eq!(0, empty.count_clues());
    assert_eq!(5, partial.count_clues());
    assert_eq!(16, full.count_clues());

    assert!(empty.is_empty());
    assert!(!partial.is_empty());
    assert!(!full.is_empty());

    assert!(!empty.is_full());
    assert!(!partial.is_full());
    assert!(full.is_full());
}

fn assert_subset_relation(a: &SudokuGrid, b: &SudokuGrid, a_subset_b: bool, b_subset_a: bool) {
    assert!(a.is_subset(b).unwrap() == a_subset_b);
    assert!(a.is_superset(b).unwrap() == b_subset_a);
    assert!(b.is_subset(a).unwrap() == b_subset_a);
    assert!(b.is_superset(a).unwrap() == a_subset_b);
}

fn assert_true_subset(a: &SudokuGrid, b: &SudokuGrid) {
    assert_subset_relation(a, b, true, false)
}

fn assert_equal_set(a: &SudokuGrid, b: &SudokuGrid) {
    assert_subset_relation(a, b, true, true)
}

fn assert_unrelated_set(a: &SudokuGrid, b: &SudokuGrid) {
    assert_subset_relation(a, b, false, false)
}

#[test]
fn empty_is_subset() {
    let empty = SudokuGrid::new(2, 2).unwrap();
    let non_empty = SudokuGrid::parse("2x2;1,,,,,,,,,,,,,,,").unwrap();
    let full = SudokuGrid::parse("2x2;1,2,3,4,3,4,1,2,2,3,1,4,4,1,3,2").unwrap();

    assert_equal_set(&empty, &empty);
    assert_true_subset(&empty, &non_empty);
    assert_true_subset(&empty, &full);
}

#[test]
fn equal_grids_subsets() {
    let g = SudokuGrid::parse("2x2;1,,3,,2,,,,4,,4,3,,,,2").unwrap();
    assert_equal_set(&g, &g);
}

#[test]
fn true_subset() {
    let g1 = SudokuGrid::parse("2x2;1,,3,,2,,,,4,,4,3,,,,2").unwrap();
    let g2 = SudokuGrid::parse("2x2;1,2,3,,2,,3,,4,,4,3,,,1,2").unwrap();
    assert_true_subset(&g1, &g2);
}

#[test]
fn unrelated_grids_not_subsets() {
    let g1 = SudokuGrid::parse("2x2;1,,3,,2,,,,4,,4,3,,,,2").unwrap();
    let g2 = SudokuGrid::parse("2x2;1,2,4,,2,,3,,4,,4,3,,,1,2").unwrap();
    assert_unrelated_set(&g1, &g2);
}

fn solution_example_sudoku() -> Sudoku<DefaultConstraint> {
    Sudoku::parse(
        "2x2;\
        2, , , ,\
         , ,3, ,\
         , , ,4,\
         ,2, , ",
        DefaultConstraint,
    )
    .unwrap()
}

#[test]
fn solution_not_full() {
    let sudoku = solution_example_sudoku();
    let solution = SudokuGrid::parse(
        "2x2;\
        2,3,4,1,\
        1,4,3, ,\
        3,1,2,4,\
        4,2,1,3",
    )
    .unwrap();
    assert!(!sudoku.is_valid_solution(&solution).unwrap());
}

#[test]
fn solution_not_superset() {
    let sudoku = solution_example_sudoku();
    let solution = SudokuGrid::parse(
        "2x2;\
        2,3,4,1,\
        1,4,3,2,\
        3,2,1,4,\
        4,1,2,3",
    )
    .unwrap();
    assert!(!sudoku.is_valid_solution(&solution).unwrap());
}

#[test]
fn solution_violates_constraint() {
    let sudoku = solution_example_sudoku();
    let solution = SudokuGrid::parse(
        "2x2;\
        2,3,4,1,\
        1,3,3,2,\
        3,1,2,4,\
        4,2,1,3",
    )
    .unwrap();
    assert!(!sudoku.is_valid_solution(&solution).unwrap());
}

#[test]
fn solution_correct() {
    let sudoku = solution_example_sudoku();
    let solution = SudokuGrid::parse(
        "2x2;\
        2,3,4,1,\
        1,4,3,2,\
        3,1,2,4,\
        4,2,1,3",
    )
    .unwrap();
    assert!(sudoku.is_valid_solution(&solution).unwrap());
}

#[test]
fn new_grid_has_size_squared_empty_cells() {
    for (w, h) in [(1, 1), (2, 3), (3, 3), (4, 2)] {
        let grid = SudokuGrid::new(w, h).unwrap();
        assert_eq!(w * h, grid.size());
        assert_eq!(grid.size() * grid.size(), grid.cells().len());
        assert!(grid.is_empty());
        assert_eq!(0, grid.count_clues());
    }
    assert_eq!(Err(SudokuError::InvalidDimensions), SudokuGrid::new(0, 3));
    assert_eq!(Err(SudokuError::InvalidDimensions), SudokuGrid::new(3, 0));
}

#[test]
fn round_trip_of_empty_partial_and_full_grids() {
    let texts = [
        "2x2;,,,,,,,,,,,,,,,",
        "2x2;1,,3,2,4,,,,,,,,,,1,",
        "2x2;2,3,4,1,1,4,2,3,4,1,3,2,3,2,1,4",
    ];
    for text in texts {
        let grid = SudokuGrid::parse(text).unwrap();
        let printed = grid.to_parseable_string();
        assert_eq!(text, printed.as_str());
        assert_eq!(grid, SudokuGrid::parse(&printed).unwrap());
    }
    let mut big = SudokuGrid::new(3, 4).unwrap();
    big.set_cell(10, 0, 12).unwrap();
    big.set_cell(11, 11, 10).unwrap();
    let printed = big.to_parseable_string();
    assert!(printed.starts_with("3x4;,,,,,,,,,,12,"));
    assert!(printed.ends_with(",10"));
    assert_eq!(big, SudokuGrid::parse(&printed).unwrap());
}

#[test]
fn parse_accepts_plus_sign_and_surrounding_spaces() {
    let grid = SudokuGrid::parse("1x2;+1 ,\t2,  ,").unwrap();
    assert_eq!(Some(1), grid.get_cell(0, 0).unwrap());
    assert_eq!(Some(2), grid.get_cell(1, 0).unwrap());
    assert_eq!(None, grid.get_cell(0, 1).unwrap());
    assert_eq!(Err(SudokuParseError::NumberFormatError), SudokuGrid::parse("1x2;1,2 2,,"));
    assert_eq!(Err(SudokuParseError::NumberFormatError), SudokuGrid::parse("1x2;1,99999999999999999999999,,"));
    assert_eq!(Err(SudokuParseError::InvalidNumber), SudokuGrid::parse("1x2;0,,,"));
    assert_eq!(Err(SudokuParseError::WrongNumberOfParts), SudokuGrid::parse("1x2"));
    assert_eq!(Err(SudokuParseError::WrongNumberOfCells), SudokuGrid::parse("99999999999x99999999999;,"));
}

#[test]
fn cell_access_errors_and_updates() {
    let mut grid = SudokuGrid::new(2, 2).unwrap();
    assert_eq!(Err(SudokuError::OutOfBounds), grid.get_cell(4, 0));
    assert_eq!(Err(SudokuError::OutOfBounds), grid.get_cell(0, 4));
    assert_eq!(Err(SudokuError::OutOfBounds), grid.set_cell(0, 4, 1));
    assert_eq!(Err(SudokuError::InvalidNumber), grid.set_cell(0, 0, 0));
    assert_eq!(Err(SudokuError::InvalidNumber), grid.set_cell(0, 0, 5));
    assert_eq!(Err(SudokuError::OutOfBounds), grid.clear_cell(4, 4));
    grid.set_cell(1, 2, 3).unwrap();
    assert!(grid.has_number(1, 2, 3).unwrap());
    assert!(!grid.has_number(1, 2, 4).unwrap());
    assert_eq!(Some(3), grid.cells()[2 * 4 + 1]);
    grid.clear_cell(1, 2).unwrap();
    assert!(!grid.has_number(1, 2, 3).unwrap());
    let other = SudokuGrid::parse("2x2;1,,,,,,,,,,,,,,,").unwrap();
    grid.assign(&other).unwrap();
    assert_eq!(other, grid);
    let wide = SudokuGrid::new(4, 1).unwrap();
    assert_eq!(Err(SudokuError::InvalidDimensions), grid.assign(&wide));
    assert_eq!(Err(SudokuError::InvalidDimensions), grid.is_subset(&wide));
}

#[test]
fn sudoku_validity_queries() {
    let sudoku = solution_example_sudoku();
    assert!(sudoku.is_valid());
    assert!(sudoku.is_valid_number(1, 0, 3).unwrap());
    assert!(!sudoku.is_valid_number(1, 0, 2).unwrap());
    assert_eq!(Err(SudokuError::InvalidNumber), sudoku.is_valid_number(1, 0, 5));
    assert_eq!(Err(SudokuError::OutOfBounds), sudoku.is_valid_number(4, 0, 1));
    assert!(sudoku.is_valid_cell(0, 0).unwrap());
    assert_eq!(Err(SudokuError::OutOfBounds), sudoku.is_valid_cell(0, 4));
    let invalid = Sudoku::parse("2x2;1,1,,,,,,,,,,,,,,", DefaultConstraint).unwrap();
    assert!(!invalid.is_valid());
    assert!(!invalid.is_valid_cell(0, 0).unwrap());
    let wide = SudokuGrid::new(4, 1).unwrap();
    assert_eq!(Err(SudokuError::InvalidDimensions), sudoku.is_valid_solution(&wide));
}

#[test]
fn from_cells_validates_its_input() {
    let cells = vec![Some(1), None, None, Some(2)];
    let grid = SudokuGrid::from_cells(1, 2, cells.clone()).unwrap();
    assert_eq!(&cells, grid.cells());
    assert_eq!(SudokuGrid::parse("1x2;1,,,2").unwrap(), grid);
    assert_eq!(Err(SudokuError::InvalidDimensions), SudokuGrid::from_cells(1, 2, vec![None; 3]));
    assert_eq!(Err(SudokuError::InvalidDimensions), SudokuGrid::from_cells(0, 2, vec![]));
    assert_eq!(Err(SudokuError::InvalidNumber), SudokuGrid::from_cells(1, 2, vec![Some(3), None, None, None]));
    assert_eq!(Err(SudokuError::InvalidNumber), SudokuGrid::from_cells(1, 2, vec![None, Some(0), None, None]));
}

#[test]
fn error_descriptions() {
    assert_eq!("invalid dimensions", SudokuError::InvalidDimensions.describe());
    assert_eq!("invalid number", SudokuError::InvalidNumber.describe());
    assert_eq!("out of bounds", SudokuError::OutOfBounds.describe());
    assert_eq!("unsatisfiable constraint", SudokuError::UnsatisfiableConstraint.describe());
}
