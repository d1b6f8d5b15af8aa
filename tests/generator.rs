use rand::rngs::StdRng;
use rand::SeedableRng;

use rust_puzzle::constraint::{
    AdjacentConsecutiveConstraint, CompositeConstraint, DefaultConstraint, KillerCage, KillerConstraint,
};
use rust_puzzle::error::SudokuError;
use rust_puzzle::solver::{BacktrackingSolver, Solution, Solver};
use rust_puzzle::sudoku_generator::{Generator, Reducer, Reduction};
use rust_puzzle::{Sudoku, SudokuGrid};

#[test]
fn generated_grid_is_full_and_valid() {
    let mut generator = Generator::new(StdRng::seed_from_u64(7));
    for (w, h) in [(1, 1), (2, 2), (3, 2), (3, 3)] {
        let sudoku = generator.generate(w, h, DefaultConstraint).unwrap();
        assert!(sudoku.grid().is_full());
        assert!(sudoku.is_valid());
        assert_eq!(w, sudoku.grid().block_width());
        assert_eq!(h, sudoku.grid().block_height());
    }
}

#[test]
fn fill_keeps_given_digits() {
    let mut generator = Generator::new(StdRng::seed_from_u64(11));
    let mut sudoku = Sudoku::parse("2x2;1,,,,,,3,,,,,,,,,4", DefaultConstraint).unwrap();
    let given = sudoku.grid().clone();
    generator.fill(&mut sudoku).unwrap();
    assert!(sudoku.grid().is_full());
    assert!(sudoku.is_valid());
    assert!(given.is_subset(sudoku.grid()).unwrap());
}

#[test]
fn unsatisfiable_constraint_fails_and_leaves_grid_unchanged() {
    let mut generator = Generator::new(StdRng::seed_from_u64(3));
    let rule = CompositeConstraint::new(DefaultConstraint, AdjacentConsecutiveConstraint);
    assert_eq!(Some(SudokuError::UnsatisfiableConstraint), generator.generate(1, 2, rule).err());
    let mut sudoku = Sudoku::parse("2x2;1,1,,,,,,,,,,,,,,", DefaultConstraint).unwrap();
    let before = sudoku.grid().clone();
    assert_eq!(Err(SudokuError::UnsatisfiableConstraint), generator.fill(&mut sudoku));
    assert_eq!(before, *sudoku.grid());
    assert_eq!(
        Some(SudokuError::InvalidDimensions),
        generator.generate(0, 2, DefaultConstraint).err()
    );
}

#[test]
fn reduced_puzzle_has_unique_solution() {
    let mut generator = Generator::new(StdRng::seed_from_u64(5));
    let mut sudoku = generator.generate(2, 2, DefaultConstraint).unwrap();
    let full = sudoku.grid().clone();
    let mut reducer = Reducer::new(BacktrackingSolver, StdRng::seed_from_u64(9));
    reducer.reduce(&mut sudoku);
    assert!(sudoku.grid().count_clues() < 16);
    assert!(sudoku.grid().is_subset(&full).unwrap());
    assert_eq!(Solution::Unique(full), BacktrackingSolver.solve(&sudoku));
}

#[test]
fn reduction_removes_killer_cages_when_still_unique() {
    let mut constraint = KillerConstraint::new();
    constraint.add_cage(KillerCage::new(vec![(0, 0), (1, 0)], 3).unwrap()).unwrap();
    let rule = CompositeConstraint::new(DefaultConstraint, constraint);
    let grid = SudokuGrid::parse("2x2;1,2,3,4,3,4,1,2,2,1,4,3,4,3,2,1").unwrap();
    let mut sudoku = Sudoku::new_with_grid(grid.clone(), rule);
    let reductions = Reducer::<BacktrackingSolver>::reductions(&sudoku);
    assert_eq!(17, reductions.len());
    assert!(matches!(reductions[1], Reduction::RemoveDigit { column: 0, row: 1 }));
    let reducer = Reducer::new(BacktrackingSolver, StdRng::seed_from_u64(1));
    let only_cage: Vec<_> = reductions.into_iter().skip(16).collect();
    reducer.reduce_in_order(&mut sudoku, &only_cage);
    assert!(sudoku.constraint().second().cages().is_empty());
    assert_eq!(Solution::Unique(grid), BacktrackingSolver.solve(&sudoku));
}

#[test]
fn different_seeds_give_different_grids() {
    let mut grids: Vec<SudokuGrid> = Vec::new();
    for seed in 0..8 {
        let mut generator = Generator::new(StdRng::seed_from_u64(seed));
        let sudoku = generator.generate(2, 2, DefaultConstraint).unwrap();
        grids.push(sudoku.grid().clone());
    }
    assert!(grids.iter().any(|g| *g != grids[0]));
}

#[test]
fn every_digit_left_after_reduction_is_needed() {
    let mut generator = Generator::new(StdRng::seed_from_u64(21));
    let mut sudoku = generator.generate(2, 2, DefaultConstraint).unwrap();
    let full = sudoku.grid().clone();
    let mut reducer = Reducer::new(BacktrackingSolver, StdRng::seed_from_u64(4));
    reducer.reduce(&mut sudoku);
    assert_eq!(Solution::Unique(full.clone()), BacktrackingSolver.solve(&sudoku));
    for row in 0..4 {
        for column in 0..4 {
            if sudoku.grid().get_cell(column, row).unwrap().is_some() {
                let mut grid = sudoku.grid().clone();
                grid.clear_cell(column, row).unwrap();
                let trial = Sudoku::new_with_grid(grid, DefaultConstraint);
                assert_ne!(Solution::Unique(full.clone()), BacktrackingSolver.solve(&trial));
            }
        }
    }
}

#[test]
fn reduce_in_order_keeps_needed_digits_only() {
    let grid = SudokuGrid::parse("2x2;1,2,3,4,3,4,1,2,2,1,4,3,4,3,2,1").unwrap();
    let mut sudoku = Sudoku::new_with_grid(grid.clone(), DefaultConstraint);
    let order = vec![
        Reduction::RemoveDigit { column: 0, row: 0 },
        Reduction::RemoveDigit { column: 1, row: 0 },
        Reduction::RemoveDigit { column: 2, row: 0 },
        Reduction::RemoveDigit { column: 3, row: 0 },
    ];
    let reducer = Reducer::new(BacktrackingSolver, StdRng::seed_from_u64(2));
    reducer.reduce_in_order(&mut sudoku, &order);
    assert_eq!(12, sudoku.grid().count_clues());
    assert_eq!(Solution::Unique(grid), BacktrackingSolver.solve(&sudoku));
    assert_eq!(None, sudoku.grid().get_cell(0, 0).unwrap());
}
