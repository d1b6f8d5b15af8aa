use rust_puzzle::constraint::{
    AdjacentConsecutiveConstraint, CompositeConstraint, Constraint, DefaultConstraint, DiagonallyAdjacentConstraint,
    DiagonalsConstraint, KillerCage, KillerConstraint, KillerError, KingsMoveConstraint, KnightsMoveConstraint,
    ReductionError, RuleKind, Subconstraint,
};
use rust_puzzle::solver::{BacktrackingSolver, Solution, Solver};
use rust_puzzle::{Sudoku, SudokuGrid};

fn test_solves_correctly<C: Constraint>(puzzle: &str, solution: &str, constraint: C) {
    let sudoku = Sudoku::parse(puzzle, constraint).unwrap();
    let solver = BacktrackingSolver;
    let found_solution = solver.solve(&sudoku);

    if let Solution::Unique(grid) = found_solution {
        let expected_grid = SudokuGrid::parse(solution).unwrap();
        assert_eq!(expected_grid, grid, "Solver gave wrong grid.");
    } else {
        panic!("Solvable sudoku marked as impossible or ambiguous.")
    }
}

#[test]
fn backtracking_solves_classic_sudoku() {
    let puzzle = "3x3;\
         , , , ,8,1, , , ,\
         , ,2, , ,7,8, , ,\
         ,5,3, , , ,1,7, ,\
        3,7, , , , , , , ,\
        6, , , , , , , ,3,\
         , , , , , , ,2,4,\
         ,6,9, , , ,2,3, ,\
         , ,5,9, , ,4, , ,\
         , , ,6,5, , , , ";
    let solution = "3x3;\
        7,4,6,2,8,1,3,5,9,\
        9,1,2,5,3,7,8,4,6,\
        8,5,3,4,9,6,1,7,2,\
        3,7,4,1,2,5,6,9,8,\
        6,2,8,7,4,9,5,1,3,\
        5,9,1,3,6,8,7,2,4,\
        1,6,9,8,7,4,2,3,5,\
        2,8,5,9,1,3,4,6,7,\
        4,3,7,6,5,2,9,8,1";
    test_solves_correctly(puzzle, solution, DefaultConstraint);
}

#[test]
fn backtracking_solves_diagonals_sudoku() {
    let puzzle = "3x3;\
         ,1,2,3,4,5,6,7, ,\
         , , , , , , , , ,\
         , , , , , , , , ,\
        7, , , , , , , ,5,\
        2, , , , , , , ,1,\
        9, , , , , , , ,3,\
         , , , , , , , , ,\
         , , , , , , , , ,\
         ,3,4,5,6,7,8,9, ";
    let solution = "3x3;\
        8,1,2,3,4,5,6,7,9,\
        3,7,5,6,8,9,1,2,4,\
        4,9,6,1,7,2,3,5,8,\
        7,4,1,9,3,6,2,8,5,\
        2,6,3,7,5,8,9,4,1,\
        9,5,8,4,2,1,7,6,3,\
        5,2,7,8,9,3,4,1,6,\
        6,8,9,2,1,4,5,3,7,\
        1,3,4,5,6,7,8,9,2";
    test_solves_correctly(puzzle, solution, CompositeConstraint::new(DefaultConstraint, DiagonalsConstraint));
}

#[test]
fn backtracking_solves_knights_move_sudoku() {
    let puzzle = "3x3;\
         ,8, ,1, ,5, , , ,\
        4, ,7, ,9, , , , ,\
         ,1, ,8, , , , , ,\
        1, ,8, , , , , ,5,\
         ,7, , , , , ,8, ,\
        5, , , , , ,3, ,4,\
         , , , , ,8, ,4, ,\
         , , , ,3, ,8, ,6,\
         , , ,5, ,4, ,3, ";
    let solution = "3x3;\
        2,8,3,1,4,5,6,9,7,\
        4,5,7,3,9,6,1,2,8,\
        9,1,6,8,2,7,4,5,3,\
        1,3,8,4,7,2,9,6,5,\
        6,7,4,9,5,3,2,8,1,\
        5,2,9,6,8,1,3,7,4,\
        3,9,1,7,6,8,5,4,2,\
        7,4,5,2,3,9,8,1,6,\
        8,6,2,5,1,4,7,3,9";
    test_solves_correctly(puzzle, solution, CompositeConstraint::new(DefaultConstraint, KnightsMoveConstraint));
}

#[test]
fn backtracking_solves_kings_move_sudoku() {
    let puzzle = "3x3;\
         , , , ,2,1, , , ,\
         ,6,1, , , , ,3, ,\
         , , , , ,4, ,7, ,\
        3, ,7, , , , , , ,\
        2, , , ,5, , , ,7,\
         , , , , , ,5, ,8,\
         ,8, ,1, , , , , ,\
         ,3, , , , ,6,4, ,\
         , , ,7,6, , , , ";
    let solution = "3x3;\
        5,7,3,9,2,1,4,8,6,\
        4,6,1,5,8,7,2,3,9,\
        8,2,9,6,3,4,1,7,5,\
        3,5,7,2,1,8,9,6,4,\
        2,9,8,4,5,6,3,1,7,\
        1,4,6,3,7,9,5,2,8,\
        6,8,5,1,4,2,7,9,3,\
        7,3,2,8,9,5,6,4,1,\
        9,1,4,7,6,3,8,5,2";
    test_solves_correctly(puzzle, solution, CompositeConstraint::new(DefaultConstraint, KingsMoveConstraint));
    test_solves_correctly(puzzle, solution, CompositeConstraint::new(DefaultConstraint, DiagonallyAdjacentConstraint));
}

#[test]
fn backtracking_solves_adjacent_consecutive_sudoku() {
    let puzzle = "3x3;\
         , , , , , , , ,7,\
         , ,3,8, , , , , ,\
         ,4,6, , , , , , ,\
         ,7, , ,2, , , , ,\
         , , ,9,4,7, , , ,\
         , , , ,8, , ,5, ,\
         , , , , , , ,9, ,\
         , , , , ,4,6,2, ,\
        5, , , , , , , , ";
    let solution = "3x3;\
        2,5,8,4,1,6,9,3,7,\
        7,1,3,8,5,9,2,6,4,\
        9,4,6,3,7,2,5,8,1,\
        3,7,1,6,2,5,8,4,9,\
        8,2,5,9,4,7,3,1,6,\
        4,6,9,1,8,3,7,5,2,\
        6,8,2,7,3,1,4,9,5,\
        1,3,7,5,9,4,6,2,8,\
        5,9,4,2,6,8,1,7,3";
    test_solves_correctly(puzzle, solution, CompositeConstraint::new(DefaultConstraint, AdjacentConsecutiveConstraint));
}

#[test]
fn backtracking_solves_killer_sudoku() {
    let puzzle = "3x3;\
         ,9, , , , , , , ,\
         , , , , , , , ,6,\
         , , , , , , , , ,\
         , , , ,7, , , , ,\
         , , ,3, ,4, , , ,\
         , , , ,9, , , , ,\
         , , , , , , , , ,\
        2, , , , , , , , ,\
         , , , , , , ,9, ";
    let solution = "3x3;\
        8,9,7,6,4,1,5,2,3,\
        5,2,1,9,8,3,4,7,6,\
        6,4,3,7,5,2,1,8,9,\
        1,3,2,8,7,6,9,5,4,\
        9,8,5,3,2,4,7,6,1,\
        7,6,4,1,9,5,2,3,8,\
        4,7,9,2,6,8,3,1,5,\
        2,1,6,5,3,9,8,4,7,\
        3,5,8,4,1,7,6,9,2";
    let mut constraint = KillerConstraint::new();
    let cages = vec![
        KillerCage::new(vec![(2, 0), (2, 1), (1, 1)], 10).unwrap(),
        KillerCage::new(vec![(3, 0), (3, 1), (4, 1)], 23).unwrap(),
        KillerCage::new(vec![(6, 1), (6, 2), (5, 2)], 7).unwrap(),
        KillerCage::new(vec![(7, 1), (7, 2), (8, 2)], 24).unwrap(),
        KillerCage::new(vec![(1, 2), (2, 2), (2, 3)], 9).unwrap(),
        KillerCage::new(vec![(3, 2), (4, 2), (3, 3)], 20).unwrap(),
        KillerCage::new(vec![(5, 3), (6, 3), (6, 4)], 22).unwrap(),
        KillerCage::new(vec![(7, 3), (8, 3), (7, 4)], 15).unwrap(),
        KillerCage::new(vec![(1, 4), (1, 5), (0, 5)], 21).unwrap(),
        KillerCage::new(vec![(2, 4), (2, 5), (3, 5)], 10).unwrap(),
        KillerCage::new(vec![(5, 5), (5, 6), (4, 6)], 19).unwrap(),
        KillerCage::new(vec![(6, 5), (6, 6), (7, 6)], 6).unwrap(),
        KillerCage::new(vec![(0, 6), (1, 6), (1, 7)], 12).unwrap(),
        KillerCage::new(vec![(2, 6), (3, 6), (2, 7)], 17).unwrap(),
        KillerCage::new(vec![(4, 7), (5, 7), (5, 8)], 19).unwrap(),
        KillerCage::new(vec![(6, 7), (7, 7), (6, 8)], 18).unwrap(),
    ];

    for cage in cages.into_iter() {
        constraint.add_cage(cage).unwrap();
    }

    test_solves_correctly(puzzle, solution, CompositeConstraint::new(DefaultConstraint, constraint));
}

#[test]
fn solution_union_rules() {
    let g1 = SudokuGrid::parse("1x1;1").unwrap();
    let g2 = SudokuGrid::parse("1x2;1,2,2,1").unwrap();
    assert_eq!(Solution::Unique(g1.clone()), Solution::Impossible.union(Solution::Unique(g1.clone())));
    assert_eq!(Solution::Unique(g1.clone()), Solution::Unique(g1.clone()).union(Solution::Impossible));
    assert_eq!(Solution::Unique(g1.clone()), Solution::Unique(g1.clone()).union(Solution::Unique(g1.clone())));
    assert_eq!(Solution::Ambiguous, Solution::Unique(g1.clone()).union(Solution::Unique(g2.clone())));
    assert_eq!(Solution::Ambiguous, Solution::Unique(g1.clone()).union(Solution::Ambiguous));
    assert_eq!(Solution::Ambiguous, Solution::Ambiguous.union(Solution::Impossible));
    assert_eq!(Solution::Impossible, Solution::Impossible.union(Solution::Impossible));
}

#[test]
fn empty_classic_grid_is_ambiguous_and_conflict_is_impossible() {
    let empty = Sudoku::parse("2x2;,,,,,,,,,,,,,,,", DefaultConstraint).unwrap();
    assert_eq!(Solution::Ambiguous, BacktrackingSolver.solve(&empty));
    let clash = Sudoku::parse("2x2;1,1,,,,,,,,,,,,,,", DefaultConstraint).unwrap();
    assert_eq!(Solution::Impossible, BacktrackingSolver.solve(&clash));
    let full = Sudoku::parse("2x2;2,3,4,1,1,4,2,3,4,1,3,2,3,2,1,4", DefaultConstraint).unwrap();
    let expected = SudokuGrid::parse("2x2;2,3,4,1,1,4,2,3,4,1,3,2,3,2,1,4").unwrap();
    assert_eq!(Solution::Unique(expected), BacktrackingSolver.solve(&full));
}

#[test]
fn variant_rule_collapses_ambiguity() {
    let puzzle = "3x3;\
         ,1,2,3,4,5,6,7, ,\
         , , , , , , , , ,\
         , , , , , , , , ,\
        7, , , , , , , ,5,\
        2, , , , , , , ,1,\
        9, , , , , , , ,3,\
         , , , , , , , , ,\
         , , , , , , , , ,\
         ,3,4,5,6,7,8,9, ";
    let classic = Sudoku::parse(puzzle, DefaultConstraint).unwrap();
    assert_eq!(Solution::Ambiguous, BacktrackingSolver.solve(&classic));
    let diagonal = Sudoku::parse(puzzle, CompositeConstraint::new(DefaultConstraint, DiagonalsConstraint)).unwrap();
    assert!(matches!(BacktrackingSolver.solve(&diagonal), Solution::Unique(_)));
}

#[test]
fn killer_cage_errors_and_reductions() {
    assert_eq!(KillerError::EmptyCage, KillerCage::new(vec![], 3).unwrap_err());
    assert_eq!(KillerError::DuplicateCell, KillerCage::new(vec![(0, 0), (0, 0)], 3).unwrap_err());
    let mut constraint = KillerConstraint::new();
    constraint.add_cage(KillerCage::new(vec![(0, 0), (1, 0)], 3).unwrap()).unwrap();
    assert_eq!(
        Err(KillerError::OverlappingCages),
        constraint.add_cage(KillerCage::new(vec![(1, 0), (2, 0)], 5).unwrap())
    );
    let grid = SudokuGrid::parse("2x2;1,2,3,4,3,4,1,2,2,1,4,3,4,3,2,1").unwrap();
    assert_eq!(vec![0], constraint.list_reductions(&grid));
    assert!(constraint.check(&grid));
    let bad = SudokuGrid::parse("2x2;2,1,3,4,3,4,1,2,1,2,4,3,4,3,2,1").unwrap();
    assert!(constraint.check(&bad));
    let wrong_sum = SudokuGrid::parse("2x2;1,3,2,4,,,,,,,,,,,,").unwrap();
    assert!(!constraint.check(&wrong_sum));
    let cage = constraint.reduce(&grid, &0).unwrap();
    assert!(constraint.cages().is_empty());
    assert!(constraint.check(&wrong_sum));
    assert!(constraint.reduce(&grid, &0).is_err());
    constraint.revert(&grid, &0, cage);
    assert_eq!(1, constraint.cages().len());
    assert!(!constraint.check(&wrong_sum));
}

#[test]
fn capability_lookup_through_nested_composites() {
    let rule = CompositeConstraint::new(
        DefaultConstraint,
        CompositeConstraint::new(DiagonalsConstraint, KillerConstraint::new()),
    );
    assert!(rule.has_subconstraints(RuleKind::Classic));
    assert!(rule.has_subconstraints(RuleKind::Diagonals));
    assert!(rule.has_subconstraints(RuleKind::Killer));
    assert!(!rule.has_subconstraints(RuleKind::KnightsMove));
    assert!(!DefaultConstraint.has_subconstraints(RuleKind::Killer));
    assert!(rule.second().first().has_rule(RuleKind::Diagonals));
}

#[test]
fn groups_of_rules() {
    let grid = SudokuGrid::new(2, 2).unwrap();
    let classic = DefaultConstraint.get_groups(&grid);
    assert_eq!(12, classic.len());
    assert_eq!(vec![(0, 0), (1, 0), (2, 0), (3, 0)], classic[0]);
    assert_eq!(vec![(0, 1), (1, 1), (2, 1), (3, 1)], classic[1]);
    assert_eq!(vec![(0, 0), (0, 1), (0, 2), (0, 3)], classic[4]);
    assert_eq!(vec![(0, 0), (1, 0), (0, 1), (1, 1)], classic[8]);
    assert_eq!(vec![(2, 2), (3, 2), (2, 3), (3, 3)], classic[11]);
    let wide = SudokuGrid::new(3, 1).unwrap();
    assert_eq!(vec![(0, 0), (1, 0), (2, 0)], DefaultConstraint.get_groups(&wide)[6]);
    let diagonals = DiagonalsConstraint.get_groups(&grid);
    assert_eq!(vec![(0, 0), (1, 1), (2, 2), (3, 3)], diagonals[0]);
    assert_eq!(vec![(0, 3), (1, 2), (2, 1), (3, 0)], diagonals[1]);
    let mut killer = KillerConstraint::new();
    killer.add_cage(KillerCage::new(vec![(0, 0), (5, 5), (1, 0)], 3).unwrap()).unwrap();
    assert_eq!(vec![vec![(0, 0), (1, 0)]], killer.get_groups(&grid));
}

#[test]
fn knights_and_kings_rules_collapse_ambiguity() {
    let knights = "3x3;\
         ,8, ,1, ,5, , , ,\
        4, ,7, ,9, , , , ,\
         ,1, ,8, , , , , ,\
        1, ,8, , , , , ,5,\
         ,7, , , , , ,8, ,\
        5, , , , , ,3, ,4,\
         , , , , ,8, ,4, ,\
         , , , ,3, ,8, ,6,\
         , , ,5, ,4, ,3, ";
    let classic = Sudoku::parse(knights, DefaultConstraint).unwrap();
    assert_eq!(Solution::Ambiguous, BacktrackingSolver.solve(&classic));
    let with_rule = Sudoku::parse(knights, CompositeConstraint::new(DefaultConstraint, KnightsMoveConstraint)).unwrap();
    assert!(matches!(BacktrackingSolver.solve(&with_rule), Solution::Unique(_)));

    let kings = "3x3;\
         , , , ,2,1, , , ,\
         ,6,1, , , , ,3, ,\
         , , , , ,4, ,7, ,\
        3, ,7, , , , , , ,\
        2, , , ,5, , , ,7,\
         , , , , , ,5, ,8,\
         ,8, ,1, , , , , ,\
         ,3, , , , ,6,4, ,\
         , , ,7,6, , , , ";
    let classic = Sudoku::parse(kings, DefaultConstraint).unwrap();
    assert_eq!(Solution::Ambiguous, BacktrackingSolver.solve(&classic));
    let with_rule = Sudoku::parse(kings, CompositeConstraint::new(DefaultConstraint, KingsMoveConstraint)).unwrap();
    assert!(matches!(BacktrackingSolver.solve(&with_rule), Solution::Unique(_)));
}

#[test]
fn irreducible_rules_refuse_reduction() {
    let grid = SudokuGrid::parse("2x2;1,2,3,4,3,4,1,2,2,1,4,3,4,3,2,1").unwrap();
    let mut rule = DefaultConstraint;
    assert!(rule.list_reductions(&grid).is_empty());
    assert_eq!(Err(ReductionError::InvalidReduction), rule.reduce(&grid, &()));
    let mut composite = CompositeConstraint::new(DefaultConstraint, KillerConstraint::new());
    assert!(composite.list_reductions(&grid).is_empty());
}

#[test]
fn composite_groups_and_reductions_concatenate() {
    let grid = SudokuGrid::new(2, 2).unwrap();
    let mut killer = KillerConstraint::new();
    killer.add_cage(KillerCage::new(vec![(0, 0), (1, 0)], 3).unwrap()).unwrap();
    killer.add_cage(KillerCage::new(vec![(3, 3)], 4).unwrap()).unwrap();
    let rule = CompositeConstraint::new(DiagonalsConstraint, killer);
    let groups = rule.get_groups(&grid);
    assert_eq!(4, groups.len());
    assert_eq!(DiagonalsConstraint.get_groups(&grid)[1], groups[1]);
    assert_eq!(vec![(3, 3)], groups[3]);
    let reductions = rule.list_reductions(&grid);
    assert_eq!(2, reductions.len());
    assert!(matches!(reductions[0], rust_puzzle::constraint::CompositeData::Second(0)));
    assert!(matches!(reductions[1], rust_puzzle::constraint::CompositeData::Second(1)));
}
