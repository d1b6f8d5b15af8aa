use vstd::prelude::*;

use crate::grid::{GridModel, SudokuGrid};

pub mod composite;
pub mod irreducible;
pub mod killer;
pub mod rules;

pub use composite::{CompositeConstraint, CompositeData};
pub use irreducible::IrreducibleConstraint;
pub use killer::{KillerCage, KillerConstraint, KillerError};
pub use rules::{
    AdjacentConsecutiveConstraint, DefaultConstraint, DiagonallyAdjacentConstraint, DiagonalsConstraint,
    KingsMoveConstraint, KnightsMoveConstraint,
};

verus! {

/// Cells, as `(column, row)` pairs, that a rule constrains together.
pub type Group = Vec<(usize, usize)>;

/// The elementary rules, by kind.
#[derive(Debug, PartialEq, Eq, Structural, Clone, Copy)]
pub enum RuleKind {
    Classic,
    Diagonals,
    KnightsMove,
    KingsMove,
    DiagonallyAdjacent,
    AdjacentConsecutive,
    Killer,
}

#[derive(Debug, PartialEq, Eq, Structural, Clone, Copy)]
pub enum ReductionError {
    InvalidReduction,
}

/// The digit in the cell, if any, is one the rule allows there.
pub open spec fn cell_ok<C: Constraint>(c: &C, g: GridModel, column: int, row: int) -> bool {
    match g.cell(column, row) {
        Some(n) => c.allows(g, column, row, n as int),
        None => true,
    }
}

/// Every digit of the grid is one the rule allows where it stands.
pub open spec fn valid_grid<C: Constraint>(c: &C, g: GridModel) -> bool {
    forall|column: int, row: int| g.in_bounds(column, row) ==> (match #[trigger] g.cell(column, row) {
        Some(n) => c.allows(g, column, row, n as int),
        None => true,
    })
}

/// Every cell of every group lies within a grid of the given size.
pub open spec fn groups_in_bounds(groups: Seq<Group>, size: int) -> bool {
    forall|i: int, j: int| 0 <= i < groups.len() && 0 <= j < groups[i]@.len() ==> {
        let (x, y) = #[trigger] groups[i]@[j];
        x < size && y < size
    }
}

/// Two rules allow exactly the same placements.
pub open spec fn same_behaviour<C: Constraint>(a: &C, b: &C) -> bool {
    forall|g: GridModel, c: int, r: int, n: int| #[trigger] a.allows(g, c, r, n) == b.allows(g, c, r, n)
}

/// `b` allows everything that `a` allows.
pub open spec fn relaxes<C: Constraint>(b: &C, a: &C) -> bool {
    forall|g: GridModel, c: int, w: int, n: int| #[trigger] a.allows(g, c, w, n) ==> b.allows(g, c, w, n)
}

/// A rule of the puzzle, or a combination of rules.
pub trait Constraint: Sized {
    type Reduction;
    type RevertInfo;

    /// Whether the rule lets `number` stand at `(column, row)`, given the rest of the grid.
    spec fn allows(&self, grid: GridModel, column: int, row: int, number: int) -> bool;

    /// A placement that the rule allows in a grid it allows in every grid that holds
    /// only some of those digits: removing digits never makes a placement wrong.
    proof fn lemma_allows_fewer(
        &self,
        fewer: GridModel,
        more: GridModel,
        column: int,
        row: int,
        number: int,
    )
        requires
            fewer.wf(),
            more.wf(),
            fewer.same_dimensions(more),
            fewer.is_subset(more),
            fewer.in_bounds(column, row),
            1 <= number <= fewer.size(),
            self.allows(more, column, row, number),
        ensures
            self.allows(fewer, column, row, number),
    ;

    /// Whether this rule is, or is composed of, an elementary rule of kind `kind`.
    spec fn spec_has_rule(&self, kind: RuleKind) -> bool;

    fn has_rule(&self, kind: RuleKind) -> (r: bool)
        ensures
            r == self.spec_has_rule(kind),
    ;

    /// Reverting `reduction`, which gave `info`, on this rule restores `earlier`.
    spec fn undoes(&self, solution: GridModel, reduction: Self::Reduction, info: Self::RevertInfo, earlier: Self) -> bool;

    fn check(&self, grid: &SudokuGrid) -> (r: bool)
        requires
            grid.wf(),
        ensures
            r == forall|column: int, row: int| grid@.in_bounds(column, row) ==> (match #[trigger] grid@.cell(column, row) {
                Some(n) => self.allows(grid@, column, row, n as int),
                None => true,
            }),
    {
        let size = grid.size();
        let mut row: usize = 0;
        while row < size
            invariant
                grid.wf(),
                size == grid@.size(),
                row <= size,
                forall|c: int, r: int| 0 <= c < size && 0 <= r < row ==> (match #[trigger] grid@.cell(c, r) {
                    Some(n) => self.allows(grid@, c, r, n as int),
                    None => true,
                }),
            decreases size - row,
        {
            let mut column: usize = 0;
            while column < size
                invariant
                    grid.wf(),
                    size == grid@.size(),
                    row < size,
                    column <= size,
                    forall|c: int, r: int| 0 <= c < size && 0 <= r < row ==> (match #[trigger] grid@.cell(c, r) {
                        Some(n) => self.allows(grid@, c, r, n as int),
                        None => true,
                    }),
                    forall|c: int| 0 <= c < column ==> (match #[trigger] grid@.cell(c, row as int) {
                        Some(n) => self.allows(grid@, c, row as int, n as int),
                        None => true,
                    }),
                decreases size - column,
            {
                if !self.check_cell(grid, column, row) {
                    return false;
                }
                column = column + 1;
            }
            row = row + 1;
        }
        true
    }

    fn check_cell(&self, grid: &SudokuGrid, column: usize, row: usize) -> (r: bool)
        requires
            grid.wf(),
            grid@.in_bounds(column as int, row as int),
        ensures
            r == match grid@.cell(column as int, row as int) {
                Some(n) => self.allows(grid@, column as int, row as int, n as int),
                None => true,
            },
    {
        let cell = grid.get_cell(column, row);
        match cell {
            Ok(Some(number)) => {
                proof {
                    crate::grid::lemma_index_in_bounds(column as int, row as int, grid@.size() as int);
                }
                self.check_number(grid, column, row, number)
            },
            _ => true,
        }
    }

    fn check_number(&self, grid: &SudokuGrid, column: usize, row: usize, number: usize) -> (r: bool)
        requires
            grid.wf(),
            grid@.in_bounds(column as int, row as int),
            1 <= number <= grid@.size(),
        ensures
            r == self.allows(grid@, column as int, row as int, number as int),
    ;

    /// The groups of cells this rule constrains together in a grid.
    spec fn spec_groups(&self, grid: GridModel) -> Seq<Seq<(usize, usize)>>;

    fn get_groups(&self, grid: &SudokuGrid) -> (r: Vec<Group>)
        requires
            grid.wf(),
        ensures
            groups_in_bounds(r@, grid@.size() as int),
            r@.map_values(|g: Group| g@) == self.spec_groups(grid@),
    ;

    /// The relaxations this rule offers for `solution`.
    spec fn spec_reductions(&self, solution: GridModel) -> Seq<Self::Reduction>;

    /// The relaxations of this rule; each only widens what the rule allows (see `reduce`),
    /// so `solution` stays valid under every one of them.
    fn list_reductions(&self, solution: &SudokuGrid) -> (r: Vec<Self::Reduction>)
        requires
            solution.wf(),
        ensures
            r@ == self.spec_reductions(solution@),
    ;

    /// Applies a relaxation; on failure the rule is left as it was.
    fn reduce(&mut self, solution: &SudokuGrid, reduction: &Self::Reduction) -> (r: Result<
        Self::RevertInfo,
        ReductionError,
    >)
        requires
            solution.wf(),
        ensures
            r is Err ==> *final(self) == *old(self),
            r matches Ok(info) ==> final(self).undoes(solution@, *reduction, info, *old(self)),
            r is Ok ==> forall|g: GridModel, c: int, w: int, n: int| #[trigger] old(self).allows(g, c, w, n)
                ==> final(self).allows(g, c, w, n),
    ;

    /// Undoes a relaxation that `reduce` applied: the rule then allows exactly what it did before.
    fn revert(&mut self, solution: &SudokuGrid, reduction: &Self::Reduction, revert_info: Self::RevertInfo)
        requires
            solution.wf(),
        ensures
            forall|earlier: Self| #[trigger] old(self).undoes(solution@, *reduction, revert_info, earlier)
                ==> forall|g: GridModel, c: int, r: int, n: int| #[trigger] final(self).allows(g, c, r, n)
                == earlier.allows(g, c, r, n),
    ;
}

/// Looks up parts of a rule by kind, through any depth of composition.
pub trait Subconstraint: Constraint {
    fn has_subconstraints(&self, kind: RuleKind) -> (r: bool)
        ensures
            r == self.spec_has_rule(kind),
    ;
}

impl<C: Constraint> Subconstraint for C {
    fn has_subconstraints(&self, kind: RuleKind) -> (r: bool) {
        self.has_rule(kind)
    }
}

} // verus!
