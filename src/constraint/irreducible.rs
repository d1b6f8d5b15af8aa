use vstd::prelude::*;

use crate::constraint::{Constraint, Group, ReductionError, RuleKind};
use crate::grid::{GridModel, SudokuGrid};

verus! {

/// A rule that cannot be relaxed.
pub trait IrreducibleConstraint: Sized {
    spec fn spec_kind(&self) -> RuleKind;

    fn kind(&self) -> (r: RuleKind)
        ensures
            r == self.spec_kind(),
    ;

    spec fn rule_allows(&self, grid: GridModel, column: int, row: int, number: int) -> bool;

    proof fn lemma_rule_allows_fewer(
        &self,
        fewer: GridModel,
        more: GridModel,
        column: int,
        row: int,
        number: int,
    )
        requires
            fewer.wf(),
            more.wf(),
            fewer.same_dimensions(more),
            fewer.is_subset(more),
            fewer.in_bounds(column, row),
            1 <= number <= fewer.size(),
            self.rule_allows(more, column, row, number),
        ensures
            self.rule_allows(fewer, column, row, number),
    ;

    fn rule_check_number(&self, grid: &SudokuGrid, column: usize, row: usize, number: usize) -> (r: bool)
        requires
            grid.wf(),
            grid@.in_bounds(column as int, row as int),
            1 <= number <= grid@.size(),
        ensures
            r == self.rule_allows(grid@, column as int, row as int, number as int),
    ;

    spec fn rule_spec_groups(&self, grid: GridModel) -> Seq<Seq<(usize, usize)>>;

    fn rule_groups(&self, grid: &SudokuGrid) -> (r: Vec<Group>)
        requires
            grid.wf(),
        ensures
            crate::constraint::groups_in_bounds(r@, grid@.size() as int),
            r@.map_values(|g: Group| g@) == self.rule_spec_groups(grid@),
    ;
}

impl<C: IrreducibleConstraint> Constraint for C {
    type Reduction = ();
    type RevertInfo = ();

    open spec fn allows(&self, grid: GridModel, column: int, row: int, number: int) -> bool {
        self.rule_allows(grid, column, row, number)
    }

    proof fn lemma_allows_fewer(
        &self,
        fewer: GridModel,
        more: GridModel,
        column: int,
        row: int,
        number: int,
    ) {
        self.lemma_rule_allows_fewer(fewer, more, column, row, number);
    }

    open spec fn undoes(&self, solution: GridModel, reduction: (), info: (), earlier: Self) -> bool {
        false
    }

    open spec fn spec_has_rule(&self, kind: RuleKind) -> bool {
        kind == self.spec_kind()
    }

    fn has_rule(&self, kind: RuleKind) -> (r: bool) {
        self.kind() == kind
    }

    open spec fn spec_groups(&self, grid: GridModel) -> Seq<Seq<(usize, usize)>> {
        self.rule_spec_groups(grid)
    }

    open spec fn spec_reductions(&self, solution: GridModel) -> Seq<()> {
        Seq::empty()
    }

    fn check_number(&self, grid: &SudokuGrid, column: usize, row: usize, number: usize) -> (r: bool) {
        self.rule_check_number(grid, column, row, number)
    }

    fn get_groups(&self, grid: &SudokuGrid) -> (r: Vec<Group>) {
        self.rule_groups(grid)
    }

    fn list_reductions(&self, solution: &SudokuGrid) -> (r: Vec<()>) {
        let r = Vec::new();
        assert(r@ =~= Seq::<()>::empty());
        r
    }

    fn reduce(&mut self, solution: &SudokuGrid, reduction: &()) -> (r: Result<(), ReductionError>) {
        Err(ReductionError::InvalidReduction)
    }

    fn revert(&mut self, solution: &SudokuGrid, reduction: &(), revert_info: ()) {
    }
}

} // verus!
