use vstd::prelude::*;

use crate::constraint::{Constraint, valid_grid};
use crate::error::{SudokuError, SudokuParseError, SudokuParseResult, SudokuResult};
use crate::grid::{GridModel, SudokuGrid, parse_grid};
use vstd::string::StringSliceAdditionalSpecFns;

verus! {

/// `s` is a completion of `puzzle` that the rule accepts.
pub open spec fn is_solution<C: Constraint>(c: &C, puzzle: GridModel, s: GridModel) -> bool {
    &&& s.wf()
    &&& s.same_dimensions(puzzle)
    &&& s.is_full()
    &&& puzzle.is_subset(s)
    &&& valid_grid(c, s)
}

/// All completions of `puzzle` that the rule accepts.
pub open spec fn solutions<C: Constraint>(c: &C, puzzle: GridModel) -> Set<GridModel> {
    Set::new(|s: GridModel| is_solution(c, puzzle, s))
}

/// A grid together with the rule that its digits must obey.
pub struct Sudoku<C: Constraint> {
    grid: SudokuGrid,
    constraint: C,
}

impl<C: Constraint> Sudoku<C> {
    pub closed spec fn spec_grid(&self) -> SudokuGrid {
        self.grid
    }

    pub closed spec fn spec_constraint(&self) -> C {
        self.constraint
    }

    pub open spec fn wf(&self) -> bool {
        self.spec_grid().wf()
    }

    /// The completions of the grid that the rule accepts.
    pub open spec fn spec_solutions(&self) -> Set<GridModel> {
        solutions(&self.spec_constraint(), self.spec_grid()@)
    }

    pub fn new_empty(block_width: usize, block_height: usize, constraint: C) -> (r: SudokuResult<Sudoku<C>>)
        requires
            block_width > 0 && block_height > 0 ==> block_width * block_height * (block_width
                * block_height) <= usize::MAX,
        ensures
            (block_width == 0 || block_height == 0) <==> r is Err,
            r matches Err(e) ==> e == SudokuError::InvalidDimensions,
            r matches Ok(s) ==> s.wf() && s.spec_constraint() == constraint
                && s.spec_grid()@ == GridModel::empty(block_width as nat, block_height as nat),
    {
        let grid = SudokuGrid::new(block_width, block_height)?;
        Ok(Sudoku { grid, constraint })
    }

    pub fn new_with_grid(grid: SudokuGrid, constraint: C) -> (r: Sudoku<C>)
        ensures
            r.spec_grid() == grid,
            r.spec_constraint() == constraint,
    {
        Sudoku { grid, constraint }
    }

    /// Reads the grid from its textual form and pairs it with `constraint`.
    pub fn parse(code: &str, constraint: C) -> (r: SudokuParseResult<Sudoku<C>>)
        ensures
            match r {
                Ok(s) => s.wf() && s.spec_constraint() == constraint && parse_grid(code.spec_bytes())
                    == Ok::<GridModel, SudokuParseError>(s.spec_grid()@),
                Err(e) => parse_grid(code.spec_bytes()) == Err::<GridModel, SudokuParseError>(e),
            },
    {
        let grid = SudokuGrid::parse(code)?;
        Ok(Sudoku::new_with_grid(grid, constraint))
    }

    pub fn grid(&self) -> (r: &SudokuGrid)
        ensures
            *r == self.spec_grid(),
    {
        &self.grid
    }

    pub fn grid_mut(&mut self) -> (r: &mut SudokuGrid)
        ensures
            *r == old(self).spec_grid(),
            final(self).spec_grid() == *final(r),
            final(self).spec_constraint() == old(self).spec_constraint(),
    {
        &mut self.grid
    }

    pub fn constraint(&self) -> (r: &C)
        ensures
            *r == self.spec_constraint(),
    {
        &self.constraint
    }

    pub fn constraint_mut(&mut self) -> (r: &mut C)
        ensures
            *r == old(self).spec_constraint(),
            final(self).spec_constraint() == *final(r),
            final(self).spec_grid() == old(self).spec_grid(),
    {
        &mut self.constraint
    }

    pub fn is_valid(&self) -> (r: bool)
        requires
            self.wf(),
        ensures
            r == valid_grid(&self.spec_constraint(), self.spec_grid()@),
    {
        self.constraint.check(&self.grid)
    }

    pub fn is_valid_cell(&self, column: usize, row: usize) -> (r: SudokuResult<bool>)
        requires
            self.wf(),
        ensures
            self.spec_grid()@.in_bounds(column as int, row as int) <==> r is Ok,
            r matches Err(e) ==> e == SudokuError::OutOfBounds,
            r matches Ok(b) ==> b == crate::constraint::cell_ok(
                &self.spec_constraint(),
                self.spec_grid()@,
                column as int,
                row as int,
            ),
    {
        let size = self.grid.size();
        if column >= size || row >= size {
            Err(SudokuError::OutOfBounds)
        } else {
            Ok(self.constraint.check_cell(&self.grid, column, row))
        }
    }

    pub fn is_valid_number(&self, column: usize, row: usize, number: usize) -> (r: SudokuResult<bool>)
        requires
            self.wf(),
        ensures
            (self.spec_grid()@.in_bounds(column as int, row as int) && 1 <= number
                <= self.spec_grid()@.size()) <==> r is Ok,
            r matches Err(e) ==> if self.spec_grid()@.in_bounds(column as int, row as int) {
                e == SudokuError::InvalidNumber
            } else {
                e == SudokuError::OutOfBounds
            },
            r matches Ok(b) ==> b == self.spec_constraint().allows(
                self.spec_grid()@,
                column as int,
                row as int,
                number as int,
            ),
    {
        let size = self.grid.size();
        if column >= size || row >= size {
            Err(SudokuError::OutOfBounds)
        } else if number == 0 || number > size {
            Err(SudokuError::InvalidNumber)
        } else {
            Ok(self.constraint.check_number(&self.grid, column, row, number))
        }
    }

    /// Whether `solution` is a full grid that keeps every digit of this sudoku and obeys its rule.
    pub fn is_valid_solution(&self, solution: &SudokuGrid) -> (r: SudokuResult<bool>)
        requires
            self.wf(),
            solution.wf(),
        ensures
            self.spec_grid()@.same_dimensions(solution@) <==> r is Ok,
            r matches Err(e) ==> e == SudokuError::InvalidDimensions,
            r matches Ok(b) ==> b == is_solution(&self.spec_constraint(), self.spec_grid()@, solution@),
    {
        let subset = self.grid.is_subset(solution)?;
        Ok(subset && self.constraint.check(solution) && solution.is_full())
    }

    pub fn into_raw_parts(self) -> (r: (SudokuGrid, C))
        ensures
            r == (self.spec_grid(), self.spec_constraint()),
    {
        (self.grid, self.constraint)
    }
}

} // verus!
