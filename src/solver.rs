use vstd::prelude::*;

use crate::constraint::{Constraint, valid_grid};
use crate::grid::{GridModel, SudokuGrid, lemma_index_in_bounds};
use crate::sudoku::{Sudoku, is_solution, solutions};

verus! {

/// What a search found: no completion, exactly one, or at least two.
#[derive(Debug, PartialEq, Eq)]
pub enum Solution {
    Impossible,
    Unique(SudokuGrid),
    Ambiguous,
}

/// `sol` describes the set of completions `s` correctly.
pub open spec fn classifies(sol: Solution, s: Set<GridModel>) -> bool {
    match sol {
        Solution::Impossible => s == Set::<GridModel>::empty(),
        Solution::Unique(g) => s == set![g@],
        Solution::Ambiguous => exists|a: GridModel, b: GridModel| s.contains(a) && s.contains(b) && a != b,
    }
}

/// `r` is what combining the results `a` and `b` of two searches gives.
pub open spec fn union_of(a: Solution, b: Solution, r: Solution) -> bool {
    match a {
        Solution::Impossible => r == b,
        Solution::Unique(g) => match b {
            Solution::Impossible => r == a,
            Solution::Unique(h) => if g@ == h@ {
                r == a
            } else {
                r is Ambiguous
            },
            Solution::Ambiguous => r is Ambiguous,
        },
        Solution::Ambiguous => r is Ambiguous,
    }
}

impl Solution {
    pub fn union(self, other: Solution) -> (r: Solution)
        ensures
            union_of(self, other, r),
    {
        match self {
            Solution::Impossible => other,
            Solution::Unique(g) => match other {
                Solution::Impossible => Solution::Unique(g),
                Solution::Unique(other_g) => {
                    if g == other_g {
                        Solution::Unique(g)
                    } else {
                        Solution::Ambiguous
                    }
                },
                Solution::Ambiguous => Solution::Ambiguous,
            },
            Solution::Ambiguous => Solution::Ambiguous,
        }
    }
}

/// Combining the results of searches over two sets of completions describes their union.
pub proof fn law_union_classifies(a: Solution, b: Solution, r: Solution, sa: Set<GridModel>, sb: Set<GridModel>)
    requires
        classifies(a, sa),
        classifies(b, sb),
        union_of(a, b, r),
    ensures
        classifies(r, sa.union(sb)),
{
    match a {
        Solution::Impossible => {
            assert(sa.union(sb) =~= sb);
        },
        Solution::Unique(g) => match b {
            Solution::Impossible => {
                assert(sa.union(sb) =~= sa);
            },
            Solution::Unique(h) => {
                if g@ == h@ {
                    assert(sa.union(sb) =~= sa);
                } else {
                    assert(sa.union(sb).contains(g@) && sa.union(sb).contains(h@));
                }
            },
            Solution::Ambiguous => {
                let (x, y) = choose|x: GridModel, y: GridModel| sb.contains(x) && sb.contains(y) && x != y;
                assert(sa.union(sb).contains(x) && sa.union(sb).contains(y));
            },
        },
        Solution::Ambiguous => {
            let (x, y) = choose|x: GridModel, y: GridModel| sa.contains(x) && sa.contains(y) && x != y;
            assert(sa.union(sb).contains(x) && sa.union(sb).contains(y));
        },
    }
}

proof fn lemma_ambiguous_grows(small: Set<GridModel>, big: Set<GridModel>)
    requires
        classifies(Solution::Ambiguous, small),
        small.subset_of(big),
    ensures
        classifies(Solution::Ambiguous, big),
{
    let (x, y) = choose|x: GridModel, y: GridModel| small.contains(x) && small.contains(y) && x != y;
    assert(big.contains(x) && big.contains(y));
}

/// A full grid has itself as its only completion, if the rule accepts it, and none otherwise.
pub(crate) proof fn lemma_full_solutions<C: Constraint>(c: &C, g: GridModel)
    requires
        g.wf(),
        g.is_full(),
    ensures
        solutions(c, g) == if valid_grid(c, g) {
            set![g]
        } else {
            Set::<GridModel>::empty()
        },
{
    assert forall|s: GridModel| #[trigger] solutions(c, g).contains(s) implies s == g by {
        assert forall|i: int| 0 <= i < g.cells.len() implies s.cells[i] == g.cells[i] by {
            assert(g.cells[i] is Some);
        }
        assert(s.cells =~= g.cells);
    }
    assert(g.is_subset(g));
    if valid_grid(c, g) {
        assert(solutions(c, g) =~= set![g]);
    } else {
        assert(solutions(c, g) =~= Set::<GridModel>::empty());
    }
}

/// The completions of the grid with `n` written into the empty cell `pos` are those
/// completions of the grid that hold `n` there.
pub(crate) proof fn lemma_place<C: Constraint>(c: &C, g0: GridModel, pos: int, n: usize)
    requires
        g0.wf(),
        0 <= pos < g0.cells.len(),
        g0.cells[pos] is None,
    ensures
        solutions(c, GridModel { cells: g0.cells.update(pos, Some(n)), ..g0 }) == solutions(c, g0).filter(
            |s: GridModel| s.cells[pos] == Some(n),
        ),
{
    let g1 = GridModel { cells: g0.cells.update(pos, Some(n)), ..g0 };
    let f = solutions(c, g0).filter(|s: GridModel| s.cells[pos] == Some(n));
    assert forall|s: GridModel| #[trigger] solutions(c, g1).contains(s) <==> f.contains(s) by {
        if solutions(c, g1).contains(s) {
            assert(g1.cells[pos] == Some(n));
            assert forall|i: int| 0 <= i < g0.cells.len() implies (#[trigger] g0.cells[i] matches Some(m) ==> s.cells[i] == Some(m)) by {
                if i != pos {
                    assert(g1.cells[i] == g0.cells[i]);
                }
            }
        }
        if solutions(c, g0).contains(s) && s.cells[pos] == Some(n) {
            assert forall|i: int| 0 <= i < g1.cells.len() implies (#[trigger] g1.cells[i] matches Some(m) ==> s.cells[i] == Some(m)) by {
                if i != pos {
                    assert(g1.cells[i] == g0.cells[i]);
                }
            }
        }
    }
    assert(solutions(c, g1) =~= f);
}

/// A digit that the rule rejects in the empty cell rules out every completion holding it there.
pub(crate) proof fn lemma_rejected<C: Constraint>(c: &C, g0: GridModel, column: int, row: int, n: usize)
    requires
        g0.wf(),
        g0.in_bounds(column, row),
        1 <= n <= g0.size(),
        !c.allows(g0, column, row, n as int),
    ensures
        solutions(c, g0).filter(|s: GridModel| s.cells[g0.index(column, row)] == Some(n))
            == Set::<GridModel>::empty(),
{
    let pos = g0.index(column, row);
    let f = solutions(c, g0).filter(|s: GridModel| s.cells[pos] == Some(n));
    assert forall|s: GridModel| !#[trigger] f.contains(s) by {
        if solutions(c, g0).contains(s) && s.cells[pos] == Some(n) {
            assert(s.cell(column, row) == Some(n));
            c.lemma_allows_fewer(g0, s, column, row, n as int);
        }
    }
    assert(f =~= Set::<GridModel>::empty());
}

/// The completions that hold a digit below `n` in cell `pos`.
spec fn tried<C: Constraint>(c: &C, g0: GridModel, pos: int, n: int) -> Set<GridModel> {
    solutions(c, g0).filter(|s: GridModel| s.cells[pos] matches Some(m) && m < n)
}

pub(crate) proof fn lemma_next_cell(column: int, row: int, size: int)
    requires
        0 <= column < size,
        0 <= row < size,
    ensures
        ({
            let nc = (column + 1) % size;
            let nr = if nc == 0 { row + 1 } else { row };
            &&& nr * size + nc == row * size + column + 1
            &&& (0 <= nr < size && 0 <= nc < size) || (nr == size && nc == 0)
            &&& row * size + column < size * size
        }),
{
    lemma_index_in_bounds(column, row, size);
    if column + 1 < size {
        vstd::arithmetic::div_mod::lemma_small_mod((column + 1) as nat, size as nat);
    } else {
        vstd::arithmetic::div_mod::lemma_mod_self_0(size);
        assert((row + 1) * size == row * size + size) by (nonlinear_arith);
    }
}

/// Searches depth-first, in row-major order, for completions of a grid.
#[derive(Clone, Copy, Debug)]
pub struct BacktrackingSolver;

pub trait Solver {
    /// Classifies the completions of the sudoku's grid; the sudoku itself is left untouched.
    fn solve<C: Constraint>(&self, sudoku: &Sudoku<C>) -> (r: Solution)
        requires
            sudoku.wf(),
        ensures
            classifies(r, sudoku.spec_solutions()),
            r matches Solution::Unique(g) ==> g.wf(),
    ;
}

impl BacktrackingSolver {
    fn solve_rec<C: Constraint>(grid: &mut SudokuGrid, constraint: &C, column: usize, row: usize) -> (r: Solution)
        requires
            old(grid).wf(),
            old(grid)@.in_bounds(column as int, row as int) || (row == old(grid)@.size() && column == 0),
            forall|i: int| 0 <= i < row * old(grid)@.size() + column ==> #[trigger] old(grid)@.cells[i] is Some,
        ensures
            final(grid).wf(),
            final(grid)@ == old(grid)@,
            classifies(r, solutions(constraint, old(grid)@)),
            r matches Solution::Unique(g) ==> g.wf(),
        decreases old(grid)@.size() * old(grid)@.size() - (row * old(grid)@.size() + column),
    {
        let size = grid.size();
        if row == size {
            proof {
                assert(row * size + column == size * size);
                lemma_full_solutions(constraint, grid@);
            }
            if constraint.check(grid) {
                return Solution::Unique(grid.clone());
            } else {
                return Solution::Impossible;
            }
        }
        let next_column = (column + 1) % size;
        let next_row = if next_column == 0 { row + 1 } else { row };
        proof {
            lemma_next_cell(column as int, row as int, size as int);
        }
        let ghost g0 = grid@;
        let ghost pos = g0.index(column as int, row as int);
        proof {
            grid.lemma_size_bound();
        }
        if let Ok(Some(_)) = grid.get_cell(column, row) {
            return BacktrackingSolver::solve_rec(grid, constraint, next_column, next_row);
        }
        let mut solution = Solution::Impossible;
        let mut done = false;
        let mut number: usize = 1;
        proof {
            assert(tried(constraint, g0, pos, 1) =~= Set::<GridModel>::empty());
        }
        while number <= size && !done
            invariant
                grid.wf(),
                grid@ == g0,
                old(grid)@ == g0,
                size == g0.size(),
                size < usize::MAX,
                column < size,
                row < size,
                pos == g0.index(column as int, row as int),
                0 <= pos < size * size,
                g0.cells[pos] is None,
                next_row * size + next_column == pos + 1,
                g0.in_bounds(next_column as int, next_row as int) || (next_row == size && next_column == 0),
                forall|i: int| 0 <= i < pos ==> #[trigger] g0.cells[i] is Some,
                1 <= number <= size + 1,
                !done ==> classifies(solution, tried(constraint, g0, pos, number as int)),
                done ==> classifies(solution, solutions(constraint, g0)),
                solution matches Solution::Unique(g) ==> g.wf(),
            decreases size + 1 - number, (if done { 0int } else { 1int }),
        {
            let ghost before = tried(constraint, g0, pos, number as int);
            let ghost placed = solutions(constraint, g0).filter(|s: GridModel| s.cells[pos] == Some(number));
            proof {
                assert(tried(constraint, g0, pos, number + 1) =~= before.union(placed));
            }
            if constraint.check_number(grid, column, row, number) {
                let _ = grid.set_cell(column, row, number);
                proof {
                    lemma_place(constraint, g0, pos, number);
                    assert forall|i: int| 0 <= i < next_row * size + next_column implies #[trigger] grid@.cells[i] is Some by {
                        if i != pos {
                            assert(grid@.cells[i] == g0.cells[i]);
                        }
                    }
                }
                let next = BacktrackingSolver::solve_rec(grid, constraint, next_column, next_row);
                let _ = grid.clear_cell(column, row);
                proof {
                    assert(grid@.cells =~= g0.cells);
                }
                let ghost old_solution = solution;
                solution = solution.union(next);
                proof {
                    law_union_classifies(old_solution, next, solution, before, placed);
                }
                if let Solution::Ambiguous = solution {
                    proof {
                        lemma_ambiguous_grows(tried(constraint, g0, pos, number + 1), solutions(constraint, g0));
                    }
                    done = true;
                }
            } else {
                proof {
                    lemma_rejected(constraint, g0, column as int, row as int, number);
                    assert(tried(constraint, g0, pos, number + 1) =~= before);
                }
            }
            if !done {
                number = number + 1;
            }
        }
        proof {
            if !done {
                assert(tried(constraint, g0, pos, size + 1) =~= solutions(constraint, g0)) by {
                    assert forall|s: GridModel| #[trigger] solutions(constraint, g0).contains(s) implies s.cells[pos] matches Some(m) && m < size + 1 by {
                        assert(s.cells[pos] is Some);
                    }
                }
            }
        }
        solution
    }
}

impl Solver for BacktrackingSolver {
    fn solve<C: Constraint>(&self, sudoku: &Sudoku<C>) -> (r: Solution) {
        let mut grid = sudoku.grid().clone();
        BacktrackingSolver::solve_rec(&mut grid, sudoku.constraint(), 0, 0)
    }
}

} // verus!
