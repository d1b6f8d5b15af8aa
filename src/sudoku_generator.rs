use vstd::prelude::*;

use rand::rngs::StdRng;
use rand::Rng;

use crate::constraint::{Constraint, relaxes, same_behaviour, valid_grid};
use crate::error::{SudokuError, SudokuResult};
use crate::grid::{GridModel, SudokuGrid};
use crate::solver::{Solution, Solver, classifies};
use crate::sudoku::{Sudoku, is_solution, solutions};

verus! {

#[verifier::external_type_specification]
#[verifier::external_body]
pub struct ExStdRng(StdRng);

/// Relies on rand's `Rng::gen_range`: a value of the half-open range `[low, high)`;
/// it panics on an empty range, which `requires` rules out.
#[verifier::external_body]
fn random_in(rng: &mut StdRng, low: usize, high: usize) -> (r: usize)
    requires
        low < high,
    ensures
        low <= r < high,
{
    rng.gen_range(low..high)
}

/// `v` holds each value of `[first, first + count)` and nothing else.
pub open spec fn is_permutation_of_range(v: Seq<usize>, first: int, count: int) -> bool {
    &&& v.len() == count
    &&& forall|i: int| 0 <= i < v.len() ==> first <= #[trigger] v[i] < first + count
    &&& forall|x: int| first <= x < first + count ==> #[trigger] occurs(v, x)
}

/// `x` is an entry of `v`.
pub open spec fn occurs(v: Seq<usize>, x: int) -> bool {
    exists|i: int| 0 <= i < v.len() && v[i] == x
}

/// The values `first, ..., first + count - 1` in a uniformly random order (Fisher–Yates).
pub(crate) fn shuffle(rng: &mut StdRng, first: usize, count: usize) -> (r: Vec<usize>)
    requires
        first + count <= usize::MAX,
    ensures
        is_permutation_of_range(r@, first as int, count as int),
{
    let mut v: Vec<usize> = Vec::new();
    let mut k: usize = 0;
    while k < count
        invariant
            first + count <= usize::MAX,
            k <= count,
            v@.len() == k,
            forall|i: int| 0 <= i < k ==> #[trigger] v@[i] == first + i,
        decreases count - k,
    {
        v.push(first + k);
        k = k + 1;
    }
    assert forall|x: int| first <= x < first + count implies #[trigger] occurs(v@, x) by {
        assert(v@[x - first] == x);
    }
    let len = v.len();
    let mut i: usize = 0;
    while i < len && len - i > 1
        invariant
            len == count,
            i <= len,
            is_permutation_of_range(v@, first as int, count as int),
        decreases len - i,
    {
        let j = random_in(rng, i, len);
        let a = v[i];
        let b = v[j];
        let ghost before = v@;
        v.set(i, b);
        v.set(j, a);
        proof {
            assert forall|x: int| first <= x < first + count implies #[trigger] occurs(v@, x) by {
                assert(occurs(before, x));
                let p = choose|p: int| 0 <= p < before.len() && before[p] == x;
                if p == i {
                    assert(v@[j as int] == x);
                } else if p == j {
                    assert(v@[i as int] == x);
                } else {
                    assert(v@[p] == x);
                }
            }
        }
        i = i + 1;
    }
    v
}

/// The completions of `g0` that hold `n` in cell `pos`.
pub open spec fn holding<C: Constraint>(c: &C, g0: GridModel, pos: int, n: usize) -> Set<GridModel> {
    solutions(c, g0).filter(|s: GridModel| s.cells[pos] == Some(n))
}

/// Fills grids with digits in a random order.
pub struct Generator {
    rng: StdRng,
}

impl Generator {
    pub fn new(rng: StdRng) -> (r: Generator) {
        Generator { rng }
    }

    fn fill_rec<C: Constraint>(&mut self, sudoku: &mut Sudoku<C>, column: usize, row: usize) -> (r: bool)
        requires
            old(sudoku).wf(),
            old(sudoku).spec_grid()@.in_bounds(column as int, row as int) || (row
                == old(sudoku).spec_grid()@.size() && column == 0),
            forall|i: int| 0 <= i < row * old(sudoku).spec_grid()@.size() + column
                ==> #[trigger] old(sudoku).spec_grid()@.cells[i] is Some,
        ensures
            final(sudoku).wf(),
            final(sudoku).spec_constraint() == old(sudoku).spec_constraint(),
            r ==> old(sudoku).spec_solutions().contains(final(sudoku).spec_grid()@),
            !r ==> final(sudoku).spec_grid()@ == old(sudoku).spec_grid()@
                && old(sudoku).spec_solutions() == Set::<GridModel>::empty(),
        decreases old(sudoku).spec_grid()@.size() * old(sudoku).spec_grid()@.size() - (row
            * old(sudoku).spec_grid()@.size() + column),
    {
        let size = sudoku.grid().size();
        let ghost c = sudoku.spec_constraint();
        let ghost g0 = sudoku.spec_grid()@;
        if row == size {
            proof {
                assert(row * size + column == size * size);
                crate::solver::lemma_full_solutions(&c, g0);
            }
            let valid = sudoku.is_valid();
            proof {
                if valid {
                    assert(g0.is_subset(g0));
                    assert(solutions(&c, g0).contains(g0));
                }
            }
            return valid;
        }
        let next_column = (column + 1) % size;
        let next_row = if next_column == 0 { row + 1 } else { row };
        proof {
            crate::solver::lemma_next_cell(column as int, row as int, size as int);
            sudoku.spec_grid().lemma_size_bound();
        }
        let ghost pos = g0.index(column as int, row as int);
        if let Ok(Some(_)) = sudoku.grid().get_cell(column, row) {
            return self.fill_rec(sudoku, next_column, next_row);
        }
        let digits = shuffle(&mut self.rng, 1, size);
        let mut k: usize = 0;
        while k < size
            invariant
                sudoku.wf(),
                sudoku.spec_grid()@ == g0,
                sudoku.spec_constraint() == c,
                old(sudoku).spec_grid()@ == g0,
                old(sudoku).spec_constraint() == c,
                size == g0.size(),
                column < size,
                row < size,
                pos == g0.index(column as int, row as int),
                0 <= pos < size * size,
                g0.cells[pos] is None,
                next_row * size + next_column == pos + 1,
                g0.in_bounds(next_column as int, next_row as int) || (next_row == size && next_column == 0),
                forall|i: int| 0 <= i < pos ==> #[trigger] g0.cells[i] is Some,
                is_permutation_of_range(digits@, 1, size as int),
                k <= size,
                forall|j: int| 0 <= j < k ==> #[trigger] holding(&c, g0, pos, digits@[j]) == Set::<GridModel>::empty(),
            decreases size - k,
        {
            let number = digits[k];
            let ghost placed = holding(&c, g0, pos, number);
            let valid = sudoku.is_valid_number(column, row, number);
            if let Ok(true) = valid {
                let _ = sudoku.grid_mut().set_cell(column, row, number);
                proof {
                    crate::solver::lemma_place(&c, g0, pos, number);
                    assert forall|i: int| 0 <= i < next_row * size + next_column implies #[trigger] sudoku.spec_grid()@.cells[i] is Some by {
                        if i != pos {
                            assert(sudoku.spec_grid()@.cells[i] == g0.cells[i]);
                        }
                    }
                }
                if self.fill_rec(sudoku, next_column, next_row) {
                    return true;
                }
                let _ = sudoku.grid_mut().clear_cell(column, row);
                proof {
                    assert(sudoku.spec_grid()@.cells =~= g0.cells);
                    assert(placed =~= Set::<GridModel>::empty());
                }
            } else {
                proof {
                    crate::solver::lemma_rejected(&c, g0, column as int, row as int, number);
                }
            }
            k = k + 1;
        }
        proof {
            assert forall|s: GridModel| !#[trigger] solutions(&c, g0).contains(s) by {
                if solutions(&c, g0).contains(s) {
                    let m = s.cells[pos]->Some_0;
                    assert(s.cells[pos] is Some);
                    assert(occurs(digits@, m as int));
                    let j = choose|j: int| 0 <= j < digits@.len() && digits@[j] == m as int;
                    assert(holding(&c, g0, pos, digits@[j]).contains(s));
                }
            }
            assert(solutions(&c, g0) =~= Set::<GridModel>::empty());
        }
        false
    }

    /// Completes the sudoku's grid with digits that its rule accepts.
    pub fn fill<C: Constraint>(&mut self, sudoku: &mut Sudoku<C>) -> (r: SudokuResult<()>)
        requires
            old(sudoku).wf(),
        ensures
            final(sudoku).wf(),
            final(sudoku).spec_constraint() == old(sudoku).spec_constraint(),
            r is Ok ==> old(sudoku).spec_solutions().contains(final(sudoku).spec_grid()@),
            r is Err <==> old(sudoku).spec_solutions() == Set::<GridModel>::empty(),
            r matches Err(e) ==> e == SudokuError::UnsatisfiableConstraint
                && final(sudoku).spec_grid()@ == old(sudoku).spec_grid()@,
    {
        proof {
            sudoku.spec_grid().lemma_size_bound();
        }
        if self.fill_rec(sudoku, 0, 0) {
            Ok(())
        } else {
            Err(SudokuError::UnsatisfiableConstraint)
        }
    }

    /// A full grid of the given dimensions that the rule accepts.
    pub fn generate<C: Constraint>(&mut self, block_width: usize, block_height: usize, constraint: C) -> (r: SudokuResult<Sudoku<C>>)
        requires
            block_width > 0 && block_height > 0 ==> block_width * block_height * (block_width
                * block_height) <= usize::MAX,
        ensures
            r matches Err(e) ==> e == SudokuError::InvalidDimensions || e == SudokuError::UnsatisfiableConstraint,
            r matches Err(e) ==> (e == SudokuError::InvalidDimensions <==> (block_width == 0 || block_height == 0)),
            r matches Err(e) ==> (e == SudokuError::UnsatisfiableConstraint <==> (block_width > 0 && block_height > 0
                && solutions(&constraint, GridModel::empty(block_width as nat, block_height as nat)) == Set::<GridModel>::empty())),
            r matches Ok(s) ==> s.wf() && s.spec_constraint() == constraint && is_solution(
                &constraint,
                GridModel::empty(block_width as nat, block_height as nat),
                s.spec_grid()@,
            ),
    {
        let mut sudoku = Sudoku::new_empty(block_width, block_height, constraint)?;
        self.fill(&mut sudoku)?;
        Ok(sudoku)
    }
}

/// Rules that allow the same placements have the same completions.
proof fn lemma_same_behaviour_solutions<C: Constraint>(a: &C, b: &C, g: GridModel)
    requires
        crate::constraint::same_behaviour(a, b),
    ensures
        solutions(a, g) == solutions(b, g),
{
    assert forall|s: GridModel| #[trigger] solutions(a, g).contains(s) <==> solutions(b, g).contains(s) by {
        assert(valid_grid(a, s) <==> valid_grid(b, s)) by {
            assert forall|column: int, row: int| s.in_bounds(column, row) implies (match #[trigger] s.cell(column, row) {
                Some(n) => a.allows(s, column, row, n as int),
                None => true,
            }) == (match s.cell(column, row) {
                Some(n) => b.allows(s, column, row, n as int),
                None => true,
            }) by {
                if let Some(n) = s.cell(column, row) {
                    assert(a.allows(s, column, row, n as int) == b.allows(s, column, row, n as int));
                }
            }
        }
    }
    assert(solutions(a, g) =~= solutions(b, g));
}

/// One step of thinning a puzzle: take away a digit, or relax the rule.
pub enum Reduction<R> {
    RemoveDigit { column: usize, row: usize },
    ReduceConstraint { reduction: R },
}

/// The sudoku has exactly one completion.
pub open spec fn has_unique_solution<C: Constraint>(s: &Sudoku<C>) -> bool {
    exists|g: GridModel| s.spec_solutions() == set![g]
}

/// A sudoku with exactly one completion is one that every solver classifies as `Unique`,
/// with that completion: so solving a reduced sudoku always gives `Unique`.
pub proof fn law_unique_solution_solves_unique<C: Constraint>(s: &Sudoku<C>, sol: Solution)
    requires
        has_unique_solution(s),
        classifies(sol, s.spec_solutions()),
    ensures
        sol matches Solution::Unique(g) && s.spec_solutions() == set![g@],
{
    let g = choose|g: GridModel| s.spec_solutions() == set![g];
    match sol {
        Solution::Impossible => {
            assert(s.spec_solutions().contains(g));
        },
        Solution::Ambiguous => {
            let (x, y) = choose|x: GridModel, y: GridModel| s.spec_solutions().contains(x) && s.spec_solutions().contains(y)
                && x != y;
        },
        Solution::Unique(_) => {},
    }
}

/// The grid with the digit at `(column, row)` taken away.
pub open spec fn cleared(g: GridModel, column: int, row: int) -> GridModel {
    GridModel { cells: g.cells.update(g.index(column, row), None), ..g }
}

/// The digit at `(column, row)`, if there is one, cannot be taken away without losing a
/// unique completion.
pub open spec fn digit_needed<C: Constraint>(c: &C, g: GridModel, column: int, row: int) -> bool {
    g.in_bounds(column, row) && g.cell(column, row) is Some ==> !(exists|h: GridModel| solutions(c, cleared(g, column, row))
        == set![h])
}

proof fn lemma_cleared_subset(g: GridModel, column: int, row: int)
    requires
        g.wf(),
        g.in_bounds(column, row),
    ensures
        cleared(g, column, row).wf(),
        cleared(g, column, row).same_dimensions(g),
        cleared(g, column, row).is_subset(g),
{
    crate::grid::lemma_index_in_bounds(column, row, g.size() as int);
    let c = cleared(g, column, row);
    assert forall|i: int| 0 <= i < c.cells.len() implies (#[trigger] c.cells[i] matches Some(n) ==> 1 <= n <= c.size()) by {
        if i != g.index(column, row) {
            assert(c.cells[i] == g.cells[i]);
        }
    }
    assert forall|i: int| 0 <= i < c.cells.len() implies (#[trigger] c.cells[i] matches Some(n) ==> g.cells[i] == Some(n)) by {
        if i != g.index(column, row) {
            assert(c.cells[i] == g.cells[i]);
        }
    }
}

proof fn lemma_subset_trans(a: GridModel, b: GridModel, c: GridModel)
    requires
        a.is_subset(b),
        b.is_subset(c),
        a.same_dimensions(b),
        b.same_dimensions(c),
        a.wf(),
        b.wf(),
        c.wf(),
    ensures
        a.is_subset(c),
        a.same_dimensions(c),
{
    assert forall|i: int| 0 <= i < a.cells.len() implies (#[trigger] a.cells[i] matches Some(n) ==> c.cells[i] == Some(n)) by {
        if let Some(n) = a.cells[i] {
            assert(b.cells[i] == Some(n));
        }
    }
}

proof fn lemma_relaxes_trans<C: Constraint>(a: &C, b: &C, c: &C)
    requires
        relaxes(a, b),
        relaxes(b, c),
    ensures
        relaxes(a, c),
{
    assert forall|g: GridModel, x: int, w: int, n: int| #[trigger] c.allows(g, x, w, n) implies a.allows(g, x, w, n) by {
        assert(b.allows(g, x, w, n));
    }
}

/// A grid that a rule accepts, a relaxed rule accepts too.
proof fn lemma_valid_relaxed<C: Constraint>(b: &C, a: &C, s: GridModel)
    requires
        relaxes(b, a),
        valid_grid(a, s),
    ensures
        valid_grid(b, s),
{
    assert forall|column: int, row: int| s.in_bounds(column, row) implies (match #[trigger] s.cell(column, row) {
        Some(n) => b.allows(s, column, row, n as int),
        None => true,
    }) by {
        if let Some(n) = s.cell(column, row) {
            assert(a.allows(s, column, row, n as int));
        }
    }
}

/// A completion under a rule stays a completion under a relaxed rule.
proof fn lemma_relaxed_keeps<C: Constraint>(b: &C, a: &C, g: GridModel, s: GridModel)
    requires
        relaxes(b, a),
        solutions(a, g).contains(s),
    ensures
        solutions(b, g).contains(s),
{
    lemma_valid_relaxed(b, a, s);
}

/// A completion of a grid is a completion of every grid with fewer digits.
proof fn lemma_fewer_keeps<C: Constraint>(c: &C, more: GridModel, fewer: GridModel, s: GridModel)
    requires
        more.wf(),
        fewer.wf(),
        fewer.is_subset(more),
        fewer.same_dimensions(more),
        solutions(c, more).contains(s),
    ensures
        solutions(c, fewer).contains(s),
{
    lemma_subset_trans(fewer, more, s);
}

/// After a step that removes digits and relaxes the rule, a needed digit is still needed.
proof fn lemma_needed_persists<C: Constraint>(
    ca: &C,
    ga: GridModel,
    cb: &C,
    gb: GridModel,
    column: int,
    row: int,
    s: GridModel,
)
    requires
        ga.wf(),
        gb.wf(),
        gb.same_dimensions(ga),
        gb.is_subset(ga),
        relaxes(cb, ca),
        solutions(ca, ga).contains(s),
        digit_needed(ca, ga, column, row),
    ensures
        digit_needed(cb, gb, column, row),
{
    if gb.in_bounds(column, row) && gb.cell(column, row) is Some {
        crate::grid::lemma_index_in_bounds(column, row, gb.size() as int);
        let pos = gb.index(column, row);
        assert(ga.cells[pos] is Some);
        let cla = cleared(ga, column, row);
        let clb = cleared(gb, column, row);
        lemma_cleared_subset(ga, column, row);
        lemma_cleared_subset(gb, column, row);
        assert(clb.is_subset(cla)) by {
            assert forall|i: int| 0 <= i < clb.cells.len() implies (#[trigger] clb.cells[i] matches Some(n) ==> cla.cells[i] == Some(n)) by {
                if i != pos {
                    assert(clb.cells[i] == gb.cells[i]);
                    assert(cla.cells[i] == ga.cells[i]);
                }
            }
        }
        lemma_fewer_keeps(ca, ga, cla, s);
        let sa = solutions(ca, cla);
        let t = choose|t: GridModel| sa.contains(t) && t != s;
        assert(exists|t: GridModel| sa.contains(t) && t != s) by {
            if !(exists|t: GridModel| sa.contains(t) && t != s) {
                assert(sa =~= set![s]);
            }
        }
        lemma_fewer_keeps(ca, cla, clb, s);
        lemma_fewer_keeps(ca, cla, clb, t);
        lemma_relaxed_keeps(cb, ca, clb, s);
        lemma_relaxed_keeps(cb, ca, clb, t);
        let sb = solutions(cb, clb);
        if exists|h: GridModel| sb == set![h] {
            let h = choose|h: GridModel| sb == set![h];
            assert(set![h].contains(s) && set![h].contains(t));
        }
    }
}

/// After a digit removal that was tried at `(column, row)`, the digit there, if any, is needed.
proof fn lemma_needed_after_apply<C: Constraint>(before: &Sudoku<C>, after: &Sudoku<C>, column: int, row: int)
    requires
        before.wf(),
        after.spec_constraint() == before.spec_constraint(),
        ({
            let g0 = before.spec_grid()@;
            let c = before.spec_constraint();
            if g0.in_bounds(column, row) && g0.cell(column, row) is Some && exists|g: GridModel| solutions(
                &c,
                cleared(g0, column, row),
            ) == set![g] {
                after.spec_grid()@ == cleared(g0, column, row)
            } else {
                after.spec_grid()@ == g0
            }
        }),
    ensures
        digit_needed(&after.spec_constraint(), after.spec_grid()@, column, row),
{
    let g0 = before.spec_grid()@;
    if g0.in_bounds(column, row) {
        crate::grid::lemma_index_in_bounds(column, row, g0.size() as int);
    }
}

/// A step of `apply` keeps the facts the reduction loops carry.
proof fn lemma_step<C: Constraint>(before: &Sudoku<C>, after: &Sudoku<C>, s: GridModel)
    requires
        before.wf(),
        after.wf(),
        after.spec_solutions() == set![s],
        before.spec_solutions() == set![s],
    ensures
        before.spec_solutions().contains(s),
        after.spec_solutions().contains(s),
{
}

/// Takes digits away from a solved sudoku and relaxes its rule, keeping one solution.
pub struct Reducer<S: Solver> {
    solver: S,
    rng: StdRng,
}

impl<S: Solver> Reducer<S> {
    pub fn new(solver: S, rng: StdRng) -> (r: Reducer<S>) {
        Reducer { solver, rng }
    }

    /// The random source, for callers that order reductions themselves.
    pub fn rng_mut(&mut self) -> (r: &mut StdRng) {
        &mut self.rng
    }

    /// Every candidate reduction: one digit removal per cell, column by column, then
    /// every relaxation the rule offers for the current grid.
    pub fn reductions<C: Constraint>(sudoku: &Sudoku<C>) -> (r: Vec<Reduction<C::Reduction>>)
        requires
            sudoku.wf(),
        ensures
            r@.len() == sudoku.spec_grid()@.size() * sudoku.spec_grid()@.size()
                + sudoku.spec_constraint().spec_reductions(sudoku.spec_grid()@).len(),
            forall|i: int| 0 <= i < sudoku.spec_grid()@.size() * sudoku.spec_grid()@.size() ==> (
            #[trigger] r@[i] matches Reduction::RemoveDigit { column, row } && column == i
                / sudoku.spec_grid()@.size() as int && row == i % sudoku.spec_grid()@.size() as int),
            r@.subrange((sudoku.spec_grid()@.size() * sudoku.spec_grid()@.size()) as int, r@.len() as int)
                == sudoku.spec_constraint().spec_reductions(sudoku.spec_grid()@).map_values(
                |x: C::Reduction| Reduction::ReduceConstraint { reduction: x },
            ),
    {
        let size = sudoku.grid().size();
        proof {
            sudoku.spec_grid().lemma_size_bound();
        }
        let mut result: Vec<Reduction<C::Reduction>> = Vec::new();
        let mut column: usize = 0;
        while column < size
            invariant
                size == sudoku.spec_grid()@.size(),
                size * size <= usize::MAX,
                column <= size,
                result@.len() == column * size,
                forall|i: int| 0 <= i < column * size ==> (#[trigger] result@[i] matches Reduction::RemoveDigit {
                    column,
                    row,
                } && column == i / size as int && row == i % size as int),
            decreases size - column,
        {
            let mut row: usize = 0;
            while row < size
                invariant
                    size == sudoku.spec_grid()@.size(),
                    size * size <= usize::MAX,
                    column < size,
                    row <= size,
                    result@.len() == column * size + row,
                    forall|i: int| 0 <= i < column * size + row ==> (#[trigger] result@[i] matches Reduction::RemoveDigit {
                        column,
                        row,
                    } && column == i / size as int && row == i % size as int),
                decreases size - row,
            {
                proof {
                    vstd::arithmetic::div_mod::lemma_fundamental_div_mod_converse(
                        column * size + row, size as int, column as int, row as int);
                    assert(column * size + row < size * size) by (nonlinear_arith)
                        requires
                            column < size,
                            row < size,
                    ;
                }
                result.push(Reduction::RemoveDigit { column, row });
                row = row + 1;
            }
            proof {
                assert((column + 1) * size == column * size + size) by (nonlinear_arith);
            }
            column = column + 1;
        }
        let mut rest = sudoku.constraint().list_reductions(sudoku.grid());
        let ghost prefix = result@;
        let ghost all = rest@;
        while rest.len() > 0
            invariant
                result@.len() >= prefix.len(),
                all.len() == (result@.len() - prefix.len()) + rest@.len(),
                rest@ == all.subrange(result@.len() - prefix.len(), all.len() as int),
                result@ == prefix + all.subrange(0, result@.len() - prefix.len()).map_values(
                    |x: C::Reduction| Reduction::ReduceConstraint { reduction: x },
                ),
            decreases rest@.len(),
        {
            let ghost k = result@.len() - prefix.len();
            let x = rest.remove(0);
            result.push(Reduction::ReduceConstraint { reduction: x });
            proof {
                assert(rest@ =~= all.subrange(k + 1, all.len() as int));
                assert(result@ =~= prefix + all.subrange(0, k + 1).map_values(
                    |x: C::Reduction| Reduction::ReduceConstraint { reduction: x },
                ));
            }
        }
        proof {
            assert(all.subrange(0, all.len() as int) =~= all);
            assert(result@.subrange(prefix.len() as int, result@.len() as int) =~= all.map_values(
                |x: C::Reduction| Reduction::ReduceConstraint { reduction: x },
            ));
            assert forall|i: int| 0 <= i < size * size implies #[trigger] result@[i] == prefix[i] by {}
        }
        result
    }

    /// Tries one reduction and keeps it only if the sudoku then still has exactly one
    /// completion, `completion`.
    fn apply<C: Constraint>(
        &self,
        sudoku: &mut Sudoku<C>,
        solution: &SudokuGrid,
        reduction: &Reduction<C::Reduction>,
        completion: Ghost<GridModel>,
    )
        requires
            old(sudoku).wf(),
            solution.wf(),
            old(sudoku).spec_solutions() == set![completion@],
        ensures
            final(sudoku).wf(),
            final(sudoku).spec_solutions() == set![completion@],
            final(sudoku).spec_grid()@.same_dimensions(old(sudoku).spec_grid()@),
            final(sudoku).spec_grid()@.is_subset(old(sudoku).spec_grid()@),
            relaxes(&final(sudoku).spec_constraint(), &old(sudoku).spec_constraint()),
            match *reduction {
                Reduction::RemoveDigit { column, row } => {
                    let g0 = old(sudoku).spec_grid()@;
                    let c = old(sudoku).spec_constraint();
                    &&& final(sudoku).spec_constraint() == c
                    &&& if g0.in_bounds(column as int, row as int) && g0.cell(column as int, row as int) is Some
                        && exists|g: GridModel| solutions(&c, cleared(g0, column as int, row as int)) == set![g] {
                        final(sudoku).spec_grid()@ == cleared(g0, column as int, row as int)
                    } else {
                        final(sudoku).spec_grid()@ == g0
                    }
                },
                Reduction::ReduceConstraint { reduction: r } => {
                    &&& final(sudoku).spec_grid()@ == old(sudoku).spec_grid()@
                    &&& same_behaviour(&final(sudoku).spec_constraint(), &old(sudoku).spec_constraint())
                        || exists|info: C::RevertInfo| final(sudoku).spec_constraint().undoes(
                        solution@,
                        r,
                        info,
                        old(sudoku).spec_constraint(),
                    )
                },
            },
    {
        let ghost s0 = completion@;
        match reduction {
            Reduction::RemoveDigit { column, row } => {
                let cell = sudoku.grid().get_cell(*column, *row);
                if let Ok(Some(number)) = cell {
                    let ghost g0 = sudoku.spec_grid()@;
                    let ghost c = sudoku.spec_constraint();
                    proof {
                        crate::grid::lemma_index_in_bounds(*column as int, *row as int, g0.size() as int);
                        assert(g0.cells[g0.index(*column as int, *row as int)] == Some(number));
                        assert(1 <= number <= g0.size());
                    }
                    let _ = sudoku.grid_mut().clear_cell(*column, *row);
                    proof {
                        assert(sudoku.spec_grid()@ == cleared(g0, *column as int, *row as int));
                        lemma_cleared_subset(g0, *column as int, *row as int);
                        lemma_fewer_keeps(&c, g0, sudoku.spec_grid()@, s0);
                    }
                    let outcome = self.solver.solve(sudoku);
                    if let Solution::Unique(_) = outcome {
                    } else {
                        proof {
                            if exists|g: GridModel| sudoku.spec_solutions() == set![g] {
                                law_unique_solution_solves_unique(sudoku, outcome);
                            }
                        }
                        let _ = sudoku.grid_mut().set_cell(*column, *row, number);
                        proof {
                            assert(sudoku.spec_grid()@.cells =~= g0.cells);
                            assert(sudoku.spec_grid()@ == g0);
                        }
                    }
                } else {
                    proof {
                        let g0 = sudoku.spec_grid()@;
                        if g0.in_bounds(*column as int, *row as int) {
                            crate::grid::lemma_index_in_bounds(*column as int, *row as int, g0.size() as int);
                        }
                    }
                }
            },
            Reduction::ReduceConstraint { reduction: r } => {
                let ghost c0 = sudoku.spec_constraint();
                let ghost g0 = sudoku.spec_grid()@;
                let reduce_res = sudoku.constraint_mut().reduce(solution, r);
                if let Ok(revert_info) = reduce_res {
                    let ghost c1 = sudoku.spec_constraint();
                    proof {
                        lemma_relaxed_keeps(&c1, &c0, g0, s0);
                    }
                    let outcome = self.solver.solve(sudoku);
                    if let Solution::Unique(_) = outcome {
                    } else {
                        sudoku.constraint_mut().revert(solution, r, revert_info);
                        proof {
                            assert(c1.undoes(solution@, *r, revert_info, c0));
                            lemma_same_behaviour_solutions(&sudoku.spec_constraint(), &c0, g0);
                        }
                    }
                }
            },
        }
    }

    /// Applies the reductions one after another in the given order, each kept only if the
    /// sudoku then still has exactly one completion. That completion never changes, the rule
    /// only relaxes, and every digit removal that was left undone is needed at the end.
    pub fn reduce_in_order<C: Constraint>(&self, sudoku: &mut Sudoku<C>, reductions: &Vec<Reduction<C::Reduction>>)
        requires
            old(sudoku).wf(),
            has_unique_solution(old(sudoku)),
        ensures
            final(sudoku).wf(),
            final(sudoku).spec_solutions() == old(sudoku).spec_solutions(),
            final(sudoku).spec_grid()@.same_dimensions(old(sudoku).spec_grid()@),
            final(sudoku).spec_grid()@.is_subset(old(sudoku).spec_grid()@),
            relaxes(&final(sudoku).spec_constraint(), &old(sudoku).spec_constraint()),
            forall|j: int| 0 <= j < reductions@.len() ==> (#[trigger] reductions@[j] matches Reduction::RemoveDigit {
                column,
                row,
            } ==> digit_needed(&final(sudoku).spec_constraint(), final(sudoku).spec_grid()@, column as int, row as int)),
    {
        let ghost s0 = choose|g: GridModel| sudoku.spec_solutions() == set![g];
        let solution = sudoku.grid().clone();
        let mut i: usize = 0;
        while i < reductions.len()
            invariant
                sudoku.wf(),
                solution.wf(),
                sudoku.spec_solutions() == set![s0],
                old(sudoku).spec_solutions() == set![s0],
                old(sudoku).wf(),
                i <= reductions@.len(),
                sudoku.spec_grid()@.same_dimensions(old(sudoku).spec_grid()@),
                sudoku.spec_grid()@.is_subset(old(sudoku).spec_grid()@),
                relaxes(&sudoku.spec_constraint(), &old(sudoku).spec_constraint()),
                forall|j: int| 0 <= j < i ==> (#[trigger] reductions@[j] matches Reduction::RemoveDigit {
                    column,
                    row,
                } ==> digit_needed(&sudoku.spec_constraint(), sudoku.spec_grid()@, column as int, row as int)),
            decreases reductions@.len() - i,
        {
            let ghost before = *sudoku;
            self.apply(sudoku, &solution, &reductions[i], Ghost(s0));
            proof {
                lemma_step(&before, sudoku, s0);
                lemma_relaxes_trans(&sudoku.spec_constraint(), &before.spec_constraint(), &old(sudoku).spec_constraint());
                lemma_subset_trans(sudoku.spec_grid()@, before.spec_grid()@, old(sudoku).spec_grid()@);
                assert forall|j: int| 0 <= j < i + 1 implies (#[trigger] reductions@[j] matches Reduction::RemoveDigit {
                    column,
                    row,
                } ==> digit_needed(&sudoku.spec_constraint(), sudoku.spec_grid()@, column as int, row as int)) by {
                    if let Reduction::RemoveDigit { column, row } = reductions@[j] {
                        if j == i {
                            lemma_needed_after_apply(&before, sudoku, column as int, row as int);
                        }
                        if j < i {
                            lemma_needed_persists(&before.spec_constraint(), before.spec_grid()@, &sudoku.spec_constraint(),
                                sudoku.spec_grid()@, column as int, row as int, s0);
                        }
                    }
                }
            }
            i = i + 1;
        }
    }

    /// Thins a solved sudoku, trying all its candidate reductions once each in a uniformly
    /// random order. The input grid stays the only completion, and every digit left is needed.
    pub fn reduce<C: Constraint>(&mut self, sudoku: &mut Sudoku<C>)
        requires
            old(sudoku).wf(),
            old(sudoku).spec_grid()@.is_full(),
            valid_grid(&old(sudoku).spec_constraint(), old(sudoku).spec_grid()@),
        ensures
            final(sudoku).wf(),
            final(sudoku).spec_solutions() == set![old(sudoku).spec_grid()@],
            final(sudoku).spec_grid()@.same_dimensions(old(sudoku).spec_grid()@),
            final(sudoku).spec_grid()@.is_subset(old(sudoku).spec_grid()@),
            relaxes(&final(sudoku).spec_constraint(), &old(sudoku).spec_constraint()),
            forall|column: int, row: int| #![trigger final(sudoku).spec_grid()@.cell(column, row)]
                final(sudoku).spec_grid()@.in_bounds(column, row) ==> digit_needed(
                &final(sudoku).spec_constraint(),
                final(sudoku).spec_grid()@,
                column,
                row,
            ),
    {
        let ghost s0 = sudoku.spec_grid()@;
        proof {
            crate::solver::lemma_full_solutions(&sudoku.spec_constraint(), sudoku.spec_grid()@);
        }
        let reductions = Self::reductions(sudoku);
        let ghost size = s0.size() as int;
        let order = shuffle(&mut self.rng, 0, reductions.len());
        let solution = sudoku.grid().clone();
        let mut k: usize = 0;
        while k < order.len()
            invariant
                sudoku.wf(),
                solution.wf(),
                sudoku.spec_solutions() == set![s0],
                old(sudoku).spec_grid()@ == s0,
                is_permutation_of_range(order@, 0, reductions@.len() as int),
                k <= order@.len(),
                sudoku.spec_grid()@.same_dimensions(s0),
                sudoku.spec_grid()@.is_subset(s0),
                relaxes(&sudoku.spec_constraint(), &old(sudoku).spec_constraint()),
                forall|p: int| 0 <= p < k ==> (#[trigger] reductions@[order@[p] as int] matches Reduction::RemoveDigit {
                    column,
                    row,
                } ==> digit_needed(&sudoku.spec_constraint(), sudoku.spec_grid()@, column as int, row as int)),
            decreases order@.len() - k,
        {
            let ghost before = *sudoku;
            self.apply(sudoku, &solution, &reductions[order[k]], Ghost(s0));
            proof {
                lemma_step(&before, sudoku, s0);
                lemma_relaxes_trans(&sudoku.spec_constraint(), &before.spec_constraint(), &old(sudoku).spec_constraint());
                lemma_subset_trans(sudoku.spec_grid()@, before.spec_grid()@, s0);
                assert forall|p: int| 0 <= p < k + 1 implies (#[trigger] reductions@[order@[p] as int] matches Reduction::RemoveDigit {
                    column,
                    row,
                } ==> digit_needed(&sudoku.spec_constraint(), sudoku.spec_grid()@, column as int, row as int)) by {
                    if let Reduction::RemoveDigit { column, row } = reductions@[order@[p] as int] {
                        if p == k {
                            lemma_needed_after_apply(&before, sudoku, column as int, row as int);
                        }
                        if p < k {
                            lemma_needed_persists(&before.spec_constraint(), before.spec_grid()@, &sudoku.spec_constraint(),
                                sudoku.spec_grid()@, column as int, row as int, s0);
                        }
                    }
                }
            }
            k = k + 1;
        }
        proof {
            let g = sudoku.spec_grid()@;
            assert forall|column: int, row: int| #![trigger g.cell(column, row)] g.in_bounds(column, row) implies digit_needed(
                &sudoku.spec_constraint(),
                g,
                column,
                row,
            ) by {
                let idx = column * size + row;
                assert(g.size() == size);
                assert(0 <= column * size + row < size * size) by (nonlinear_arith)
                    requires
                        0 <= column < size,
                        0 <= row < size,
                ;
                vstd::arithmetic::div_mod::lemma_fundamental_div_mod_converse(idx, size, column, row);
                assert(occurs(order@, idx));
                let p = choose|p: int| 0 <= p < order@.len() && order@[p] == idx;
                assert(reductions@[order@[p] as int] matches Reduction::RemoveDigit { column: c, row: r } && c == column && r
                    == row);
            }
        }
    }
}

} // verus!
