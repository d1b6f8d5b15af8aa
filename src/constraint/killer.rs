use vstd::prelude::*;

use crate::constraint::{Constraint, Group, ReductionError, RuleKind};
use crate::grid::{GridModel, SudokuGrid};

verus! {

#[derive(Debug, PartialEq, Eq, Structural, Clone, Copy)]
pub enum KillerError {
    EmptyCage,
    DuplicateCell,
    OverlappingCages,
}

/// A set of cells whose digits must differ and add up to `sum`.
#[derive(Debug)]
pub struct KillerCage {
    cells: Vec<(usize, usize)>,
    sum: usize,
}

/// Cell `p` is `(c, r)`.
pub open spec fn is_at(p: (usize, usize), c: int, r: int) -> bool {
    p.0 == c && p.1 == r
}

/// The content of cell `p`, or nothing if it lies outside the grid.
pub open spec fn cell_at(g: GridModel, p: (usize, usize)) -> Option<usize> {
    if g.in_bounds(p.0 as int, p.1 as int) {
        g.cell(p.0 as int, p.1 as int)
    } else {
        None
    }
}

/// The sum of the digits in the first `k` cells, leaving out `(c, r)`.
pub open spec fn others_sum(g: GridModel, cells: Seq<(usize, usize)>, c: int, r: int, k: int) -> nat
    decreases k,
{
    if k <= 0 {
        0
    } else {
        others_sum(g, cells, c, r, k - 1) + if !is_at(cells[k - 1], c, r) && cell_at(g, cells[k - 1]) is Some {
            cell_at(g, cells[k - 1])->Some_0 as nat
        } else {
            0nat
        }
    }
}

/// Every cell of the cage but `(c, r)` holds a digit.
pub open spec fn others_full(g: GridModel, cells: Seq<(usize, usize)>, c: int, r: int) -> bool {
    forall|j: int| 0 <= j < cells.len() && !is_at(cells[j], c, r) ==> (#[trigger] cell_at(g, cells[j])) is Some
}

/// If `(c, r)` lies in the cage: no other cell holds `n`, the digits with `n` do not exceed
/// the sum, and they reach it exactly once every other cell holds a digit.
pub open spec fn cage_allows(g: GridModel, cells: Seq<(usize, usize)>, sum: nat, c: int, r: int, n: int) -> bool {
    (exists|j: int| 0 <= j < cells.len() && is_at(#[trigger] cells[j], c, r)) ==> {
        &&& forall|j: int| 0 <= j < cells.len() && !is_at(cells[j], c, r) ==> #[trigger] cell_at(g, cells[j]) != Some(n as usize)
        &&& others_sum(g, cells, c, r, cells.len() as int) + n <= sum
        &&& others_full(g, cells, c, r) ==> others_sum(g, cells, c, r, cells.len() as int) + n == sum
    }
}

proof fn lemma_cell_at_fewer(fewer: GridModel, more: GridModel, p: (usize, usize))
    requires
        fewer.wf(),
        more.wf(),
        fewer.same_dimensions(more),
        fewer.is_subset(more),
    ensures
        cell_at(fewer, p) matches Some(m) ==> cell_at(more, p) == Some(m),
{
    if fewer.in_bounds(p.0 as int, p.1 as int) {
        crate::grid::lemma_index_in_bounds(p.0 as int, p.1 as int, fewer.size() as int);
        let i = fewer.index(p.0 as int, p.1 as int);
        assert(fewer.cells[i] matches Some(m) ==> more.cells[i] == Some(m));
    }
}

proof fn lemma_others_sum_fewer(fewer: GridModel, more: GridModel, cells: Seq<(usize, usize)>, c: int, r: int, k: int)
    requires
        fewer.wf(),
        more.wf(),
        fewer.same_dimensions(more),
        fewer.is_subset(more),
        0 <= k <= cells.len(),
    ensures
        others_sum(fewer, cells, c, r, k) <= others_sum(more, cells, c, r, k),
        (forall|j: int| 0 <= j < k && !is_at(cells[j], c, r) ==> (#[trigger] cell_at(fewer, cells[j])) is Some)
            ==> others_sum(fewer, cells, c, r, k) == others_sum(more, cells, c, r, k),
    decreases k,
{
    if k > 0 {
        lemma_others_sum_fewer(fewer, more, cells, c, r, k - 1);
        lemma_cell_at_fewer(fewer, more, cells[k - 1]);
    }
}

impl KillerCage {
    pub closed spec fn spec_cells(&self) -> Seq<(usize, usize)> {
        self.cells@
    }

    pub closed spec fn spec_sum(&self) -> nat {
        self.sum as nat
    }

    /// A cage of the given cells; it must hold at least one cell and no cell twice.
    pub fn new(cells: Vec<(usize, usize)>, sum: usize) -> (r: Result<KillerCage, KillerError>)
        ensures
            r is Ok <==> cells@.len() > 0 && (forall|i: int, j: int| 0 <= i < j < cells@.len() ==> cells@[i] != cells@[j]),
            r matches Err(e) ==> (e == KillerError::EmptyCage <==> cells@.len() == 0),
            r matches Err(e) ==> e != KillerError::OverlappingCages,
            r matches Ok(k) ==> k.spec_cells() == cells@ && k.spec_sum() == sum,
    {
        if cells.len() == 0 {
            return Err(KillerError::EmptyCage);
        }
        let mut j: usize = 0;
        while j < cells.len()
            invariant
                j <= cells@.len(),
                forall|a: int, b: int| 0 <= a < b < j ==> cells@[a] != cells@[b],
            decreases cells@.len() - j,
        {
            let mut i: usize = 0;
            while i < j
                invariant
                    i <= j < cells@.len(),
                    forall|a: int, b: int| 0 <= a < b < j ==> cells@[a] != cells@[b],
                    forall|a: int| 0 <= a < i ==> cells@[a] != cells@[j as int],
                decreases j - i,
            {
                if cells[i].0 == cells[j].0 && cells[i].1 == cells[j].1 {
                    return Err(KillerError::DuplicateCell);
                }
                i = i + 1;
            }
            j = j + 1;
        }
        Ok(KillerCage { cells, sum })
    }

    pub fn cells(&self) -> (r: &Vec<(usize, usize)>)
        ensures
            r@ == self.spec_cells(),
    {
        &self.cells
    }

    pub fn sum(&self) -> (r: usize)
        ensures
            r == self.spec_sum(),
    {
        self.sum
    }

    /// Whether the cage holds the cell `(column, row)`.
    pub fn contains(&self, column: usize, row: usize) -> (r: bool)
        ensures
            r == exists|j: int| 0 <= j < self.spec_cells().len() && is_at(#[trigger] self.spec_cells()[j], column as int, row as int),
    {
        let mut j: usize = 0;
        while j < self.cells.len()
            invariant
                j <= self.cells@.len(),
                forall|a: int| 0 <= a < j ==> !is_at(#[trigger] self.cells@[a], column as int, row as int),
            decreases self.cells@.len() - j,
        {
            if self.cells[j].0 == column && self.cells[j].1 == row {
                assert(is_at(self.spec_cells()[j as int], column as int, row as int));
                return true;
            }
            j = j + 1;
        }
        false
    }

    /// Checks `cage_allows` for this cage.
    fn allows_number(&self, grid: &SudokuGrid, column: usize, row: usize, number: usize) -> (r: bool)
        requires
            grid.wf(),
        ensures
            r == cage_allows(grid@, self.spec_cells(), self.spec_sum(), column as int, row as int, number as int),
    {
        if !self.contains(column, row) {
            return true;
        }
        let cells = &self.cells;
        let ghost g = grid@;
        if number > self.sum {
            proof {
                assert(others_sum(g, cells@, column as int, row as int, cells@.len() as int) + number > self.sum);
            }
            return false;
        }
        let mut total = number;
        let mut full = true;
        let mut j: usize = 0;
        while j < cells.len()
            invariant
                grid.wf(),
                g == grid@,
                *cells == self.cells,
                j <= cells@.len(),
                total == others_sum(g, cells@, column as int, row as int, j as int) + number,
                total <= self.sum,
                exists|a: int| 0 <= a < cells@.len() && is_at(#[trigger] cells@[a], column as int, row as int),
                forall|a: int| 0 <= a < j && !is_at(cells@[a], column as int, row as int) ==> #[trigger] cell_at(g, cells@[a]) != Some(number),
                full == forall|a: int| 0 <= a < j && !is_at(cells@[a], column as int, row as int) ==> (#[trigger] cell_at(g, cells@[a])) is Some,
            decreases cells@.len() - j,
        {
            let (x, y) = cells[j];
            if x != column || y != row {
                match grid.get_cell(x, y) {
                    Ok(Some(m)) => {
                        proof {
                            assert(cell_at(g, cells@[j as int]) == Some(m));
                            assert(!is_at(cells@[j as int], column as int, row as int));
                            assert(others_sum(g, cells@, column as int, row as int, j + 1) == others_sum(
                                g,
                                cells@,
                                column as int,
                                row as int,
                                j as int,
                            ) + m);
                        }
                        if m == number {
                            return false;
                        }
                        if m > self.sum - total {
                            proof {
                                lemma_others_sum_grows(g, cells@, column as int, row as int, j + 1, cells@.len() as int);
                            }
                            return false;
                        }
                        total = total + m;
                    },
                    _ => {
                        full = false;
                    },
                }
            }
            j = j + 1;
        }
        if full && total != self.sum {
            return false;
        }
        true
    }
}

proof fn lemma_others_sum_grows(g: GridModel, cells: Seq<(usize, usize)>, c: int, r: int, k: int, m: int)
    requires
        0 <= k <= m,
    ensures
        others_sum(g, cells, c, r, k) <= others_sum(g, cells, c, r, m),
    decreases m - k,
{
    if m > k {
        lemma_others_sum_grows(g, cells, c, r, k, m - 1);
    }
}

/// Killer cages: each cage's digits differ and add up to its sum. Cages may be removed.
#[derive(Debug)]
pub struct KillerConstraint {
    cages: Vec<KillerCage>,
}

impl KillerConstraint {
    pub closed spec fn spec_cages(&self) -> Seq<KillerCage> {
        self.cages@
    }

    pub fn new() -> (r: KillerConstraint)
        ensures
            r.spec_cages() == Seq::<KillerCage>::empty(),
    {
        KillerConstraint { cages: Vec::new() }
    }

    pub fn cages(&self) -> (r: &Vec<KillerCage>)
        ensures
            r@ == self.spec_cages(),
    {
        &self.cages
    }

    /// Adds a cage that shares no cell with the cages already there.
    pub fn add_cage(&mut self, cage: KillerCage) -> (r: Result<(), KillerError>)
        ensures
            r is Ok <==> forall|i: int, j: int| 0 <= i < old(self).spec_cages().len() && 0 <= j < cage.spec_cells().len()
                ==> !(#[trigger] old(self).spec_cages()[i].spec_cells()).contains(#[trigger] cage.spec_cells()[j]),
            r matches Err(e) ==> e == KillerError::OverlappingCages && final(self).spec_cages() == old(self).spec_cages(),
            r is Ok ==> final(self).spec_cages() == old(self).spec_cages().push(cage),
    {
        let mut i: usize = 0;
        while i < self.cages.len()
            invariant
                i <= self.cages@.len(),
                self.cages == old(self).cages,
                forall|a: int, j: int| 0 <= a < i && 0 <= j < cage.spec_cells().len()
                    ==> !(#[trigger] self.cages@[a].spec_cells()).contains(#[trigger] cage.spec_cells()[j]),
            decreases self.cages@.len() - i,
        {
            let mut j: usize = 0;
            while j < cage.cells.len()
                invariant
                    i < self.cages@.len(),
                    j <= cage.cells@.len(),
                    self.cages == old(self).cages,
                    forall|a: int, b: int| 0 <= a < i && 0 <= b < cage.spec_cells().len()
                        ==> !(#[trigger] self.cages@[a].spec_cells()).contains(#[trigger] cage.spec_cells()[b]),
                    forall|b: int| 0 <= b < j ==> !self.cages@[i as int].spec_cells().contains(#[trigger] cage.spec_cells()[b]),
                decreases cage.cells@.len() - j,
            {
                let (x, y) = cage.cells[j];
                if self.cages[i].contains(x, y) {
                    proof {
                        let k = choose|k: int| 0 <= k < self.cages@[i as int].spec_cells().len()
                            && is_at(self.cages@[i as int].spec_cells()[k], x as int, y as int);
                        assert(self.cages@[i as int].spec_cells()[k] == cage.spec_cells()[j as int]);
                        assert(self.cages@[i as int].spec_cells().contains(cage.spec_cells()[j as int]));
                        assert(old(self).spec_cages()[i as int].spec_cells().contains(cage.spec_cells()[j as int]));
                    }
                    return Err(KillerError::OverlappingCages);
                }
                proof {
                    if self.cages@[i as int].spec_cells().contains(cage.spec_cells()[j as int]) {
                        let k = choose|k: int| 0 <= k < self.cages@[i as int].spec_cells().len()
                            && self.cages@[i as int].spec_cells()[k] == cage.spec_cells()[j as int];
                        assert(is_at(self.cages@[i as int].spec_cells()[k], x as int, y as int));
                    }
                }
                j = j + 1;
            }
            i = i + 1;
        }
        self.cages.push(cage);
        Ok(())
    }
}

impl Constraint for KillerConstraint {
    type Reduction = usize;
    type RevertInfo = KillerCage;

    open spec fn allows(&self, grid: GridModel, column: int, row: int, number: int) -> bool {
        forall|i: int| 0 <= i < self.spec_cages().len() ==> cage_allows(
            grid,
            #[trigger] self.spec_cages()[i].spec_cells(),
            self.spec_cages()[i].spec_sum(),
            column,
            row,
            number,
        )
    }

    proof fn lemma_allows_fewer(&self, fewer: GridModel, more: GridModel, column: int, row: int, number: int) {
        assert forall|i: int| 0 <= i < self.spec_cages().len() implies cage_allows(
            fewer,
            #[trigger] self.spec_cages()[i].spec_cells(),
            self.spec_cages()[i].spec_sum(),
            column,
            row,
            number,
        ) by {
            let cells = self.spec_cages()[i].spec_cells();
            let sum = self.spec_cages()[i].spec_sum();
            assert(cage_allows(more, cells, sum, column, row, number));
            if exists|j: int| 0 <= j < cells.len() && is_at(#[trigger] cells[j], column, row) {
                lemma_others_sum_fewer(fewer, more, cells, column, row, cells.len() as int);
                assert forall|j: int| 0 <= j < cells.len() && !is_at(cells[j], column, row) implies #[trigger] cell_at(
                    fewer,
                    cells[j],
                ) != Some(number as usize) by {
                    lemma_cell_at_fewer(fewer, more, cells[j]);
                }
                if others_full(fewer, cells, column, row) {
                    assert forall|j: int| 0 <= j < cells.len() && !is_at(cells[j], column, row) implies (#[trigger] cell_at(
                        more,
                        cells[j],
                    )) is Some by {
                        lemma_cell_at_fewer(fewer, more, cells[j]);
                    }
                }
            }
        }
    }

    open spec fn undoes(&self, solution: GridModel, reduction: usize, info: KillerCage, earlier: Self) -> bool {
        reduction <= self.spec_cages().len() && earlier.spec_cages() == self.spec_cages().insert(reduction as int, info)
    }

    open spec fn spec_has_rule(&self, kind: RuleKind) -> bool {
        kind == RuleKind::Killer
    }

    fn has_rule(&self, kind: RuleKind) -> (r: bool) {
        kind == RuleKind::Killer
    }

    /// Each cage's cells that lie within the grid, cage by cage.
    open spec fn spec_groups(&self, grid: GridModel) -> Seq<Seq<(usize, usize)>> {
        Seq::new(self.spec_cages().len(), |i: int| self.spec_cages()[i].spec_cells().filter(
            |p: (usize, usize)| p.0 < grid.size() && p.1 < grid.size(),
        ))
    }

    /// Every cage may be removed: that only widens what the rule allows.
    open spec fn spec_reductions(&self, solution: GridModel) -> Seq<usize> {
        Seq::new(self.spec_cages().len(), |i: int| i as usize)
    }

    fn check_number(&self, grid: &SudokuGrid, column: usize, row: usize, number: usize) -> (r: bool) {
        let mut i: usize = 0;
        while i < self.cages.len()
            invariant
                grid.wf(),
                i <= self.cages@.len(),
                forall|a: int| 0 <= a < i ==> cage_allows(
                    grid@,
                    #[trigger] self.cages@[a].spec_cells(),
                    self.cages@[a].spec_sum(),
                    column as int,
                    row as int,
                    number as int,
                ),
            decreases self.cages@.len() - i,
        {
            if !self.cages[i].allows_number(grid, column, row, number) {
                assert(self.spec_cages()[i as int] == self.cages@[i as int]);
                return false;
            }
            i = i + 1;
        }
        true
    }

    fn get_groups(&self, grid: &SudokuGrid) -> (r: Vec<Group>) {
        let size = grid.size();
        let mut groups: Vec<Group> = Vec::new();
        let mut i: usize = 0;
        while i < self.cages.len()
            invariant
                size == grid@.size(),
                i <= self.cages@.len(),
                crate::constraint::groups_in_bounds(groups@, size as int),
                groups@.map_values(|g: Group| g@) == self.spec_groups(grid@).subrange(0, i as int),
                groups@.len() == i,
            decreases self.cages@.len() - i,
        {
            let cells = self.cages[i].cells();
            let ghost inside = |p: (usize, usize)| p.0 < grid@.size() && p.1 < grid@.size();
            let mut group: Group = Vec::new();
            let mut j: usize = 0;
            while j < cells.len()
                invariant
                    j <= cells@.len(),
                    size == grid@.size(),
                    inside == (|p: (usize, usize)| p.0 < grid@.size() && p.1 < grid@.size()),
                    forall|k: int| 0 <= k < group@.len() ==> group@[k].0 < size && group@[k].1 < size,
                    group@ == cells@.subrange(0, j as int).filter(inside),
                decreases cells@.len() - j,
            {
                let (x, y) = cells[j];
                proof {
                    assert(cells@.subrange(0, j + 1) =~= cells@.subrange(0, j as int).push(cells@[j as int]));
                    cells@.subrange(0, j as int).lemma_filter_push(cells@[j as int], inside);
                    assert(inside(cells@[j as int]) == (x < size && y < size));
                    assert(cells@[j as int] == (x, y));
                }
                if x < size && y < size {
                    group.push((x, y));
                }
                j = j + 1;
            }
            proof {
                assert(cells@.subrange(0, cells@.len() as int) =~= cells@);
            }
            let ghost before = groups@;
            groups.push(group);
            proof {
                assert(self.cages@[i as int].spec_cells() == cells@);
                assert(self.spec_cages()[i as int] == self.cages@[i as int]);
                assert(group@ == self.spec_groups(grid@)[i as int]);
                assert forall|a: int| 0 <= a < i + 1 implies groups@.map_values(|g: Group| g@)[a] == self.spec_groups(
                    grid@,
                )[a] by {
                    if a < i {
                        assert(groups@[a] == before[a]);
                        assert(before.map_values(|g: Group| g@)[a] == self.spec_groups(grid@).subrange(0, i as int)[a]);
                    }
                }
                assert(groups@.map_values(|g: Group| g@) =~= self.spec_groups(grid@).subrange(0, i + 1));
                assert forall|a: int, b: int| 0 <= a < groups@.len() && 0 <= b < groups@[a]@.len() implies {
                    let (x, y) = #[trigger] groups@[a]@[b];
                    x < size && y < size
                } by {
                    if a < before.len() {
                        assert(groups@[a] == before[a]);
                    }
                }
            }
            i = i + 1;
        }
        assert(self.spec_groups(grid@).subrange(0, self.cages@.len() as int) =~= self.spec_groups(grid@));
        groups
    }

    fn list_reductions(&self, solution: &SudokuGrid) -> (r: Vec<usize>) {
        let mut r: Vec<usize> = Vec::new();
        let mut i: usize = 0;
        while i < self.cages.len()
            invariant
                i <= self.cages@.len(),
                r@ == Seq::new(i as nat, |k: int| k as usize),
            decreases self.cages@.len() - i,
        {
            proof {
                assert(Seq::new((i + 1) as nat, |k: int| k as usize) =~= Seq::new(i as nat, |k: int| k as usize).push(i));
            }
            r.push(i);
            i = i + 1;
        }
        r
    }

    /// Removes the cage at index `reduction`, if there is one.
    fn reduce(&mut self, solution: &SudokuGrid, reduction: &usize) -> (r: Result<KillerCage, ReductionError>)
        ensures
            (*reduction < old(self).spec_cages().len()) <==> r is Ok,
            r is Ok ==> final(self).spec_cages() == old(self).spec_cages().remove(*reduction as int),
            r matches Ok(cage) ==> cage == old(self).spec_cages()[*reduction as int],
    {
        if *reduction < self.cages.len() {
            let ghost before = self.cages@;
            let ghost old_self = *self;
            let cage = self.cages.remove(*reduction);
            proof {
                assert(before =~= self.cages@.insert(*reduction as int, cage));
                assert forall|g: GridModel, c: int, w: int, n: int| #[trigger] old_self.allows(g, c, w, n)
                    implies self.allows(g, c, w, n) by {
                    assert forall|i: int| 0 <= i < self.spec_cages().len() implies cage_allows(
                        g,
                        #[trigger] self.spec_cages()[i].spec_cells(),
                        self.spec_cages()[i].spec_sum(),
                        c,
                        w,
                        n,
                    ) by {
                        let k = if i < *reduction { i } else { i + 1 };
                        assert(self.spec_cages()[i] == old_self.spec_cages()[k]);
                        assert(cage_allows(g, old_self.spec_cages()[k].spec_cells(), old_self.spec_cages()[k].spec_sum(), c, w, n));
                    }
                }
            }
            Ok(cage)
        } else {
            Err(ReductionError::InvalidReduction)
        }
    }

    fn revert(&mut self, solution: &SudokuGrid, reduction: &usize, revert_info: KillerCage) {
        let ghost before = *self;
        if *reduction <= self.cages.len() {
            self.cages.insert(*reduction, revert_info);
        }
        proof {
            assert forall|earlier: Self| #[trigger] before.undoes(solution@, *reduction, revert_info, earlier)
                implies forall|g: GridModel, c: int, r: int, n: int| #[trigger] self.allows(g, c, r, n)
                == earlier.allows(g, c, r, n) by {
                assert(self.spec_cages() == earlier.spec_cages());
            }
        }
    }
}

} // verus!
