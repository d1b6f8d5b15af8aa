use vstd::prelude::*;

use crate::constraint::{Constraint, Group, ReductionError, RuleKind, groups_in_bounds};
use crate::grid::{GridModel, SudokuGrid};

verus! {

/// Two rules that must both hold.
pub struct CompositeConstraint<C1: Constraint, C2: Constraint> {
    c1: C1,
    c2: C2,
}

/// A reduction, or what undoes one, of one of the two parts of a composite rule.
pub enum CompositeData<D1, D2> {
    First(D1),
    Second(D2),
}

impl<C1: Constraint, C2: Constraint> CompositeConstraint<C1, C2> {
    pub closed spec fn spec_first(&self) -> C1 {
        self.c1
    }

    pub closed spec fn spec_second(&self) -> C2 {
        self.c2
    }

    pub fn new(c1: C1, c2: C2) -> (r: CompositeConstraint<C1, C2>)
        ensures
            r.spec_first() == c1,
            r.spec_second() == c2,
    {
        CompositeConstraint { c1, c2 }
    }

    pub fn first(&self) -> (r: &C1)
        ensures
            *r == self.spec_first(),
    {
        &self.c1
    }

    pub fn first_mut(&mut self) -> (r: &mut C1)
        ensures
            *r == old(self).spec_first(),
            final(self).spec_first() == *final(r),
            final(self).spec_second() == old(self).spec_second(),
    {
        &mut self.c1
    }

    pub fn second(&self) -> (r: &C2)
        ensures
            *r == self.spec_second(),
    {
        &self.c2
    }

    pub fn second_mut(&mut self) -> (r: &mut C2)
        ensures
            *r == old(self).spec_second(),
            final(self).spec_second() == *final(r),
            final(self).spec_first() == old(self).spec_first(),
    {
        &mut self.c2
    }

    pub fn into_components(self) -> (r: (C1, C2))
        ensures
            r == (self.spec_first(), self.spec_second()),
    {
        (self.c1, self.c2)
    }
}

impl<C1: Constraint, C2: Constraint> Constraint for CompositeConstraint<C1, C2> {
    type Reduction = CompositeData<C1::Reduction, C2::Reduction>;
    type RevertInfo = CompositeData<C1::RevertInfo, C2::RevertInfo>;

    open spec fn allows(&self, grid: GridModel, column: int, row: int, number: int) -> bool {
        self.spec_first().allows(grid, column, row, number) && self.spec_second().allows(grid, column, row, number)
    }

    proof fn lemma_allows_fewer(
        &self,
        fewer: GridModel,
        more: GridModel,
        column: int,
        row: int,
        number: int,
    ) {
        self.c1.lemma_allows_fewer(fewer, more, column, row, number);
        self.c2.lemma_allows_fewer(fewer, more, column, row, number);
    }

    open spec fn undoes(&self, solution: GridModel, reduction: Self::Reduction, info: Self::RevertInfo, earlier: Self) -> bool {
        match (reduction, info) {
            (CompositeData::First(r1), CompositeData::First(i1)) => self.spec_first().undoes(
                solution,
                r1,
                i1,
                earlier.spec_first(),
            ) && self.spec_second() == earlier.spec_second(),
            (CompositeData::Second(r2), CompositeData::Second(i2)) => self.spec_second().undoes(
                solution,
                r2,
                i2,
                earlier.spec_second(),
            ) && self.spec_first() == earlier.spec_first(),
            _ => false,
        }
    }

    open spec fn spec_has_rule(&self, kind: RuleKind) -> bool {
        self.spec_first().spec_has_rule(kind) || self.spec_second().spec_has_rule(kind)
    }

    fn has_rule(&self, kind: RuleKind) -> (r: bool) {
        self.c1.has_rule(kind) || self.c2.has_rule(kind)
    }

    fn check_number(&self, grid: &SudokuGrid, column: usize, row: usize, number: usize) -> (r: bool) {
        self.c1.check_number(grid, column, row, number) && self.c2.check_number(grid, column, row, number)
    }

    /// The first part's groups, then the second's.
    open spec fn spec_groups(&self, grid: GridModel) -> Seq<Seq<(usize, usize)>> {
        self.spec_first().spec_groups(grid) + self.spec_second().spec_groups(grid)
    }

    /// The first part's reductions, then the second's.
    open spec fn spec_reductions(&self, solution: GridModel) -> Seq<Self::Reduction> {
        self.spec_first().spec_reductions(solution).map_values(|r: C1::Reduction| CompositeData::First(r))
            + self.spec_second().spec_reductions(solution).map_values(|r: C2::Reduction| CompositeData::Second(r))
    }

    fn get_groups(&self, grid: &SudokuGrid) -> (r: Vec<Group>) {
        let mut groups = self.c1.get_groups(grid);
        let mut more = self.c2.get_groups(grid);
        let ghost a = groups@;
        let ghost b = more@;
        groups.append(&mut more);
        proof {
            assert(groups@.map_values(|g: Group| g@) =~= a.map_values(|g: Group| g@) + b.map_values(|g: Group| g@));
            assert forall|i: int, j: int| 0 <= i < groups@.len() && 0 <= j < groups@[i]@.len() implies {
                let (x, y) = #[trigger] groups@[i]@[j];
                x < grid@.size() && y < grid@.size()
            } by {
                if i < a.len() {
                    assert(groups@[i] == a[i]);
                } else {
                    assert(groups@[i] == b[i - a.len()]);
                }
            }
        }
        groups
    }

    fn list_reductions(&self, solution: &SudokuGrid) -> (r: Vec<Self::Reduction>) {
        let mut firsts = self.c1.list_reductions(solution);
        let mut seconds = self.c2.list_reductions(solution);
        let ghost f0 = firsts@;
        let ghost s0 = seconds@;
        let mut result: Vec<Self::Reduction> = Vec::new();
        while firsts.len() > 0
            invariant
                f0.len() == result@.len() + firsts@.len(),
                firsts@ == f0.subrange(result@.len() as int, f0.len() as int),
                result@ == f0.subrange(0, result@.len() as int).map_values(|r: C1::Reduction| CompositeData::<
                    C1::Reduction,
                    C2::Reduction,
                >::First(r)),
            decreases firsts@.len(),
        {
            let ghost k = result@.len() as int;
            let r = firsts.remove(0);
            result.push(CompositeData::First(r));
            proof {
                assert(firsts@ =~= f0.subrange(k + 1, f0.len() as int));
                assert(result@ =~= f0.subrange(0, k + 1).map_values(|r: C1::Reduction| CompositeData::<
                    C1::Reduction,
                    C2::Reduction,
                >::First(r)));
            }
        }
        let ghost prefix = result@;
        assert(f0.subrange(0, f0.len() as int) =~= f0);
        while seconds.len() > 0
            invariant
                s0.len() == (result@.len() - prefix.len()) + seconds@.len(),
                result@.len() >= prefix.len(),
                seconds@ == s0.subrange(result@.len() - prefix.len(), s0.len() as int),
                result@ == prefix + s0.subrange(0, result@.len() - prefix.len()).map_values(|r: C2::Reduction| CompositeData::<
                    C1::Reduction,
                    C2::Reduction,
                >::Second(r)),
            decreases seconds@.len(),
        {
            let ghost k = result@.len() - prefix.len();
            let r = seconds.remove(0);
            result.push(CompositeData::Second(r));
            proof {
                assert(seconds@ =~= s0.subrange(k + 1, s0.len() as int));
                assert(result@ =~= prefix + s0.subrange(0, k + 1).map_values(|r: C2::Reduction| CompositeData::<
                    C1::Reduction,
                    C2::Reduction,
                >::Second(r)));
            }
        }
        assert(s0.subrange(0, s0.len() as int) =~= s0);
        result
    }

    fn reduce(&mut self, solution: &SudokuGrid, reduction: &Self::Reduction) -> (r: Result<
        Self::RevertInfo,
        ReductionError,
    >) {
        match reduction {
            CompositeData::First(r1) => {
                let ghost before = *self;
                match self.c1.reduce(solution, r1) {
                    Ok(info) => {
                        proof {
                            assert forall|g: GridModel, c: int, w: int, n: int| #[trigger] before.allows(g, c, w, n)
                                implies self.allows(g, c, w, n) by {
                                assert(before.c1.allows(g, c, w, n));
                            }
                        }
                        Ok(CompositeData::First(info))
                    },
                    Err(e) => Err(e),
                }
            },
            CompositeData::Second(r2) => {
                let ghost before = *self;
                match self.c2.reduce(solution, r2) {
                    Ok(info) => {
                        proof {
                            assert forall|g: GridModel, c: int, w: int, n: int| #[trigger] before.allows(g, c, w, n)
                                implies self.allows(g, c, w, n) by {
                                assert(before.c2.allows(g, c, w, n));
                            }
                        }
                        Ok(CompositeData::Second(info))
                    },
                    Err(e) => Err(e),
                }
            },
        }
    }

    fn revert(&mut self, solution: &SudokuGrid, reduction: &Self::Reduction, revert_info: Self::RevertInfo) {
        let ghost before = *self;
        match (reduction, revert_info) {
            (CompositeData::First(r1), CompositeData::First(i1)) => {
                self.c1.revert(solution, r1, i1);
                proof {
                    assert forall|earlier: Self| #[trigger] before.undoes(solution@, *reduction, revert_info, earlier)
                        implies forall|g: GridModel, c: int, r: int, n: int| #[trigger] self.allows(g, c, r, n)
                        == earlier.allows(g, c, r, n) by {
                        assert(before.c1.undoes(solution@, *r1, i1, earlier.c1));
                        assert forall|g: GridModel, c: int, r: int, n: int| #[trigger] self.allows(g, c, r, n)
                            == earlier.allows(g, c, r, n) by {
                            assert(self.c1.allows(g, c, r, n) == earlier.c1.allows(g, c, r, n));
                        }
                    }
                }
            },
            (CompositeData::Second(r2), CompositeData::Second(i2)) => {
                self.c2.revert(solution, r2, i2);
                proof {
                    assert forall|earlier: Self| #[trigger] before.undoes(solution@, *reduction, revert_info, earlier)
                        implies forall|g: GridModel, c: int, r: int, n: int| #[trigger] self.allows(g, c, r, n)
                        == earlier.allows(g, c, r, n) by {
                        assert(before.c2.undoes(solution@, *r2, i2, earlier.c2));
                        assert forall|g: GridModel, c: int, r: int, n: int| #[trigger] self.allows(g, c, r, n)
                            == earlier.allows(g, c, r, n) by {
                            assert(self.c2.allows(g, c, r, n) == earlier.c2.allows(g, c, r, n));
                        }
                    }
                }
            },
            _ => {},
        }
    }
}

} // verus!
