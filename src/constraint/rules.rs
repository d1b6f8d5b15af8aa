use vstd::prelude::*;

use crate::constraint::{Group, IrreducibleConstraint, RuleKind};
use crate::grid::{GridModel, SudokuGrid, lemma_index_in_bounds};
use crate::utilities::abs_diff;

verus! {

/// A digit the grid holds at `(x, y)` is unequal to `n`.
pub open spec fn differs(g: GridModel, x: int, y: int, n: int) -> bool {
    g.cell(x, y) != Some(n as usize)
}

/// No other cell of row `r` holds `n`.
pub open spec fn row_allows(g: GridModel, c: int, r: int, n: int) -> bool {
    forall|x: int| 0 <= x < g.size() && x != c ==> #[trigger] differs(g, x, r, n)
}

/// No other cell of column `c` holds `n`.
pub open spec fn column_allows(g: GridModel, c: int, r: int, n: int) -> bool {
    forall|y: int| 0 <= y < g.size() && y != r ==> #[trigger] differs(g, c, y, n)
}

/// Whether `(x, y)` lies in the same block as `(c, r)`.
pub open spec fn same_block(g: GridModel, c: int, r: int, x: int, y: int) -> bool {
    x / (g.block_width as int) == c / (g.block_width as int) && y / (g.block_height as int) == r
        / (g.block_height as int)
}

/// No other cell of the block of `(c, r)` holds `n`.
pub open spec fn block_allows(g: GridModel, c: int, r: int, n: int) -> bool {
    forall|x: int, y: int|
        g.in_bounds(x, y) && same_block(g, c, r, x, y) && (x != c || y != r) ==> #[trigger] differs(
            g,
            x,
            y,
            n,
        )
}

/// A digit of `fewer` stands in the same cell of `more`.
proof fn lemma_differs_fewer(fewer: GridModel, more: GridModel, x: int, y: int, n: int)
    requires
        fewer.wf(),
        more.wf(),
        fewer.same_dimensions(more),
        fewer.is_subset(more),
        fewer.in_bounds(x, y),
        differs(more, x, y, n),
    ensures
        differs(fewer, x, y, n),
{
    lemma_index_in_bounds(x, y, fewer.size() as int);
    let i = fewer.index(x, y);
    assert(fewer.cells[i] matches Some(m) ==> more.cells[i] == Some(m));
}

/// Whether the grid holds `n` at `(x, y)`, for coordinates within the grid.
fn holds(grid: &SudokuGrid, x: usize, y: usize, n: usize) -> (r: bool)
    requires
        grid.wf(),
        grid@.in_bounds(x as int, y as int),
    ensures
        r == !differs(grid@, x as int, y as int, n as int),
{
    match grid.get_cell(x, y) {
        Ok(Some(m)) => m == n,
        _ => false,
    }
}

proof fn lemma_block_start(c: int, w: int, h: int)
    requires
        0 <= c < w * h,
        w > 0,
        h > 0,
    ensures
        0 <= (c / w) * w,
        (c / w) * w + w <= w * h,
        forall|x: int| #![trigger x / w] (c / w) * w <= x < (c / w) * w + w ==> x / w == c / w,
        forall|x: int| #![trigger x / w] 0 <= x && x / w == c / w ==> (c / w) * w <= x < (c / w) * w + w,
{
    let q = c / w;
    vstd::arithmetic::div_mod::lemma_fundamental_div_mod(c, w);
    vstd::arithmetic::div_mod::lemma_div_pos_is_pos(c, w);
    vstd::arithmetic::mul::lemma_mul_is_commutative(q, w);
    assert(q < h) by (nonlinear_arith)
        requires
            c == w * q + c % w,
            0 <= c % w,
            c < w * h,
            w > 0,
    ;
    assert(q * w + w <= w * h) by (nonlinear_arith)
        requires
            q < h,
            w > 0,
            q >= 0,
    ;
    assert(0 <= q * w) by (nonlinear_arith)
        requires
            q >= 0,
            w > 0,
    ;
    assert forall|x: int| #![trigger x / w] q * w <= x < q * w + w implies x / w == q by {
        vstd::arithmetic::div_mod::lemma_fundamental_div_mod_converse(x, w, q, x - q * w);
    }
    assert forall|x: int| #![trigger x / w] 0 <= x && x / w == q implies q * w <= x < q * w + w by {
        vstd::arithmetic::div_mod::lemma_fundamental_div_mod(x, w);
        vstd::arithmetic::div_mod::lemma_mod_bound(x, w);
        vstd::arithmetic::mul::lemma_mul_is_commutative(q, w);
    }
}

/// The classic rule: no digit twice in a row, a column or a block.
#[derive(Clone, Copy, Debug)]
pub struct DefaultConstraint;

impl IrreducibleConstraint for DefaultConstraint {
    open spec fn spec_kind(&self) -> RuleKind {
        RuleKind::Classic
    }

    fn kind(&self) -> (r: RuleKind) {
        RuleKind::Classic
    }

    open spec fn rule_allows(&self, grid: GridModel, column: int, row: int, number: int) -> bool {
        &&& row_allows(grid, column, row, number)
        &&& column_allows(grid, column, row, number)
        &&& block_allows(grid, column, row, number)
    }

    proof fn lemma_rule_allows_fewer(
        &self,
        fewer: GridModel,
        more: GridModel,
        column: int,
        row: int,
        number: int,
    ) {
        assert forall|x: int| 0 <= x < fewer.size() && x != column implies #[trigger] differs(fewer, x, row, number) by {
            lemma_differs_fewer(fewer, more, x, row, number);
        }
        assert forall|y: int| 0 <= y < fewer.size() && y != row implies #[trigger] differs(fewer, column, y, number) by {
            lemma_differs_fewer(fewer, more, column, y, number);
        }
        assert forall|x: int, y: int|
            fewer.in_bounds(x, y) && same_block(fewer, column, row, x, y) && (x != column || y != row) implies #[trigger] differs(
            fewer,
            x,
            y,
            number,
        ) by {
            lemma_differs_fewer(fewer, more, x, y, number);
        }
    }

    fn rule_check_number(&self, grid: &SudokuGrid, column: usize, row: usize, number: usize) -> (r: bool) {
        let size = grid.size();
        let mut i: usize = 0;
        while i < size
            invariant
                grid.wf(),
                size == grid@.size(),
                column < size,
                row < size,
                i <= size,
                forall|x: int| 0 <= x < i && x != column ==> #[trigger] differs(grid@, x, row as int, number as int),
                forall|y: int| 0 <= y < i && y != row ==> #[trigger] differs(grid@, column as int, y, number as int),
            decreases size - i,
        {
            if i != column && holds(grid, i, row, number) {
                return false;
            }
            if i != row && holds(grid, column, i, number) {
                return false;
            }
            i = i + 1;
        }
        let bw = grid.block_width();
        let bh = grid.block_height();
        proof {
            lemma_block_start(column as int, bw as int, bh as int);
            vstd::arithmetic::mul::lemma_mul_is_commutative(bh as int, bw as int);
            lemma_block_start(row as int, bh as int, bw as int);
        }
        let x0 = (column / bw) * bw;
        let y0 = (row / bh) * bh;
        let mut y = y0;
        while y < y0 + bh
            invariant
                grid.wf(),
                size == grid@.size(),
                bw == grid@.block_width,
                bh == grid@.block_height,
                column < size,
                row < size,
                x0 == (column / bw) * bw,
                y0 == (row / bh) * bh,
                x0 + bw <= size,
                y0 + bh <= size,
                y0 <= y <= y0 + bh,
                forall|x: int| #![trigger x / (bw as int)] x0 <= x < x0 + bw ==> x / (bw as int) == (column as int) / (bw as int),
                forall|x: int| #![trigger x / (bw as int)] 0 <= x && x / (bw as int) == (column as int) / (bw as int) ==> x0 <= x < x0 + bw,
                forall|v: int| #![trigger v / (bh as int)] y0 <= v < y0 + bh ==> v / (bh as int) == (row as int) / (bh as int),
                forall|v: int| #![trigger v / (bh as int)] 0 <= v && v / (bh as int) == (row as int) / (bh as int) ==> y0 <= v < y0 + bh,
                forall|x: int, v: int| x0 <= x < x0 + bw && y0 <= v < y && (x != column || v != row)
                    ==> #[trigger] differs(grid@, x, v, number as int),
            decreases y0 + bh - y,
        {
            let mut x = x0;
            while x < x0 + bw
                invariant
                    grid.wf(),
                    size == grid@.size(),
                    column < size,
                    row < size,
                    x0 + bw <= size,
                    y0 + bh <= size,
                    y0 <= y < y0 + bh,
                    x0 <= x <= x0 + bw,
                    bw == grid@.block_width,
                    bh == grid@.block_height,
                    forall|a: int| #![trigger a / (bw as int)] x0 <= a < x0 + bw ==> a / (bw as int) == (column as int) / (bw as int),
                    forall|v: int| #![trigger v / (bh as int)] y0 <= v < y0 + bh ==> v / (bh as int) == (row as int) / (bh as int),
                    forall|a: int, v: int| x0 <= a < x0 + bw && y0 <= v < y && (a != column || v != row)
                        ==> #[trigger] differs(grid@, a, v, number as int),
                    forall|a: int| x0 <= a < x && (a != column || y != row)
                        ==> #[trigger] differs(grid@, a, y as int, number as int),
                decreases x0 + bw - x,
            {
                if (x != column || y != row) && holds(grid, x, y, number) {
                    proof {
                        assert((x as int) / (bw as int) == (column as int) / (bw as int));
                        assert((y as int) / (bh as int) == (row as int) / (bh as int));
                        assert(same_block(grid@, column as int, row as int, x as int, y as int));
                    }
                    return false;
                }
                x = x + 1;
            }
            y = y + 1;
        }
        proof {
            assert forall|x: int, v: int|
                grid@.in_bounds(x, v) && same_block(grid@, column as int, row as int, x, v) && (x != column || v != row) implies #[trigger] differs(
                grid@,
                x,
                v,
                number as int,
            ) by {
                assert(x / (bw as int) == (column as int) / (bw as int));
                assert(v / (bh as int) == (row as int) / (bh as int));
            }
        }
        true
    }

    /// The rows, then the columns, then the blocks, each in row-major order.
    open spec fn rule_spec_groups(&self, grid: GridModel) -> Seq<Seq<(usize, usize)>> {
        classic_groups(grid.block_width as int, grid.block_height as int)
    }

    fn rule_groups(&self, grid: &SudokuGrid) -> (r: Vec<Group>) {
        let size = grid.size();
        let w = grid.block_width();
        let h = grid.block_height();
        proof {
            grid.lemma_size_bound();
            assert(w * h >= 1) by (nonlinear_arith)
                requires
                    w >= 1,
                    h >= 1,
            ;
            assert(3 * size <= usize::MAX) by (nonlinear_arith)
                requires
                    size * size <= usize::MAX,
                    size >= 1,
            ;
        }
        let mut groups: Vec<Group> = Vec::new();
        let mut j: usize = 0;
        while j < 3 * size
            invariant
                size == grid@.size(),
                size == w * h,
                w >= 1,
                h >= 1,
                3 * size <= usize::MAX,
                j <= 3 * size,
                crate::constraint::groups_in_bounds(groups@, size as int),
                groups@.map_values(|g: Group| g@) == Seq::new(j as nat, |a: int| classic_group(a, w as int, h as int)),
                groups@.len() == j,
            decreases 3 * size - j,
        {
            let kind = j / size;
            let i = j % size;
            let mut group: Group = Vec::new();
            let mut k: usize = 0;
            while k < size
                invariant
                    size == w * h,
                    w >= 1,
                    h >= 1,
                    j < 3 * size,
                    kind == j / size,
                    i == j % size,
                    k <= size,
                    group@ == Seq::new(k as nat, |b: int| group_cell(kind as int, i as int, b, w as int, h as int)),
                    forall|m: int| 0 <= m < group@.len() ==> group@[m].0 < size && group@[m].1 < size,
                decreases size - k,
            {
                proof {
                    lemma_group_cell(kind as int, i as int, k as int, w as int, h as int);
                }
                let cell = if kind == 0 {
                    (k, i)
                } else if kind == 1 {
                    (i, k)
                } else {
                    ((i % h) * w + k % w, (i / h) * h + k / w)
                };
                group.push(cell);
                proof {
                    assert(group@ =~= Seq::new((k + 1) as nat, |b: int| group_cell(kind as int, i as int, b, w as int, h as int)));
                }
                k = k + 1;
            }
            proof {
                assert(group@ == classic_group(j as int, w as int, h as int));
            }
            let ghost before = groups@;
            push_group(&mut groups, group, size);
            proof {
                assert forall|a: int| 0 <= a < j + 1 implies groups@.map_values(|g: Group| g@)[a] == classic_group(
                    a,
                    w as int,
                    h as int,
                ) by {
                    if a < j {
                        assert(groups@[a] == before[a]);
                        assert(before.map_values(|g: Group| g@)[a] == classic_group(a, w as int, h as int));
                    }
                }
                assert(groups@.map_values(|g: Group| g@) =~= Seq::new((j + 1) as nat, |a: int| classic_group(a, w as int, h as int)));
            }
            j = j + 1;
        }
        groups
    }
}

/// Cell `k` of group `i` of the given kind: 0 for rows, 1 for columns, 2 for blocks.
pub open spec fn group_cell(kind: int, i: int, k: int, w: int, h: int) -> (usize, usize) {
    if kind == 0 {
        (k as usize, i as usize)
    } else if kind == 1 {
        (i as usize, k as usize)
    } else {
        (((i % h) * w + k % w) as usize, ((i / h) * h + k / w) as usize)
    }
}

/// Group `a` of the classic rule: rows for `a < size`, then columns, then blocks.
pub open spec fn classic_group(a: int, w: int, h: int) -> Seq<(usize, usize)> {
    Seq::new((w * h) as nat, |k: int| group_cell(a / (w * h), a % (w * h), k, w, h))
}

pub open spec fn classic_groups(w: int, h: int) -> Seq<Seq<(usize, usize)>> {
    Seq::new((3 * (w * h)) as nat, |a: int| classic_group(a, w, h))
}

proof fn lemma_group_cell(kind: int, i: int, k: int, w: int, h: int)
    requires
        0 <= i < w * h,
        0 <= k < w * h,
        w >= 1,
        h >= 1,
    ensures
        group_cell(kind, i, k, w, h).0 < w * h,
        group_cell(kind, i, k, w, h).1 < w * h,
        ((i % h) * w + k % w) < w * h,
        ((i / h) * h + k / w) < w * h,
        0 <= (i % h) * w + k % w,
        0 <= (i / h) * h + k / w,
{
    vstd::arithmetic::div_mod::lemma_fundamental_div_mod(i, h);
    vstd::arithmetic::div_mod::lemma_fundamental_div_mod(k, w);
    vstd::arithmetic::div_mod::lemma_mod_bound(i, h);
    vstd::arithmetic::div_mod::lemma_mod_bound(k, w);
    vstd::arithmetic::div_mod::lemma_div_pos_is_pos(i, h);
    vstd::arithmetic::div_mod::lemma_div_pos_is_pos(k, w);
    let (qi, ri, qk, rk) = (i / h, i % h, k / w, k % w);
    assert(ri * w + rk < w * h && 0 <= ri * w + rk) by (nonlinear_arith)
        requires
            0 <= ri < h,
            0 <= rk < w,
            w >= 1,
    ;
    assert(qi < w && qk < h) by (nonlinear_arith)
        requires
            i == h * qi + ri,
            k == w * qk + rk,
            0 <= ri,
            0 <= rk,
            qi >= 0,
            qk >= 0,
            i < w * h,
            k < w * h,
            w >= 1,
            h >= 1,
    ;
    assert(qi * h + qk < w * h && 0 <= qi * h + qk) by (nonlinear_arith)
        requires
            0 <= qi < w,
            0 <= qk < h,
    ;
}

/// No groups.
fn no_groups() -> (r: Vec<Group>)
    ensures
        r@.map_values(|g: Group| g@) == Seq::<Seq<(usize, usize)>>::empty(),
        r@.len() == 0,
{
    let r: Vec<Group> = Vec::new();
    assert(r@.map_values(|g: Group| g@) =~= Seq::<Seq<(usize, usize)>>::empty());
    r
}

/// Appends a group whose cells lie within the grid.
fn push_group(groups: &mut Vec<Group>, group: Group, size: usize)
    requires
        crate::constraint::groups_in_bounds(old(groups)@, size as int),
        forall|k: int| 0 <= k < group@.len() ==> group@[k].0 < size && group@[k].1 < size,
    ensures
        crate::constraint::groups_in_bounds(final(groups)@, size as int),
        final(groups)@ == old(groups)@.push(group),
{
    let ghost before = groups@;
    groups.push(group);
    proof {
        assert forall|a: int, b: int| 0 <= a < groups@.len() && 0 <= b < groups@[a]@.len() implies {
            let (x, y) = #[trigger] groups@[a]@[b];
            x < size && y < size
        } by {
            if a < before.len() {
                assert(groups@[a] == before[a]);
            }
        }
    }
}

/// Both diagonals of the grid hold no digit twice.
#[derive(Clone, Copy, Debug)]
pub struct DiagonalsConstraint;

/// No other cell of the main diagonal holds `n` if `(c, r)` lies on it, and likewise
/// for the anti-diagonal.
pub open spec fn diagonals_allow(g: GridModel, c: int, r: int, n: int) -> bool {
    &&& c == r ==> forall|i: int| 0 <= i < g.size() && i != c ==> #[trigger] differs(g, i, i, n)
    &&& c + r == g.size() - 1 ==> forall|i: int| 0 <= i < g.size() && i != c ==> #[trigger] differs(
        g,
        i,
        g.size() - 1 - i,
        n,
    )
}

impl IrreducibleConstraint for DiagonalsConstraint {
    open spec fn spec_kind(&self) -> RuleKind {
        RuleKind::Diagonals
    }

    fn kind(&self) -> (r: RuleKind) {
        RuleKind::Diagonals
    }

    open spec fn rule_allows(&self, grid: GridModel, column: int, row: int, number: int) -> bool {
        diagonals_allow(grid, column, row, number)
    }

    proof fn lemma_rule_allows_fewer(
        &self,
        fewer: GridModel,
        more: GridModel,
        column: int,
        row: int,
        number: int,
    ) {
        if column == row {
            assert forall|i: int| 0 <= i < fewer.size() && i != column implies #[trigger] differs(fewer, i, i, number) by {
                lemma_differs_fewer(fewer, more, i, i, number);
            }
        }
        if column + row == fewer.size() - 1 {
            assert forall|i: int| 0 <= i < fewer.size() && i != column implies #[trigger] differs(
                fewer,
                i,
                fewer.size() - 1 - i,
                number,
            ) by {
                lemma_differs_fewer(fewer, more, i, fewer.size() - 1 - i, number);
            }
        }
    }

    fn rule_check_number(&self, grid: &SudokuGrid, column: usize, row: usize, number: usize) -> (r: bool) {
        let size = grid.size();
        let main = column == row;
        let anti = column == size - 1 - row;
        let mut i: usize = 0;
        while i < size
            invariant
                grid.wf(),
                size == grid@.size(),
                column < size,
                row < size,
                main == (column == row),
                anti == (column + row == size - 1),
                i <= size,
                main ==> forall|x: int| 0 <= x < i && x != column ==> #[trigger] differs(grid@, x, x, number as int),
                anti ==> forall|x: int| 0 <= x < i && x != column ==> #[trigger] differs(
                    grid@,
                    x,
                    size - 1 - x,
                    number as int,
                ),
            decreases size - i,
        {
            if main && i != column && holds(grid, i, i, number) {
                return false;
            }
            if anti && i != column && holds(grid, i, size - 1 - i, number) {
                return false;
            }
            i = i + 1;
        }
        true
    }

    /// The main diagonal, then the anti-diagonal, each from the top row down.
    open spec fn rule_spec_groups(&self, grid: GridModel) -> Seq<Seq<(usize, usize)>> {
        seq![
            Seq::new(grid.size(), |i: int| (i as usize, i as usize)),
            Seq::new(grid.size(), |i: int| (i as usize, (grid.size() - 1 - i) as usize)),
        ]
    }

    fn rule_groups(&self, grid: &SudokuGrid) -> (r: Vec<Group>) {
        let size = grid.size();
        let mut main: Group = Vec::new();
        let mut anti: Group = Vec::new();
        let mut i: usize = 0;
        while i < size
            invariant
                size == grid@.size(),
                i <= size,
                forall|j: int| 0 <= j < main@.len() ==> main@[j].0 < size && main@[j].1 < size,
                forall|j: int| 0 <= j < anti@.len() ==> anti@[j].0 < size && anti@[j].1 < size,
                main@ == Seq::new(i as nat, |k: int| (k as usize, k as usize)),
                anti@ == Seq::new(i as nat, |k: int| (k as usize, (size - 1 - k) as usize)),
            decreases size - i,
        {
            main.push((i, i));
            anti.push((i, size - 1 - i));
            proof {
                assert(main@ =~= Seq::new((i + 1) as nat, |k: int| (k as usize, k as usize)));
                assert(anti@ =~= Seq::new((i + 1) as nat, |k: int| (k as usize, (size - 1 - k) as usize)));
            }
            i = i + 1;
        }
        let r = vec![main, anti];
        proof {
            assert forall|a: int, j: int| 0 <= a < r@.len() && 0 <= j < r@[a]@.len() implies {
                let (x, y) = #[trigger] r@[a]@[j];
                x < size && y < size
            } by {
                if a == 0 {
                    assert(r@[a]@ == main@);
                } else {
                    assert(r@[a]@ == anti@);
                }
            }
            assert(r@.map_values(|g: Group| g@) =~= self.rule_spec_groups(grid@));
        }
        r
    }
}

/// Which cells count as neighbours of a cell for a rule.
#[derive(Clone, Copy, Debug, PartialEq, Eq, Structural)]
pub enum Neighbourhood {
    KnightsMove,
    KingsMove,
    DiagonallyAdjacent,
    OrthogonallyAdjacent,
}

pub open spec fn abs(x: int) -> int {
    if x < 0 {
        -x
    } else {
        x
    }
}

/// Whether cells `dx` columns and `dy` rows apart are neighbours.
pub open spec fn neighbours(kind: Neighbourhood, dx: int, dy: int) -> bool {
    match kind {
        Neighbourhood::KnightsMove => (dx == 1 && dy == 2) || (dx == 2 && dy == 1),
        Neighbourhood::KingsMove => dx <= 1 && dy <= 1 && dx + dy > 0,
        Neighbourhood::DiagonallyAdjacent => dx == 1 && dy == 1,
        Neighbourhood::OrthogonallyAdjacent => dx + dy == 1,
    }
}

/// The digit at `(x, y)`, if any, may neighbour `n`: it differs from `n`, or, where
/// `consecutive` holds, it differs from `n` by more than one.
pub open spec fn compatible(g: GridModel, x: int, y: int, n: int, consecutive: bool) -> bool {
    match g.cell(x, y) {
        Some(m) => if consecutive {
            abs(m - n) != 1
        } else {
            m != n
        },
        None => true,
    }
}

/// Every neighbour of `(c, r)` may neighbour `n`.
pub open spec fn neighbourhood_allows(g: GridModel, c: int, r: int, n: int, kind: Neighbourhood, consecutive: bool) -> bool {
    forall|x: int, y: int|
        g.in_bounds(x, y) && neighbours(kind, abs(x - c), abs(y - r)) ==> #[trigger] compatible(
            g,
            x,
            y,
            n,
            consecutive,
        )
}

proof fn lemma_neighbourhood_fewer(
    fewer: GridModel,
    more: GridModel,
    c: int,
    r: int,
    n: int,
    kind: Neighbourhood,
    consecutive: bool,
)
    requires
        fewer.wf(),
        more.wf(),
        fewer.same_dimensions(more),
        fewer.is_subset(more),
        neighbourhood_allows(more, c, r, n, kind, consecutive),
    ensures
        neighbourhood_allows(fewer, c, r, n, kind, consecutive),
{
    assert forall|x: int, y: int|
        fewer.in_bounds(x, y) && neighbours(kind, abs(x - c), abs(y - r)) implies #[trigger] compatible(
        fewer,
        x,
        y,
        n,
        consecutive,
    ) by {
        lemma_index_in_bounds(x, y, fewer.size() as int);
        let i = fewer.index(x, y);
        assert(fewer.cells[i] matches Some(m) ==> more.cells[i] == Some(m));
        assert(compatible(more, x, y, n, consecutive));
    }
}

/// Checks the cells within two columns and two rows of `(column, row)`.
fn check_neighbourhood(
    grid: &SudokuGrid,
    column: usize,
    row: usize,
    number: usize,
    kind: Neighbourhood,
    consecutive: bool,
) -> (r: bool)
    requires
        grid.wf(),
        grid@.in_bounds(column as int, row as int),
    ensures
        r == neighbourhood_allows(grid@, column as int, row as int, number as int, kind, consecutive),
{
    let size = grid.size();
    proof {
        grid.lemma_size_bound();
    }
    let x_lo = if column >= 2 { column - 2 } else { 0 };
    let y_lo = if row >= 2 { row - 2 } else { 0 };
    let x_hi = if size - column > 3 { column + 3 } else { size };
    let y_hi = if size - row > 3 { row + 3 } else { size };
    let mut y = y_lo;
    while y < y_hi
        invariant
            grid.wf(),
            size == grid@.size(),
            column < size,
            row < size,
            y_lo <= y <= y_hi <= size,
            x_lo <= x_hi <= size,
            x_lo == (if column >= 2 { column - 2 } else { 0 }),
            y_lo == (if row >= 2 { row - 2 } else { 0 }),
            x_hi == (if size - column > 3 { column + 3 } else { size as int }),
            y_hi == (if size - row > 3 { row + 3 } else { size as int }),
            forall|a: int, b: int|
                grid@.in_bounds(a, b) && b < y && neighbours(kind, abs(a - column), abs(b - row)) ==> #[trigger] compatible(
                    grid@,
                    a,
                    b,
                    number as int,
                    consecutive,
                ),
        decreases y_hi - y,
    {
        let mut x = x_lo;
        while x < x_hi
            invariant
                grid.wf(),
                size == grid@.size(),
                column < size,
                row < size,
                y_lo <= y < y_hi <= size,
                x_lo <= x <= x_hi <= size,
                x_lo == (if column >= 2 { column - 2 } else { 0 }),
                y_lo == (if row >= 2 { row - 2 } else { 0 }),
                x_hi == (if size - column > 3 { column + 3 } else { size as int }),
                y_hi == (if size - row > 3 { row + 3 } else { size as int }),
                forall|a: int, b: int|
                    grid@.in_bounds(a, b) && b < y && neighbours(kind, abs(a - column), abs(b - row)) ==> #[trigger] compatible(
                        grid@,
                        a,
                        b,
                        number as int,
                        consecutive,
                    ),
                forall|a: int|
                    0 <= a < x && neighbours(kind, abs(a - column), abs(y - row)) ==> #[trigger] compatible(
                        grid@,
                        a,
                        y as int,
                        number as int,
                        consecutive,
                    ),
            decreases x_hi - x,
        {
            let dx = abs_diff(x, column);
            let dy = abs_diff(y, row);
            let near = match kind {
                Neighbourhood::KnightsMove => (dx == 1 && dy == 2) || (dx == 2 && dy == 1),
                Neighbourhood::KingsMove => dx <= 1 && dy <= 1 && dx + dy > 0,
                Neighbourhood::DiagonallyAdjacent => dx == 1 && dy == 1,
                Neighbourhood::OrthogonallyAdjacent => (dx == 1 && dy == 0) || (dx == 0 && dy == 1),
            };
            if near {
                if let Ok(Some(m)) = grid.get_cell(x, y) {
                    let clash = if consecutive { abs_diff(m, number) == 1 } else { m == number };
                    if clash {
                        proof {
                            assert(neighbours(kind, abs(x - column), abs(y - row)));
                            assert(!compatible(grid@, x as int, y as int, number as int, consecutive));
                        }
                        return false;
                    }
                }
            }
            x = x + 1;
        }
        y = y + 1;
    }
    true
}

/// No digit repeats a knight's move away.
#[derive(Clone, Copy, Debug)]
pub struct KnightsMoveConstraint;

/// No digit repeats a king's move away.
#[derive(Clone, Copy, Debug)]
pub struct KingsMoveConstraint;

/// No digit repeats in diagonally adjacent cells.
#[derive(Clone, Copy, Debug)]
pub struct DiagonallyAdjacentConstraint;

/// Orthogonally adjacent cells never hold consecutive digits.
#[derive(Clone, Copy, Debug)]
pub struct AdjacentConsecutiveConstraint;

impl IrreducibleConstraint for KnightsMoveConstraint {
    open spec fn spec_kind(&self) -> RuleKind {
        RuleKind::KnightsMove
    }

    fn kind(&self) -> (r: RuleKind) {
        RuleKind::KnightsMove
    }

    open spec fn rule_allows(&self, grid: GridModel, column: int, row: int, number: int) -> bool {
        neighbourhood_allows(grid, column, row, number, Neighbourhood::KnightsMove, false)
    }

    proof fn lemma_rule_allows_fewer(&self, fewer: GridModel, more: GridModel, column: int, row: int, number: int) {
        lemma_neighbourhood_fewer(fewer, more, column, row, number, Neighbourhood::KnightsMove, false);
    }

    fn rule_check_number(&self, grid: &SudokuGrid, column: usize, row: usize, number: usize) -> (r: bool) {
        check_neighbourhood(grid, column, row, number, Neighbourhood::KnightsMove, false)
    }

    open spec fn rule_spec_groups(&self, grid: GridModel) -> Seq<Seq<(usize, usize)>> {
        Seq::empty()
    }

    fn rule_groups(&self, grid: &SudokuGrid) -> (r: Vec<Group>) {
        no_groups()
    }
}

impl IrreducibleConstraint for KingsMoveConstraint {
    open spec fn spec_kind(&self) -> RuleKind {
        RuleKind::KingsMove
    }

    fn kind(&self) -> (r: RuleKind) {
        RuleKind::KingsMove
    }

    open spec fn rule_allows(&self, grid: GridModel, column: int, row: int, number: int) -> bool {
        neighbourhood_allows(grid, column, row, number, Neighbourhood::KingsMove, false)
    }

    proof fn lemma_rule_allows_fewer(&self, fewer: GridModel, more: GridModel, column: int, row: int, number: int) {
        lemma_neighbourhood_fewer(fewer, more, column, row, number, Neighbourhood::KingsMove, false);
    }

    fn rule_check_number(&self, grid: &SudokuGrid, column: usize, row: usize, number: usize) -> (r: bool) {
        check_neighbourhood(grid, column, row, number, Neighbourhood::KingsMove, false)
    }

    open spec fn rule_spec_groups(&self, grid: GridModel) -> Seq<Seq<(usize, usize)>> {
        Seq::empty()
    }

    fn rule_groups(&self, grid: &SudokuGrid) -> (r: Vec<Group>) {
        no_groups()
    }
}

impl IrreducibleConstraint for DiagonallyAdjacentConstraint {
    open spec fn spec_kind(&self) -> RuleKind {
        RuleKind::DiagonallyAdjacent
    }

    fn kind(&self) -> (r: RuleKind) {
        RuleKind::DiagonallyAdjacent
    }

    open spec fn rule_allows(&self, grid: GridModel, column: int, row: int, number: int) -> bool {
        neighbourhood_allows(grid, column, row, number, Neighbourhood::DiagonallyAdjacent, false)
    }

    proof fn lemma_rule_allows_fewer(&self, fewer: GridModel, more: GridModel, column: int, row: int, number: int) {
        lemma_neighbourhood_fewer(fewer, more, column, row, number, Neighbourhood::DiagonallyAdjacent, false);
    }

    fn rule_check_number(&self, grid: &SudokuGrid, column: usize, row: usize, number: usize) -> (r: bool) {
        check_neighbourhood(grid, column, row, number, Neighbourhood::DiagonallyAdjacent, false)
    }

    open spec fn rule_spec_groups(&self, grid: GridModel) -> Seq<Seq<(usize, usize)>> {
        Seq::empty()
    }

    fn rule_groups(&self, grid: &SudokuGrid) -> (r: Vec<Group>) {
        no_groups()
    }
}

impl IrreducibleConstraint for AdjacentConsecutiveConstraint {
    open spec fn spec_kind(&self) -> RuleKind {
        RuleKind::AdjacentConsecutive
    }

    fn kind(&self) -> (r: RuleKind) {
        RuleKind::AdjacentConsecutive
    }

    open spec fn rule_allows(&self, grid: GridModel, column: int, row: int, number: int) -> bool {
        neighbourhood_allows(grid, column, row, number, Neighbourhood::OrthogonallyAdjacent, true)
    }

    proof fn lemma_rule_allows_fewer(&self, fewer: GridModel, more: GridModel, column: int, row: int, number: int) {
        lemma_neighbourhood_fewer(fewer, more, column, row, number, Neighbourhood::OrthogonallyAdjacent, true);
    }

    fn rule_check_number(&self, grid: &SudokuGrid, column: usize, row: usize, number: usize) -> (r: bool) {
        check_neighbourhood(grid, column, row, number, Neighbourhood::OrthogonallyAdjacent, true)
    }

    open spec fn rule_spec_groups(&self, grid: GridModel) -> Seq<Seq<(usize, usize)>> {
        Seq::empty()
    }

    fn rule_groups(&self, grid: &SudokuGrid) -> (r: Vec<Group>) {
        no_groups()
    }
}

} // verus!
