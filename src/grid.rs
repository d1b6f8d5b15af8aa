use vstd::prelude::*;
use vstd::string::StringSliceAdditionalSpecFns;

use crate::error::{SudokuError, SudokuParseError, SudokuParseResult, SudokuResult};
use crate::text::{
    all_digits, decimal, is_digit, lemma_decimal, lemma_parse_decimal, lemma_split_concat, lemma_split_len,
    lemma_split_none, parse_number, parse_usize, push_decimal, split, split_ranges, trim, trim_range,
};

verus! {

/// The mathematical content of a grid: its block dimensions and its cells in row-major order.
pub struct GridModel {
    pub block_width: nat,
    pub block_height: nat,
    pub cells: Seq<Option<usize>>,
}

impl GridModel {
    pub open spec fn size(self) -> nat {
        self.block_width * self.block_height
    }

    pub open spec fn index(self, column: int, row: int) -> int {
        row * self.size() + column
    }

    pub open spec fn cell(self, column: int, row: int) -> Option<usize> {
        self.cells[self.index(column, row)]
    }

    pub open spec fn in_bounds(self, column: int, row: int) -> bool {
        0 <= column < self.size() && 0 <= row < self.size()
    }

    /// Positive dimensions, `size * size` cells, every digit in `[1, size]`.
    pub open spec fn wf(self) -> bool {
        &&& self.block_width > 0
        &&& self.block_height > 0
        &&& self.cells.len() == self.size() * self.size()
        &&& forall|i: int| 0 <= i < self.cells.len() ==> (#[trigger] self.cells[i] matches Some(n)
            ==> 1 <= n <= self.size())
    }

    pub open spec fn same_dimensions(self, other: GridModel) -> bool {
        self.block_width == other.block_width && self.block_height == other.block_height
    }

    pub open spec fn is_full(self) -> bool {
        forall|i: int| 0 <= i < self.cells.len() ==> #[trigger] self.cells[i] is Some
    }

    pub open spec fn is_empty(self) -> bool {
        forall|i: int| 0 <= i < self.cells.len() ==> #[trigger] self.cells[i] is None
    }

    /// Every digit of `self` stands in the same cell of `other`.
    pub open spec fn is_subset(self, other: GridModel) -> bool {
        forall|i: int| 0 <= i < self.cells.len() ==> (#[trigger] self.cells[i] matches Some(n)
            ==> other.cells[i] == Some(n))
    }

    /// The grid of the given dimensions with no digit.
    pub open spec fn empty(block_width: nat, block_height: nat) -> GridModel {
        GridModel {
            block_width,
            block_height,
            cells: Seq::new(block_width * block_height * (block_width * block_height), |i: int| None),
        }
    }
}

/// Number of digits among the first `k` cells.
pub open spec fn clues_below(cells: Seq<Option<usize>>, k: int) -> nat
    decreases k,
{
    if k <= 0 {
        0
    } else {
        clues_below(cells, k - 1) + if cells[k - 1] is Some { 1nat } else { 0nat }
    }
}

pub proof fn lemma_index_in_bounds(column: int, row: int, size: int)
    requires
        0 <= column < size,
        0 <= row < size,
    ensures
        0 <= row * size + column < size * size,
{
    assert(0 <= row * size + column < size * size) by (nonlinear_arith)
        requires
            0 <= column < size,
            0 <= row < size,
    ;
}

/// The text of one cell: its digit in decimal, or nothing.
pub open spec fn cell_text(c: Option<usize>) -> Seq<u8> {
    match c {
        Some(n) => decimal(n as nat),
        None => Seq::<u8>::empty(),
    }
}

/// The texts of the cells, separated by commas.
pub open spec fn join_cells(cells: Seq<Option<usize>>) -> Seq<u8>
    decreases cells.len(),
{
    if cells.len() == 0 {
        Seq::<u8>::empty()
    } else if cells.len() == 1 {
        cell_text(cells[0])
    } else {
        join_cells(cells.drop_last()) + seq![44u8] + cell_text(cells.last())
    }
}

/// The textual form of a grid: `<block_width>x<block_height>;<cells>`.
pub open spec fn printed(g: GridModel) -> Seq<u8> {
    decimal(g.block_width) + seq![120u8] + decimal(g.block_height) + seq![59u8] + join_cells(g.cells)
}

/// What is wrong with the text of a cell, if anything.
pub open spec fn cell_error(t: Seq<u8>, size: nat) -> Option<SudokuParseError> {
    let tt = trim(t);
    if tt.len() == 0 {
        None
    } else {
        match parse_usize(tt) {
            None => Some(SudokuParseError::NumberFormatError),
            Some(v) => if v == 0 || v > size {
                Some(SudokuParseError::InvalidNumber)
            } else {
                None
            },
        }
    }
}

/// The content that the text of a cell describes.
pub open spec fn cell_entry(t: Seq<u8>) -> Option<usize> {
    if trim(t).len() == 0 {
        None
    } else {
        parse_usize(trim(t))
    }
}

/// The error of the first of the first `k` cells that has one.
pub open spec fn first_cell_error(cells: Seq<Seq<u8>>, size: nat, k: int) -> Option<SudokuParseError>
    decreases k,
{
    if k <= 0 {
        None
    } else {
        match first_cell_error(cells, size, k - 1) {
            Some(e) => Some(e),
            None => cell_error(cells[k - 1], size),
        }
    }
}

/// The grid that a text describes, or the first thing wrong with it.
pub open spec fn parse_grid(s: Seq<u8>) -> Result<GridModel, SudokuParseError> {
    let parts = split(s, 59);
    if parts.len() != 2 {
        Err(SudokuParseError::WrongNumberOfParts)
    } else {
        let dims = split(parts[0], 120);
        if dims.len() != 2 {
            Err(SudokuParseError::MalformedDimensions)
        } else {
            match (parse_usize(dims[0]), parse_usize(dims[1])) {
                (Some(w), Some(h)) => if w == 0 || h == 0 {
                    Err(SudokuParseError::InvalidDimensions)
                } else {
                    let size = w as nat * h as nat;
                    let cells = split(parts[1], 44);
                    if cells.len() != size * size {
                        Err(SudokuParseError::WrongNumberOfCells)
                    } else {
                        match first_cell_error(cells, size, cells.len() as int) {
                            Some(e) => Err(e),
                            None => Ok(
                                GridModel {
                                    block_width: w as nat,
                                    block_height: h as nat,
                                    cells: cells.map_values(|t: Seq<u8>| cell_entry(t)),
                                },
                            ),
                        }
                    }
                },
                _ => Err(SudokuParseError::NumberFormatError),
            }
        }
    }
}

proof fn lemma_first_error_stays(cells: Seq<Seq<u8>>, size: nat, k: int, m: int)
    requires
        0 <= k <= m,
        first_cell_error(cells, size, k) is Some,
    ensures
        first_cell_error(cells, size, m) == first_cell_error(cells, size, k),
    decreases m - k,
{
    if m > k {
        lemma_first_error_stays(cells, size, k, m - 1);
    }
}

proof fn lemma_cell_text(c: Option<usize>, size: nat)
    requires
        c matches Some(n) ==> 1 <= n <= size,
    ensures
        cell_error(cell_text(c), size) is None,
        cell_entry(cell_text(c)) == c,
        forall|i: int| 0 <= i < cell_text(c).len() ==> is_digit(#[trigger] cell_text(c)[i]),
{
    match c {
        Some(n) => {
            lemma_parse_decimal(n as nat);
            lemma_decimal(n as nat);
        },
        None => {
            assert(trim(Seq::<u8>::empty()) =~= Seq::<u8>::empty());
        },
    }
}

/// Every byte of the joined cells is a digit or a comma; splitting at commas gives the cells back.
proof fn lemma_join(cells: Seq<Option<usize>>, size: nat)
    requires
        cells.len() >= 1,
        forall|i: int| 0 <= i < cells.len() ==> (#[trigger] cells[i] matches Some(n) ==> 1 <= n <= size),
    ensures
        forall|i: int| 0 <= i < join_cells(cells).len() ==> (is_digit(#[trigger] join_cells(cells)[i])
            || join_cells(cells)[i] == 44),
        split(join_cells(cells), 44) == cells.map_values(|c: Option<usize>| cell_text(c)),
    decreases cells.len(),
{
    if cells.len() == 1 {
        lemma_cell_text(cells[0], size);
        lemma_split_none(cell_text(cells[0]), 44);
        assert(cells.map_values(|c: Option<usize>| cell_text(c)) =~= seq![cell_text(cells[0])]);
    } else {
        let init = cells.drop_last();
        lemma_join(init, size);
        lemma_cell_text(cells.last(), size);
        lemma_split_none(cell_text(cells.last()), 44);
        lemma_split_concat(join_cells(init), cell_text(cells.last()), 44);
        assert(cells.map_values(|c: Option<usize>| cell_text(c)) =~= init.map_values(|c: Option<usize>| cell_text(c))
            + seq![cell_text(cells.last())]);
        let j = join_cells(cells);
        assert forall|i: int| 0 <= i < j.len() implies (is_digit(#[trigger] j[i]) || j[i] == 44) by {
            let a = join_cells(init);
            if i < a.len() {
                assert(j[i] == a[i]);
            } else if i > a.len() {
                assert(j[i] == cell_text(cells.last())[i - a.len() - 1]);
            }
        }
    }
}

proof fn lemma_no_cell_error(texts: Seq<Seq<u8>>, cells: Seq<Option<usize>>, size: nat, k: int)
    requires
        texts == cells.map_values(|c: Option<usize>| cell_text(c)),
        0 <= k <= cells.len(),
        forall|i: int| 0 <= i < cells.len() ==> (#[trigger] cells[i] matches Some(n) ==> 1 <= n <= size),
    ensures
        first_cell_error(texts, size, k) is None,
    decreases k,
{
    if k > 0 {
        lemma_no_cell_error(texts, cells, size, k - 1);
        lemma_cell_text(cells[k - 1], size);
    }
}

/// Parsing the text of a grid gives the grid back. `to_parseable_string` returns a string
/// whose UTF-8 bytes are `printed(g@)`, and `parse` reads those bytes.
pub proof fn law_parse_round_trip(g: &SudokuGrid)
    requires
        g.wf(),
    ensures
        parse_grid(printed(g@)) == Ok::<GridModel, SudokuParseError>(g@),
{
    let m = g@;
    g.lemma_size_bound();
    let size = m.size();
    assert(m.block_width <= size && m.block_height <= size) by (nonlinear_arith)
        requires
            size == m.block_width * m.block_height,
            m.block_width >= 1,
            m.block_height >= 1,
    ;
    assert(size * size >= 1) by (nonlinear_arith)
        requires
            size >= 1,
    ;
    let dw = decimal(m.block_width);
    let dh = decimal(m.block_height);
    let d = dw + seq![120u8] + dh;
    let j = join_cells(m.cells);
    lemma_decimal(m.block_width);
    lemma_decimal(m.block_height);
    lemma_parse_decimal(m.block_width);
    lemma_parse_decimal(m.block_height);
    lemma_join(m.cells, size);
    assert forall|i: int| 0 <= i < d.len() implies d[i] != 59 by {
        if i < dw.len() {
            assert(d[i] == dw[i]);
        } else if i > dw.len() {
            assert(d[i] == dh[i - dw.len() - 1]);
        }
    }
    assert forall|i: int| 0 <= i < j.len() implies j[i] != 59 by {
        assert(is_digit(j[i]) || j[i] == 44);
    }
    lemma_split_none(d, 59);
    lemma_split_none(j, 59);
    lemma_split_concat(d, j, 59);
    assert(printed(m) =~= d + seq![59u8] + j);
    assert(split(printed(m), 59) =~= seq![d, j]);
    lemma_split_none(dw, 120);
    lemma_split_none(dh, 120);
    lemma_split_concat(dw, dh, 120);
    assert(split(d, 120) =~= seq![dw, dh]);
    let texts = m.cells.map_values(|c: Option<usize>| cell_text(c));
    lemma_no_cell_error(texts, m.cells, size, m.cells.len() as int);
    assert forall|i: int| 0 <= i < m.cells.len() implies cell_entry(#[trigger] texts[i]) == m.cells[i] by {
        lemma_cell_text(m.cells[i], size);
    }
    assert(texts.map_values(|t: Seq<u8>| cell_entry(t)) =~= m.cells);
}

/// The textual form of a grid is ASCII.
pub proof fn lemma_printed_ascii(g: GridModel)
    requires
        g.wf(),
    ensures
        forall|k: int| 0 <= k < printed(g).len() ==> printed(g)[k] < 128,
{
    lemma_decimal(g.block_width);
    lemma_decimal(g.block_height);
    let dw = decimal(g.block_width);
    let dh = decimal(g.block_height);
    let j = join_cells(g.cells);
    if g.cells.len() >= 1 {
        lemma_join(g.cells, g.size());
    } else {
        assert(j =~= Seq::<u8>::empty());
    }
    let p = printed(g);
    assert forall|k: int| 0 <= k < p.len() implies p[k] < 128 by {
        if k < dw.len() {
            assert(p[k] == dw[k]);
            assert(is_digit(dw[k]));
        } else if dw.len() < k < dw.len() + 1 + dh.len() {
            assert(p[k] == dh[k - dw.len() - 1]);
            assert(is_digit(dh[k - dw.len() - 1]));
        } else if k > dw.len() + 1 + dh.len() {
            assert(p[k] == j[k - dw.len() - 2 - dh.len()]);
            assert(is_digit(j[k - dw.len() - 2 - dh.len()]) || j[k - dw.len() - 2 - dh.len()] == 44);
        }
    }
}

/// Reads `<block_width>x<block_height>` from `s[lo..hi]`.
fn parse_dimensions(s: &[u8], lo: usize, hi: usize) -> (r: Result<(usize, usize), SudokuParseError>)
    requires
        lo <= hi <= s@.len(),
    ensures
        ({
            let dims = split(s@.subrange(lo as int, hi as int), 120);
            if dims.len() != 2 {
                r == Err::<(usize, usize), SudokuParseError>(SudokuParseError::MalformedDimensions)
            } else {
                match (parse_usize(dims[0]), parse_usize(dims[1])) {
                    (Some(w), Some(h)) => r == Ok::<(usize, usize), SudokuParseError>((w, h)),
                    _ => r == Err::<(usize, usize), SudokuParseError>(SudokuParseError::NumberFormatError),
                }
            }
        }),
{
    let dims = split_ranges(s, lo, hi, 120);
    if dims.len() != 2 {
        return Err(SudokuParseError::MalformedDimensions);
    }
    let (w0, w1) = dims[0];
    let (h0, h1) = dims[1];
    let w = parse_number(s, w0, w1);
    let h = parse_number(s, h0, h1);
    match (w, h) {
        (Some(w), Some(h)) => Ok((w, h)),
        _ => Err(SudokuParseError::NumberFormatError),
    }
}

/// ASCII bytes read as characters encode back to the same bytes.
pub proof fn lemma_ascii_text(bytes: Seq<u8>, chars: Seq<char>)
    requires
        forall|k: int| 0 <= k < bytes.len() ==> bytes[k] < 128,
        chars == bytes.map_values(|b: u8| b as char),
    ensures
        vstd::utf8::encode_utf8(chars) == bytes,
{
    assert(vstd::utf8::is_ascii_chars(chars)) by {
        assert forall|i: int| 0 <= i < chars.len() implies '\0' <= #[trigger] chars[i] <= '\u{7f}' by {
            assert(chars[i] == bytes[i] as char);
        }
    }
    vstd::utf8::is_ascii_chars_encode_utf8(chars);
    assert(vstd::utf8::encode_utf8(chars) =~= bytes);
}

/// Relies on `String::from_utf8`: ASCII bytes are valid UTF-8, one character each.
#[verifier::external_body]
fn ascii_string(bytes: Vec<u8>) -> (r: String)
    requires
        forall|i: int| 0 <= i < bytes@.len() ==> bytes@[i] < 128,
    ensures
        r@ == bytes@.map_values(|b: u8| b as char),
{
    String::from_utf8(bytes).unwrap_or_default()
}

/// A new grid has `size = block_width * block_height` and `size * size` cells, all empty.
pub proof fn law_new_grid(block_width: nat, block_height: nat)
    requires
        block_width > 0,
        block_height > 0,
    ensures
        GridModel::empty(block_width, block_height).wf(),
        GridModel::empty(block_width, block_height).size() == block_width * block_height,
        GridModel::empty(block_width, block_height).cells.len() == (block_width * block_height) * (
        block_width * block_height),
        GridModel::empty(block_width, block_height).is_empty(),
{
}

/// Every grid is a subset of itself; the empty grid is a subset of every grid of the same
/// dimensions; and two grids of the same dimensions that are subsets of each other are equal.
pub proof fn law_subset(a: GridModel, b: GridModel)
    requires
        a.wf(),
        b.wf(),
        a.same_dimensions(b),
    ensures
        a.is_subset(a),
        GridModel::empty(a.block_width, a.block_height).is_subset(b),
        (a.is_subset(b) && b.is_subset(a)) <==> a == b,
{
    if a.is_subset(b) && b.is_subset(a) {
        assert forall|i: int| 0 <= i < a.cells.len() implies a.cells[i] == b.cells[i] by {
            if a.cells[i] is None {
                if b.cells[i] is Some {
                    assert(a.cells[i] == b.cells[i]);
                }
            }
        }
        assert(a.cells =~= b.cells);
    }
}

/// A grid of `size * size` cells, split into blocks of `block_width` by `block_height`.
#[derive(Debug)]
pub struct SudokuGrid {
    block_width: usize,
    block_height: usize,
    size: usize,
    cells: Vec<Option<usize>>,
}

impl View for SudokuGrid {
    type V = GridModel;

    closed spec fn view(&self) -> GridModel {
        GridModel {
            block_width: self.block_width as nat,
            block_height: self.block_height as nat,
            cells: self.cells@,
        }
    }
}

impl SudokuGrid {
    /// The cached size agrees with the dimensions.
    pub closed spec fn fields_agree(&self) -> bool {
        &&& self.size == self.block_width * self.block_height
        &&& self.size * self.size <= usize::MAX
    }

    pub open spec fn wf(&self) -> bool {
        self@.wf() && self.fields_agree()
    }

    /// The number of cells fits in a `usize`.
    pub proof fn lemma_size_bound(&self)
        requires
            self.wf(),
        ensures
            self@.size() * self@.size() <= usize::MAX,
            self@.size() < usize::MAX,
    {
        let s = self@.size() as int;
        let w = self@.block_width as int;
        let h = self@.block_height as int;
        assert(w * h >= 1) by (nonlinear_arith)
            requires
                w >= 1,
                h >= 1,
        ;
        assert(s < usize::MAX) by (nonlinear_arith)
            requires
                s * s <= usize::MAX,
                s >= 1,
        ;
    }

    proof fn lemma_size(&self)
        requires
            self.wf(),
        ensures
            self.size as int == self@.size(),
            self.cells@.len() == self.size * self.size,
            self.size * self.size <= usize::MAX,
    {
    }

    pub fn new(block_width: usize, block_height: usize) -> (r: SudokuResult<SudokuGrid>)
        requires
            block_width > 0 && block_height > 0 ==> block_width * block_height * (block_width
                * block_height) <= usize::MAX,
        ensures
            (block_width == 0 || block_height == 0) <==> r is Err,
            r matches Err(e) ==> e == SudokuError::InvalidDimensions,
            r matches Ok(g) ==> g.wf() && g@ == GridModel::empty(block_width as nat, block_height as nat),
    {
        if block_width == 0 || block_height == 0 {
            return Err(SudokuError::InvalidDimensions);
        }
        assert(block_width * block_height <= usize::MAX) by (nonlinear_arith)
            requires
                block_width > 0,
                block_height > 0,
                block_width * block_height * (block_width * block_height) <= usize::MAX,
        ;
        let size = block_width * block_height;
        let cells: Vec<Option<usize>> = vec![None; size * size];
        let r = SudokuGrid { block_width, block_height, size, cells };
        assert(r@.cells =~= GridModel::empty(block_width as nat, block_height as nat).cells);
        Ok(r)
    }

    /// Reads a grid from its textual form `<block_width>x<block_height>;<cells>`.
    pub fn parse(code: &str) -> (r: SudokuParseResult<SudokuGrid>)
        ensures
            match r {
                Ok(g) => g.wf() && parse_grid(code.spec_bytes()) == Ok::<GridModel, SudokuParseError>(g@),
                Err(e) => parse_grid(code.spec_bytes()) == Err::<GridModel, SudokuParseError>(e),
            },
    {
        let bytes = code.as_bytes();
        let ghost s = bytes@;
        let n = bytes.len();
        assert(s.subrange(0, n as int) =~= s);
        let parts = split_ranges(bytes, 0, n, 59);
        if parts.len() != 2 {
            return Err(SudokuParseError::WrongNumberOfParts);
        }
        let (d0, d1) = parts[0];
        let (c0, c1) = parts[1];
        proof {
            assert(s.subrange(d0 as int, d1 as int) == split(s, 59)[0]);
            assert(s.subrange(c0 as int, c1 as int) == split(s, 59)[1]);
        }
        let (block_width, block_height) = parse_dimensions(bytes, d0, d1)?;
        if block_width == 0 || block_height == 0 {
            return Err(SudokuParseError::InvalidDimensions);
        }
        let cells = split_ranges(bytes, c0, c1, 44);
        let ghost texts = split(split(s, 59)[1], 44);
        assert(cells@.len() == texts.len());
        let cell_count = cells.len();
        let size = match block_width.checked_mul(block_height) {
            Some(size) => size,
            None => {
                proof {
                    let p = block_width as int * block_height as int;
                    assert(p * p >= p) by (nonlinear_arith)
                        requires
                            p >= 1,
                    ;
                }
                return Err(SudokuParseError::WrongNumberOfCells);
            },
        };
        let count = match size.checked_mul(size) {
            Some(count) => count,
            None => {
                return Err(SudokuParseError::WrongNumberOfCells);
            },
        };
        if cell_count != count {
            return Err(SudokuParseError::WrongNumberOfCells);
        }
        let mut grid_cells: Vec<Option<usize>> = Vec::new();
        let mut i: usize = 0;
        while i < count
            invariant
                s == bytes@,
                s == code.spec_bytes(),
                texts == split(split(s, 59)[1], 44),
                split(s, 59).len() == 2,
                split(split(s, 59)[0], 120).len() == 2,
                parse_usize(split(split(s, 59)[0], 120)[0]) == Some(block_width),
                parse_usize(split(split(s, 59)[0], 120)[1]) == Some(block_height),
                cells@.len() == count,
                texts.len() == count,
                count == size * size,
                size == block_width * block_height,
                1 <= block_width,
                1 <= block_height,
                i <= count,
                forall|k: int| 0 <= k < cells@.len() ==> (#[trigger] cells@[k]).0 <= cells@[k].1 <= s.len()
                    && s.subrange(cells@[k].0 as int, cells@[k].1 as int) == texts[k],
                first_cell_error(texts, size as nat, i as int) is None,
                grid_cells@ == texts.subrange(0, i as int).map_values(|t: Seq<u8>| cell_entry(t)),
                forall|k: int| 0 <= k < grid_cells@.len() ==> (#[trigger] grid_cells@[k] matches Some(v) ==> 1 <= v <= size),
            decreases count - i,
        {
            let (a, b) = cells[i];
            proof {
                assert(cells@[i as int].0 <= cells@[i as int].1 <= s.len());
                assert(s.subrange(a as int, b as int) == texts[i as int]);
            }
            let (ta, tb) = trim_range(bytes, a, b);
            assert(s.subrange(ta as int, tb as int) == trim(texts[i as int]));
            assert(texts.subrange(0, i + 1).map_values(|t: Seq<u8>| cell_entry(t)) =~= texts.subrange(0, i as int).map_values(
                |t: Seq<u8>| cell_entry(t),
            ).push(cell_entry(texts[i as int])));
            if ta == tb {
                grid_cells.push(None);
            } else {
                match parse_number(bytes, ta, tb) {
                    None => {
                        proof {
                            lemma_first_error_stays(texts, size as nat, i + 1, count as int);
                        }
                        return Err(SudokuParseError::NumberFormatError);
                    },
                    Some(v) => {
                        if v == 0 || v > size {
                            proof {
                                lemma_first_error_stays(texts, size as nat, i + 1, count as int);
                            }
                            return Err(SudokuParseError::InvalidNumber);
                        }
                        grid_cells.push(Some(v));
                    },
                }
            }
            i = i + 1;
        }
        proof {
            assert(texts.subrange(0, count as int) =~= texts);
        }
        Ok(SudokuGrid { block_width, block_height, size, cells: grid_cells })
    }

    /// The textual form that `parse` reads back.
    pub fn to_parseable_string(&self) -> (r: String)
        requires
            self.wf(),
        ensures
            r@ == printed(self@).map_values(|b: u8| b as char),
            vstd::utf8::encode_utf8(r@) == printed(self@),
    {
        let mut out: Vec<u8> = Vec::new();
        push_decimal(&mut out, self.block_width);
        out.push(120);
        push_decimal(&mut out, self.block_height);
        out.push(59);
        let ghost head = out@;
        let n = self.cells.len();
        let mut i: usize = 0;
        proof {
            assert(self.cells@.subrange(0, 0) =~= Seq::<Option<usize>>::empty());
            assert(head + join_cells(Seq::<Option<usize>>::empty()) =~= head);
        }
        while i < n
            invariant
                n == self.cells@.len(),
                i <= n,
                out@ == head + join_cells(self.cells@.subrange(0, i as int)),
            decreases n - i,
        {
            let ghost before = out@;
            if i > 0 {
                out.push(44);
            }
            if let Some(v) = self.cells[i] {
                push_decimal(&mut out, v);
            }
            proof {
                let sub = self.cells@.subrange(0, i + 1);
                assert(sub.drop_last() =~= self.cells@.subrange(0, i as int));
                if i == 0 {
                    assert(out@ =~= head + join_cells(sub));
                } else {
                    assert(out@ =~= head + join_cells(sub));
                }
            }
            i = i + 1;
        }
        proof {
            assert(self.cells@.subrange(0, n as int) =~= self.cells@);
            assert(out@ =~= printed(self@));
            lemma_printed_ascii(self@);
        }
        let r = ascii_string(out);
        proof {
            lemma_ascii_text(printed(self@), r@);
        }
        r
    }

    /// A grid with the given dimensions and cells, checked as `new` and `set_cell` check
    /// them: the dimensions must be positive and match the number of cells, and every
    /// digit must lie in `[1, size]`.
    pub fn from_cells(block_width: usize, block_height: usize, cells: Vec<Option<usize>>) -> (r: SudokuResult<SudokuGrid>)
        requires
            block_width > 0 && block_height > 0 ==> block_width * block_height * (block_width
                * block_height) <= usize::MAX,
        ensures
            r is Ok <==> (block_width > 0 && block_height > 0 && (GridModel {
                block_width: block_width as nat,
                block_height: block_height as nat,
                cells: cells@,
            }).wf()),
            r matches Err(e) ==> (e == SudokuError::InvalidNumber <==> (block_width > 0 && block_height > 0
                && cells@.len() == block_width * block_height * (block_width * block_height))),
            r matches Err(e) ==> e == SudokuError::InvalidNumber || e == SudokuError::InvalidDimensions,
            r matches Ok(g) ==> g.wf() && g@ == (GridModel {
                block_width: block_width as nat,
                block_height: block_height as nat,
                cells: cells@,
            }),
    {
        let empty = SudokuGrid::new(block_width, block_height)?;
        let size = empty.size;
        if cells.len() != size * size {
            return Err(SudokuError::InvalidDimensions);
        }
        let mut i: usize = 0;
        while i < cells.len()
            invariant
                i <= cells@.len(),
                size == block_width * block_height,
                cells@.len() == size * size,
                block_width > 0,
                block_height > 0,
                forall|j: int| 0 <= j < i ==> (#[trigger] cells@[j] matches Some(n) ==> 1 <= n <= size),
            decreases cells@.len() - i,
        {
            if let Some(n) = cells[i] {
                if n == 0 || n > size {
                    return Err(SudokuError::InvalidNumber);
                }
            }
            i = i + 1;
        }
        Ok(SudokuGrid { block_width, block_height, size, cells })
    }

    pub fn block_width(&self) -> (r: usize)
        ensures
            r == self@.block_width,
    {
        self.block_width
    }

    pub fn block_height(&self) -> (r: usize)
        ensures
            r == self@.block_height,
    {
        self.block_height
    }

    pub fn size(&self) -> (r: usize)
        requires
            self.wf(),
        ensures
            r == self@.size(),
    {
        self.size
    }

    pub fn get_cell(&self, column: usize, row: usize) -> (r: SudokuResult<Option<usize>>)
        requires
            self.wf(),
        ensures
            self@.in_bounds(column as int, row as int) <==> r is Ok,
            r matches Err(e) ==> e == SudokuError::OutOfBounds,
            r matches Ok(c) ==> c == self@.cell(column as int, row as int),
    {
        proof {
            self.lemma_size();
        }
        let index = index(column, row, self.size)?;
        Ok(self.cells[index])
    }

    pub fn has_number(&self, column: usize, row: usize, number: usize) -> (r: SudokuResult<bool>)
        requires
            self.wf(),
        ensures
            self@.in_bounds(column as int, row as int) <==> r is Ok,
            r matches Err(e) ==> e == SudokuError::OutOfBounds,
            r matches Ok(b) ==> b == (self@.cell(column as int, row as int) == Some(number)),
    {
        if let Some(content) = self.get_cell(column, row)? {
            Ok(number == content)
        } else {
            Ok(false)
        }
    }

    pub fn set_cell(&mut self, column: usize, row: usize, number: usize) -> (r: SudokuResult<()>)
        requires
            old(self).wf(),
        ensures
            final(self).wf(),
            (old(self)@.in_bounds(column as int, row as int) && 1 <= number <= old(self)@.size())
                <==> r is Ok,
            r matches Err(e) ==> final(self)@ == old(self)@ && if old(self)@.in_bounds(column as int, row as int) {
                e == SudokuError::InvalidNumber
            } else {
                e == SudokuError::OutOfBounds
            },
            r is Ok ==> final(self)@ == (GridModel {
                cells: old(self)@.cells.update(old(self)@.index(column as int, row as int), Some(number)),
                ..old(self)@
            }),
    {
        proof {
            self.lemma_size();
        }
        let size = self.size;
        let index = index(column, row, size)?;
        if number == 0 || number > size {
            return Err(SudokuError::InvalidNumber);
        }
        self.cells.set(index, Some(number));
        Ok(())
    }

    pub fn clear_cell(&mut self, column: usize, row: usize) -> (r: SudokuResult<()>)
        requires
            old(self).wf(),
        ensures
            final(self).wf(),
            old(self)@.in_bounds(column as int, row as int) <==> r is Ok,
            r matches Err(e) ==> e == SudokuError::OutOfBounds && final(self)@ == old(self)@,
            r is Ok ==> final(self)@ == (GridModel {
                cells: old(self)@.cells.update(old(self)@.index(column as int, row as int), None),
                ..old(self)@
            }),
    {
        proof {
            self.lemma_size();
        }
        let index = index(column, row, self.size)?;
        self.cells.set(index, None);
        Ok(())
    }
    fn verify_dimensions(&self, other: &SudokuGrid) -> (r: SudokuResult<()>)
        ensures
            self@.same_dimensions(other@) <==> r is Ok,
            r matches Err(e) ==> e == SudokuError::InvalidDimensions,
    {
        if self.block_width != other.block_width || self.block_height != other.block_height {
            Err(SudokuError::InvalidDimensions)
        } else {
            Ok(())
        }
    }

    pub fn assign(&mut self, other: &SudokuGrid) -> (r: SudokuResult<()>)
        requires
            old(self).wf(),
            other.wf(),
        ensures
            final(self).wf(),
            old(self)@.same_dimensions(other@) <==> r is Ok,
            r matches Err(e) ==> e == SudokuError::InvalidDimensions && final(self)@ == old(self)@,
            r is Ok ==> final(self)@ == other@,
    {
        self.verify_dimensions(other)?;
        let n = self.cells.len();
        let mut i: usize = 0;
        while i < n
            invariant
                n == self.cells@.len(),
                n == other.cells@.len(),
                i <= n,
                self.block_width == old(self).block_width,
                self.block_height == old(self).block_height,
                self.size == old(self).size,
                forall|j: int| 0 <= j < i ==> self.cells@[j] == other.cells@[j],
                forall|j: int| i <= j < n ==> self.cells@[j] == old(self).cells@[j],
            decreases n - i,
        {
            self.cells.set(i, other.cells[i]);
            i = i + 1;
        }
        assert(self.cells@ =~= other.cells@);
        Ok(())
    }

    pub fn count_clues(&self) -> (r: usize)
        requires
            self.wf(),
        ensures
            r == clues_below(self@.cells, self@.cells.len() as int),
    {
        let n = self.cells.len();
        let mut clues: usize = 0;
        let mut i: usize = 0;
        while i < n
            invariant
                n == self.cells@.len(),
                i <= n,
                clues == clues_below(self.cells@, i as int),
                clues <= i,
            decreases n - i,
        {
            if self.cells[i].is_some() {
                clues = clues + 1;
            }
            i = i + 1;
        }
        clues
    }

    pub fn is_full(&self) -> (r: bool)
        ensures
            r == self@.is_full(),
    {
        let n = self.cells.len();
        let mut i: usize = 0;
        while i < n
            invariant
                n == self.cells@.len(),
                i <= n,
                forall|j: int| 0 <= j < i ==> self.cells@[j] is Some,
            decreases n - i,
        {
            if self.cells[i].is_none() {
                return false;
            }
            i = i + 1;
        }
        true
    }

    pub fn is_empty(&self) -> (r: bool)
        ensures
            r == self@.is_empty(),
    {
        let n = self.cells.len();
        let mut i: usize = 0;
        while i < n
            invariant
                n == self.cells@.len(),
                i <= n,
                forall|j: int| 0 <= j < i ==> self.cells@[j] is None,
            decreases n - i,
        {
            if self.cells[i].is_some() {
                return false;
            }
            i = i + 1;
        }
        true
    }

    pub fn is_subset(&self, other: &SudokuGrid) -> (r: SudokuResult<bool>)
        requires
            self.wf(),
            other.wf(),
        ensures
            self@.same_dimensions(other@) <==> r is Ok,
            r matches Err(e) ==> e == SudokuError::InvalidDimensions,
            r matches Ok(b) ==> b == self@.is_subset(other@),
    {
        self.verify_dimensions(other)?;
        let n = self.cells.len();
        let mut i: usize = 0;
        while i < n
            invariant
                n == self.cells@.len(),
                n == other.cells@.len(),
                self@.same_dimensions(other@),
                i <= n,
                forall|j: int| 0 <= j < i ==> (#[trigger] self.cells@[j] matches Some(x) ==> other.cells@[j] == Some(x)),
            decreases n - i,
        {
            if let Some(x) = self.cells[i] {
                match other.cells[i] {
                    Some(y) => {
                        if x != y {
                            return Ok(false);
                        }
                    },
                    None => {
                        return Ok(false);
                    },
                }
            }
            i = i + 1;
        }
        Ok(true)
    }

    pub fn is_superset(&self, other: &SudokuGrid) -> (r: SudokuResult<bool>)
        requires
            self.wf(),
            other.wf(),
        ensures
            self@.same_dimensions(other@) <==> r is Ok,
            r matches Err(e) ==> e == SudokuError::InvalidDimensions,
            r matches Ok(b) ==> b == other@.is_subset(self@),
    {
        other.is_subset(self)
    }

    pub fn cells(&self) -> (r: &Vec<Option<usize>>)
        ensures
            r@ == self@.cells,
    {
        &self.cells
    }

    /// Direct access to the cells. Writing a digit outside `[1, size]` or changing the
    /// number of cells breaks the grid's invariant.
    pub fn cells_mut(&mut self) -> (r: &mut Vec<Option<usize>>)
        ensures
            r@ == old(self)@.cells,
            final(self)@ == (GridModel { cells: final(r)@, ..old(self)@ }),
            old(self).fields_agree() ==> final(self).fields_agree(),
    {
        &mut self.cells
    }
}

impl Clone for SudokuGrid {
    fn clone(&self) -> (r: SudokuGrid)
        ensures
            r@ == self@,
            self.wf() ==> r.wf(),
    {
        let mut cells: Vec<Option<usize>> = Vec::new();
        let mut i: usize = 0;
        while i < self.cells.len()
            invariant
                i <= self.cells@.len(),
                cells@ == self.cells@.subrange(0, i as int),
            decreases self.cells@.len() - i,
        {
            cells.push(self.cells[i]);
            i = i + 1;
        }
        assert(cells@ =~= self.cells@);
        SudokuGrid { block_width: self.block_width, block_height: self.block_height, size: self.size, cells }
    }
}

impl PartialEq for SudokuGrid {
    fn eq(&self, other: &SudokuGrid) -> (r: bool)
        ensures
            r == (self@ == other@),
    {
        if self.block_width != other.block_width || self.block_height != other.block_height
            || self.cells.len() != other.cells.len() {
            return false;
        }
        let n = self.cells.len();
        let mut i: usize = 0;
        while i < n
            invariant
                n == self.cells@.len(),
                n == other.cells@.len(),
                i <= n,
                forall|j: int| 0 <= j < i ==> self.cells@[j] == other.cells@[j],
            decreases n - i,
        {
            let same = match (self.cells[i], other.cells[i]) {
                (Some(x), Some(y)) => x == y,
                (None, None) => true,
                _ => false,
            };
            if !same {
                return false;
            }
            i = i + 1;
        }
        assert(self.cells@ =~= other.cells@);
        true
    }
}

impl vstd::std_specs::cmp::PartialEqSpecImpl for SudokuGrid {
    open spec fn obeys_eq_spec() -> bool {
        true
    }

    open spec fn eq_spec(&self, other: &SudokuGrid) -> bool {
        self@ == other@
    }
}

impl Eq for SudokuGrid {
}

/// The row-major index of a cell, if both coordinates lie within the grid.
pub(crate) fn index(column: usize, row: usize, size: usize) -> (r: SudokuResult<usize>)
    requires
        size * size <= usize::MAX,
    ensures
        (column < size && row < size) <==> r is Ok,
        r matches Err(e) ==> e == SudokuError::OutOfBounds,
        r matches Ok(i) ==> i == row * size + column && i < size * size,
{
    if column < size && row < size {
        proof {
            lemma_index_in_bounds(column as int, row as int, size as int);
        }
        Ok(row * size + column)
    } else {
        Err(SudokuError::OutOfBounds)
    }
}

} // verus!
