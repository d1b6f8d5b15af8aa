use vstd::prelude::*;
use vstd::std_specs::cmp::PartialEqSpec;

verus! {

/// Bit `b` (counted from the least significant end) of a 64-bit word.
pub open spec fn word_bit(w: u64, b: u64) -> bool {
    (w >> b) & 1u64 == 1u64
}

/// Position `k` of a sequence of packed words, 64 positions per word.
pub open spec fn bit_at(words: Seq<u64>, k: int) -> bool {
    word_bit(words[k / 64], (k % 64) as u64)
}

/// Number of set positions among the first `k`.
pub open spec fn pos_count(words: Seq<u64>, k: int) -> nat
    decreases k,
{
    if k <= 0 {
        0
    } else {
        pos_count(words, k - 1) + if bit_at(words, k - 1) { 1nat } else { 0nat }
    }
}

/// The members in `[lower, lower + k)` of a set whose position `p` stands for `lower + p`.
pub open spec fn members_below(words: Seq<u64>, lower: int, k: int) -> Set<int> {
    Set::new(|n: int| lower <= n < lower + k && bit_at(words, n - lower))
}

proof fn lemma_members_below(words: Seq<u64>, lower: int, k: int)
    requires
        0 <= k,
    ensures
        members_below(words, lower, k).finite(),
        members_below(words, lower, k).len() == pos_count(words, k),
    decreases k,
{
    if k == 0 {
        assert(members_below(words, lower, k) =~= Set::<int>::empty());
    } else {
        lemma_members_below(words, lower, k - 1);
        let prev = members_below(words, lower, k - 1);
        if bit_at(words, k - 1) {
            assert(members_below(words, lower, k) =~= prev.insert(lower + k - 1));
        } else {
            assert(members_below(words, lower, k) =~= prev);
        }
    }
}

proof fn lemma_pos_count_bound(words: Seq<u64>, k: int)
    requires
        0 <= k,
    ensures
        pos_count(words, k) <= k,
    decreases k,
{
    if k > 0 {
        lemma_pos_count_bound(words, k - 1);
    }
}

proof fn lemma_pos_count_zero_tail(words: Seq<u64>, a: int, b: int)
    requires
        0 <= a <= b,
        forall|k: int| a <= k < b ==> !bit_at(words, k),
    ensures
        pos_count(words, b) == pos_count(words, a),
    decreases b - a,
{
    if b > a {
        lemma_pos_count_zero_tail(words, a, b - 1);
    }
}

proof fn lemma_pos_count_full(words: Seq<u64>, k: int)
    requires
        0 <= k,
        forall|j: int| 0 <= j < k ==> bit_at(words, j),
    ensures
        pos_count(words, k) == k,
    decreases k,
{
    if k > 0 {
        lemma_pos_count_full(words, k - 1);
    }
}

proof fn lemma_word_index(i: int, b: int)
    requires
        0 <= i,
        0 <= b < 64,
    ensures
        (64 * i + b) / 64 == i,
        (64 * i + b) % 64 == b,
{
    vstd::arithmetic::div_mod::lemma_fundamental_div_mod_converse(64 * i + b, 64, i, b);
}

proof fn lemma_zero_word(b: u64)
    ensures
        !word_bit(0, b),
{
    assert((0u64 >> b) & 1u64 != 1u64) by (bit_vector);
}

proof fn lemma_low_bit(x: u64)
    ensures
        x & 1u64 != 0u64 ==> x & 1u64 == 1u64,
{
    assert(x & 1u64 != 0u64 ==> x & 1u64 == 1u64) by (bit_vector);
}

proof fn lemma_low_ones(r: u64, i: u64)
    requires
        0 < r < 64,
        i < 64,
    ensures
        word_bit(((1u64 << r) - 1) as u64, i) == (i < r),
        word_bit(!0u64, i),
{
    assert(((((1u64 << r) - 1) as u64) >> i) & 1u64 == 1u64 <==> i < r) by (bit_vector)
        requires
            0 < r < 64,
            i < 64,
    ;
    assert(((!0u64) >> i) & 1u64 == 1u64) by (bit_vector)
        requires
            i < 64,
    ;
}

proof fn lemma_mask_bits(w: u64, b: u64, i: u64)
    requires
        b < 64,
        i < 64,
    ensures
        (w & (1u64 << b) != 0) == word_bit(w, b),
        word_bit(w | (1u64 << b), i) == (word_bit(w, i) || i == b),
        word_bit(w & !(1u64 << b), i) == (word_bit(w, i) && i != b),
{
    assert((w & (1u64 << b) != 0) == ((w >> b) & 1u64 == 1u64)) by (bit_vector)
        requires
            b < 64,
    ;
    assert(((w | (1u64 << b)) >> i) & 1u64 == 1u64 <==> ((w >> i) & 1u64 == 1u64 || i == b))
        by (bit_vector)
        requires
            b < 64,
            i < 64,
    ;
    assert(((w & !(1u64 << b)) >> i) & 1u64 == 1u64 <==> ((w >> i) & 1u64 == 1u64 && i != b))
        by (bit_vector)
        requires
            b < 64,
            i < 64,
    ;
}

/// Splits a position into its word and its bit within the word.
proof fn lemma_split_pos(k: int)
    requires
        0 <= k,
    ensures
        k == 64 * (k / 64) + k % 64,
        0 <= k % 64 < 64,
        0 <= k / 64,
{
    vstd::arithmetic::div_mod::lemma_fundamental_div_mod(k, 64);
}

/// Word-wise operations of the set algebra.
#[derive(Clone, Copy)]
enum WordOp {
    Union,
    Intersect,
    Difference,
    SymmetricDifference,
}

spec fn word_op(op: WordOp, a: u64, b: u64) -> u64 {
    match op {
        WordOp::Union => a | b,
        WordOp::Intersect => a & b,
        WordOp::Difference => a & !b,
        WordOp::SymmetricDifference => a ^ b,
    }
}

spec fn bool_op(op: WordOp, x: bool, y: bool) -> bool {
    match op {
        WordOp::Union => x || y,
        WordOp::Intersect => x && y,
        WordOp::Difference => x && !y,
        WordOp::SymmetricDifference => x != y,
    }
}

/// The symmetric difference of two sets.
pub open spec fn sym_diff(a: Set<int>, b: Set<int>) -> Set<int> {
    a.difference(b).union(b.difference(a))
}

spec fn set_op(op: WordOp, a: Set<int>, b: Set<int>) -> Set<int> {
    match op {
        WordOp::Union => a.union(b),
        WordOp::Intersect => a.intersect(b),
        WordOp::Difference => a.difference(b),
        WordOp::SymmetricDifference => sym_diff(a, b),
    }
}

fn apply_word_op(op: WordOp, a: u64, b: u64) -> (r: u64)
    ensures
        r == word_op(op, a, b),
{
    match op {
        WordOp::Union => a | b,
        WordOp::Intersect => a & b,
        WordOp::Difference => a & !b,
        WordOp::SymmetricDifference => a ^ b,
    }
}

proof fn lemma_word_op(op: WordOp, a: u64, b: u64, i: u64)
    requires
        i < 64,
    ensures
        word_bit(word_op(op, a, b), i) == bool_op(op, word_bit(a, i), word_bit(b, i)),
{
    match op {
        WordOp::Union => {
            assert(((a | b) >> i) & 1u64 == 1u64 <==> ((a >> i) & 1u64 == 1u64 || (b >> i) & 1u64 == 1u64))
                by (bit_vector);
        },
        WordOp::Intersect => {
            assert(((a & b) >> i) & 1u64 == 1u64 <==> ((a >> i) & 1u64 == 1u64 && (b >> i) & 1u64 == 1u64))
                by (bit_vector);
        },
        WordOp::Difference => {
            assert(((a & !b) >> i) & 1u64 == 1u64 <==> ((a >> i) & 1u64 == 1u64 && !((b >> i) & 1u64 == 1u64)))
                by (bit_vector)
                requires
                    i < 64,
            ;
        },
        WordOp::SymmetricDifference => {
            assert(((a ^ b) >> i) & 1u64 == 1u64 <==> ((a >> i) & 1u64 == 1u64) != ((b >> i) & 1u64 == 1u64))
                by (bit_vector);
        },
    }
}

proof fn lemma_not_bits(w: u64, r: u64, i: u64)
    requires
        0 < r < 64,
        i < 64,
    ensures
        word_bit(!w, i) == !word_bit(w, i),
        word_bit(w ^ (((1u64 << r) - 1) as u64), i) == (if i < r { !word_bit(w, i) } else { word_bit(w, i) }),
{
    assert(((!w) >> i) & 1u64 == 1u64 <==> !((w >> i) & 1u64 == 1u64)) by (bit_vector)
        requires
            i < 64,
    ;
    assert(((w ^ (((1u64 << r) - 1) as u64)) >> i) & 1u64 == 1u64 <==> (if i < r {
        !((w >> i) & 1u64 == 1u64)
    } else {
        (w >> i) & 1u64 == 1u64
    })) by (bit_vector)
        requires
            0 < r < 64,
            i < 64,
    ;
}

/// A nonzero word has a set bit.
proof fn lemma_nonzero_word(w: u64) -> (i: u64)
    requires
        w != 0,
    ensures
        i < 64,
        word_bit(w, i),
{
    vstd::std_specs::bits::axiom_u64_trailing_zeros(w);
    vstd::std_specs::bits::u64_trailing_zeros(w) as u64
}

/// Two different words differ in some bit.
proof fn lemma_word_diff(a: u64, b: u64) -> (i: u64)
    requires
        a != b,
    ensures
        i < 64,
        word_bit(a, i) != word_bit(b, i),
{
    assert(a ^ b != 0) by (bit_vector)
        requires
            a != b,
    ;
    let i = lemma_nonzero_word(a ^ b);
    lemma_word_op(WordOp::SymmetricDifference, a, b, i);
    i
}

proof fn lemma_proper_subset_len(a: Set<int>, b: Set<int>)
    requires
        a.subset_of(b),
        b.finite(),
    ensures
        a.len() <= b.len(),
        a.len() < b.len() <==> a != b,
{
    vstd::set_lib::lemma_len_subset(a, b);
    if a != b {
        let x = choose|x: int| b.contains(x) && !a.contains(x);
        assert(exists|x: int| b.contains(x) && !a.contains(x)) by {
            if !(exists|x: int| b.contains(x) && !a.contains(x)) {
                assert(a =~= b);
            }
        }
        vstd::set_lib::lemma_len_subset(a, b.remove(x));
    }
}

#[derive(Debug, PartialEq, Eq, Structural, Clone, Copy)]
pub enum USizeSetError {
    InvalidBounds,
    DifferentBounds,
    OutOfBounds,
}

/// A set of integers within fixed inclusive bounds, one bit per possible member.
#[derive(Debug)]
pub struct USizeSet {
    lower: usize,
    upper: usize,
    len: usize,
    content: Vec<u64>,
}

/// Number of words needed for the bounds `[lower, upper]`.
pub open spec fn word_count(lower: int, upper: int) -> int {
    (upper - lower) / 64 + 1
}

impl View for USizeSet {
    type V = Set<int>;

    closed spec fn view(&self) -> Set<int> {
        members_below(self.content@, self.lower as int, self.span())
    }
}

impl USizeSet {
    /// Equal bounds, cached length and words.
    pub closed spec fn same_repr(&self, other: &USizeSet) -> bool {
        &&& self.lower == other.lower
        &&& self.upper == other.upper
        &&& self.len == other.len
        &&& self.content@ == other.content@
    }

    /// Two well-formed sets have the same representation exactly when they have
    /// the same bounds and the same members.
    pub proof fn lemma_same_repr(&self, other: &USizeSet)
        requires
            self.wf(),
            other.wf(),
        ensures
            self.same_repr(other) <==> (self.spec_lower() == other.spec_lower()
                && self.spec_upper() == other.spec_upper() && self@ == other@),
    {
        if self.lower == other.lower && self.upper == other.upper && self@ == other@ {
            self.lemma_view();
            other.lemma_view();
            assert forall|j: int| 0 <= j < self.content@.len() implies self.content@[j] == other.content@[j] by {
                if self.content@[j] != other.content@[j] {
                    let b = lemma_word_diff(self.content@[j], other.content@[j]);
                    let k = 64 * j + b;
                    lemma_word_index(j, b as int);
                    if k >= self.span() {
                        assert(!bit_at(self.content@, k));
                        assert(!bit_at(other.content@, k));
                    }
                    assert(self@.contains(self.lower + k) != other@.contains(self.lower + k));
                }
            }
            assert(self.content@ =~= other.content@);
        }
    }

    closed spec fn span(&self) -> int {
        self.upper - self.lower + 1
    }

    pub closed spec fn spec_lower(&self) -> int {
        self.lower as int
    }

    pub closed spec fn spec_upper(&self) -> int {
        self.upper as int
    }

    /// The representation invariant: bounds in order, the right number of words,
    /// no bit set beyond the upper bound, and the cached length is the population count.
    pub closed spec fn wf(&self) -> bool {
        &&& self.shape()
        &&& self.len == pos_count(self.content@, self.span())
    }

    /// The invariant but for the cached length.
    closed spec fn shape(&self) -> bool {
        &&& self.lower <= self.upper
        &&& self.upper - self.lower < usize::MAX
        &&& self.content@.len() == word_count(self.lower as int, self.upper as int)
        &&& forall|k: int|
            self.span() <= k < 64 * self.content@.len() ==> !bit_at(self.content@, k)
    }

    proof fn lemma_view(&self)
        requires
            self.wf(),
        ensures
            self@.finite(),
            self@.len() == self.len,
            forall|n: int| #[trigger] self@.contains(n) ==> self.lower <= n <= self.upper,
            self.len <= self.span(),
    {
        lemma_members_below(self.content@, self.lower as int, self.span());
        lemma_pos_count_bound(self.content@, self.span());
    }

    /// What every well-formed set satisfies: ordered bounds, finitely many members, all
    /// within the bounds, and so at most `upper - lower + 1` of them.
    pub proof fn lemma_wf(&self)
        requires
            self.wf(),
        ensures
            self.spec_lower() <= self.spec_upper(),
            self@.finite(),
            forall|n: int| #[trigger] self@.contains(n) ==> self.spec_lower() <= n <= self.spec_upper(),
            self@.len() <= self.spec_upper() - self.spec_lower() + 1,
            self@.subset_of(full_range(self.spec_lower(), self.spec_upper())),
    {
        self.lemma_view();
    }

    pub fn new(lower: usize, upper: usize) -> (r: Result<USizeSet, USizeSetError>)
        requires
            lower <= upper ==> upper - lower < usize::MAX,
        ensures
            lower > upper <==> r is Err,
            r matches Err(e) ==> e is InvalidBounds,
            r matches Ok(s) ==> s.wf() && s.spec_lower() == lower && s.spec_upper() == upper
                && s@ == Set::<int>::empty(),
    {
        if lower > upper {
            Err(USizeSetError::InvalidBounds)
        } else {
            let required_words = (upper - lower) / 64 + 1;
            let content = vec![0u64; required_words];
            let r = USizeSet { lower, upper, len: 0, content };
            proof {
                assert forall|k: int| 0 <= k < 64 * r.content@.len() implies !bit_at(r.content@, k) by {
                    lemma_zero_word((k % 64) as u64);
                }
                lemma_pos_count_zero_tail(r.content@, 0, r.span());
                assert(r@ =~= Set::<int>::empty());
            }
            Ok(r)
        }
    }

    pub fn singleton(lower: usize, upper: usize, content: usize) -> (r: Result<USizeSet, USizeSetError>)
        requires
            lower <= upper ==> upper - lower < usize::MAX,
        ensures
            (lower <= content <= upper) <==> r is Ok,
            r matches Err(e) ==> (if lower > upper { e is InvalidBounds } else { e is OutOfBounds }),
            r matches Ok(s) ==> s.wf() && s.spec_lower() == lower && s.spec_upper() == upper
                && s@ == set![content as int],
    {
        let mut result = USizeSet::new(lower, upper)?;
        let ins = result.insert(content);
        match ins {
            Ok(_) => {
                assert(result@ =~= set![content as int]);
                Ok(result)
            },
            Err(e) => Err(e),
        }
    }

    fn compute_index(&self, number: usize) -> (r: Result<(usize, u64), USizeSetError>)
        requires
            self.wf(),
        ensures
            (self.lower <= number <= self.upper) <==> r is Ok,
            r matches Err(e) ==> e is OutOfBounds,
            r matches Ok((w, m)) ==> w == (number - self.lower) / 64
                && w < self.content@.len()
                && m == 1u64 << (((number - self.lower) % 64) as u64),
    {
        if number < self.lower || number > self.upper {
            Err(USizeSetError::OutOfBounds)
        } else {
            let index = number - self.lower;
            let word_index = index / 64;
            let sub_word_index = (index % 64) as u64;
            let mask = 1u64 << sub_word_index;
            proof {
                vstd::arithmetic::div_mod::lemma_div_is_ordered(
                    index as int, (self.upper - self.lower) as int, 64);
            }
            Ok((word_index, mask))
        }
    }

    pub fn lower(&self) -> (r: usize)
        ensures
            r == self.spec_lower(),
    {
        self.lower
    }

    pub fn upper(&self) -> (r: usize)
        ensures
            r == self.spec_upper(),
    {
        self.upper
    }

    pub fn contains(&self, number: usize) -> (r: bool)
        requires
            self.wf(),
        ensures
            r == self@.contains(number as int),
    {
        proof { self.lemma_view(); }
        if let Ok((word_index, mask)) = self.compute_index(number) {
            let ghost k = (number - self.lower) as int;
            proof {
                lemma_split_pos(k);
                lemma_mask_bits(self.content@[word_index as int], (k % 64) as u64, 0);
            }
            (self.content[word_index] & mask) != 0
        } else {
            false
        }
    }

    /// Replaces the word at `wi` by `new_word`, which differs from it in the bit of
    /// position `k` alone; the view gains or loses `lower + k` accordingly.
    proof fn lemma_replace_word(&self, wi: int, new_word: u64, k: int, now_set: bool)
        requires
            self.wf(),
            0 <= k < self.span(),
            wi == k / 64,
            forall|i: u64| i < 64 ==> #[trigger] word_bit(new_word, i) == (if i == (k % 64) as u64 {
                now_set
            } else {
                word_bit(self.content@[wi], i)
            }),
        ensures
            ({
                let words = self.content@.update(wi, new_word);
                &&& forall|j: int|
                    self.span() <= j < 64 * words.len() ==> !bit_at(words, j)
                &&& members_below(words, self.lower as int, self.span()) == (if now_set {
                    self@.insert(self.lower + k)
                } else {
                    self@.remove(self.lower + k)
                })
            }),
    {
        let words = self.content@.update(wi, new_word);
        lemma_split_pos(k);
        assert forall|j: int| 0 <= j < 64 * words.len() implies bit_at(words, j) == (if j == k {
            now_set
        } else {
            bit_at(self.content@, j)
        }) by {
            lemma_split_pos(j);
            if j / 64 == wi {
                assert(word_bit(new_word, (j % 64) as u64) == (if (j % 64) as u64 == (k % 64) as u64 {
                    now_set
                } else {
                    word_bit(self.content@[wi], (j % 64) as u64)
                }));
            }
        }
        let target = if now_set {
            self@.insert(self.lower + k)
        } else {
            self@.remove(self.lower + k)
        };
        assert forall|n: int| #[trigger] members_below(words, self.lower as int, self.span()).contains(n)
            <==> target.contains(n) by {
            if self.lower <= n < self.lower + self.span() {
                assert(0 <= n - self.lower < 64 * words.len()) by {
                    lemma_split_pos(self.span() - 1);
                }
            }
        }
        assert(members_below(words, self.lower as int, self.span()) =~= target);
    }

    pub fn insert(&mut self, number: usize) -> (r: Result<bool, USizeSetError>)
        requires
            old(self).wf(),
        ensures
            final(self).wf(),
            final(self).spec_lower() == old(self).spec_lower(),
            final(self).spec_upper() == old(self).spec_upper(),
            (old(self).spec_lower() <= number <= old(self).spec_upper()) <==> r is Ok,
            r matches Err(e) ==> e is OutOfBounds && final(self)@ == old(self)@,
            r matches Ok(changed) ==> final(self)@ == old(self)@.insert(number as int)
                && changed == !old(self)@.contains(number as int),
    {
        proof { self.lemma_view(); }
        let (word_index, mask) = self.compute_index(number)?;
        let ghost k = (number - self.lower) as int;
        let word = self.content[word_index];
        proof {
            lemma_split_pos(k);
            assert forall|i: u64| i < 64 implies #[trigger] word_bit(word | mask, i) == (if i == (k % 64) as u64 {
                true
            } else {
                word_bit(word, i)
            }) by {
                lemma_mask_bits(word, (k % 64) as u64, i);
            }
            lemma_mask_bits(word, (k % 64) as u64, 0);
        }
        if word & mask == 0 {
            proof {
                self.lemma_replace_word(word_index as int, word | mask, k, true);
                let words = self.content@.update(word_index as int, word | mask);
                lemma_members_below(words, self.lower as int, self.span());
                assert(!self@.contains(number as int));
                lemma_pos_count_bound(words, self.span());
            }
            self.content.set(word_index, word | mask);
            self.len = self.len + 1;
            Ok(true)
        } else {
            assert(self@.insert(number as int) =~= self@);
            Ok(false)
        }
    }

    pub fn remove(&mut self, number: usize) -> (r: Result<bool, USizeSetError>)
        requires
            old(self).wf(),
        ensures
            final(self).wf(),
            final(self).spec_lower() == old(self).spec_lower(),
            final(self).spec_upper() == old(self).spec_upper(),
            (old(self).spec_lower() <= number <= old(self).spec_upper()) <==> r is Ok,
            r matches Err(e) ==> e is OutOfBounds && final(self)@ == old(self)@,
            r matches Ok(changed) ==> final(self)@ == old(self)@.remove(number as int)
                && changed == old(self)@.contains(number as int),
    {
        proof { self.lemma_view(); }
        let (word_index, mask) = self.compute_index(number)?;
        let ghost k = (number - self.lower) as int;
        let word = self.content[word_index];
        proof {
            lemma_split_pos(k);
            assert forall|i: u64| i < 64 implies #[trigger] word_bit(word & !mask, i) == (if i == (k % 64) as u64 {
                false
            } else {
                word_bit(word, i)
            }) by {
                lemma_mask_bits(word, (k % 64) as u64, i);
            }
            lemma_mask_bits(word, (k % 64) as u64, 0);
        }
        if word & mask != 0 {
            proof {
                self.lemma_replace_word(word_index as int, word & !mask, k, false);
                let words = self.content@.update(word_index as int, word & !mask);
                lemma_members_below(words, self.lower as int, self.span());
                assert(self@.contains(number as int));
            }
            self.content.set(word_index, word & !mask);
            self.len = self.len - 1;
            Ok(true)
        } else {
            assert(self@.remove(number as int) =~= self@);
            Ok(false)
        }
    }
    pub fn range(lower: usize, upper: usize) -> (r: Result<USizeSet, USizeSetError>)
        requires
            lower <= upper ==> upper - lower < usize::MAX,
        ensures
            lower > upper <==> r is Err,
            r matches Err(e) ==> e is InvalidBounds,
            r matches Ok(s) ==> s.wf() && s.spec_lower() == lower && s.spec_upper() == upper
                && s@ == Set::new(|n: int| lower <= n <= upper),
    {
        if lower > upper {
            Err(USizeSetError::InvalidBounds)
        } else {
            let mut content: Vec<u64> = Vec::new();
            let ones = upper - lower + 1;
            let ones_words = ones / 64;
            let mut i: usize = 0;
            while i < ones_words
                invariant
                    i <= ones_words,
                    ones_words == ones / 64,
                    content@.len() == i,
                    forall|j: int| 0 <= j < i ==> content@[j] == !0u64,
                decreases ones_words - i,
            {
                content.push(!0u64);
                i = i + 1;
            }
            let remaining_ones = ones - ones_words * 64;
            if remaining_ones > 0 {
                assert(1u64 << (remaining_ones as u64) >= 1) by (bit_vector)
                    requires
                        remaining_ones < 64,
                ;
                content.push((1u64 << (remaining_ones as u64)) - 1);
            }
            let r = USizeSet { lower, upper, len: ones, content };
            proof {
                let words = r.content@;
                assert forall|k: int| 0 <= k < 64 * words.len() implies bit_at(words, k) == (k < ones) by {
                    lemma_split_pos(k);
                    if remaining_ones > 0 {
                        lemma_low_ones(remaining_ones as u64, (k % 64) as u64);
                    }
                    lemma_low_ones(1, (k % 64) as u64);
                }
                lemma_pos_count_full(words, ones as int);
                assert(r@ =~= Set::new(|n: int| lower <= n <= upper));
            }
            Ok(r)
        }
    }

    pub fn len(&self) -> (r: usize)
        requires
            self.wf(),
        ensures
            r == self@.len(),
    {
        proof { self.lemma_view(); }
        self.len
    }

    pub fn iter(&self) -> (r: USizeSetIter)
        requires
            self.wf(),
        ensures
            r.wf(),
            r.remaining() == self@,
    {
        USizeSetIter::new(self)
    }

    pub fn is_empty(&self) -> (r: bool)
        requires
            self.wf(),
        ensures
            r == (self@ == Set::<int>::empty()),
    {
        proof {
            self.lemma_view();
            if self.len != 0 {
                assert(self@.len() != 0);
            } else {
                assert(self@ =~= Set::<int>::empty());
            }
        }
        self.len == 0
    }

    pub fn clear(&mut self)
        requires
            old(self).wf(),
        ensures
            final(self).wf(),
            final(self).spec_lower() == old(self).spec_lower(),
            final(self).spec_upper() == old(self).spec_upper(),
            final(self)@ == Set::<int>::empty(),
    {
        let n = self.content.len();
        let mut i: usize = 0;
        while i < n
            invariant
                i <= n,
                n == self.content@.len(),
                self.lower == old(self).lower,
                self.upper == old(self).upper,
                self.content@.len() == old(self).content@.len(),
                forall|j: int| 0 <= j < i ==> self.content@[j] == 0u64,
            decreases n - i,
        {
            self.content.set(i, 0);
            i = i + 1;
        }
        self.len = 0;
        proof {
            assert forall|k: int| 0 <= k < 64 * self.content@.len() implies !bit_at(self.content@, k) by {
                lemma_split_pos(k);
                lemma_zero_word((k % 64) as u64);
            }
            lemma_pos_count_zero_tail(self.content@, 0, self.span());
            assert(self@ =~= Set::<int>::empty());
        }
    }

    pub fn min(&self) -> (r: Option<usize>)
        requires
            self.wf(),
        ensures
            r is None <==> self@ == Set::<int>::empty(),
            r matches Some(m) ==> self@.contains(m as int)
                && forall|n: int| #[trigger] self@.contains(n) ==> m <= n,
    {
        proof { self.lemma_view(); }
        let n = self.content.len();
        let mut index: usize = 0;
        while index < n
            invariant
                self.wf(),
                n == self.content@.len(),
                index <= n,
                forall|k: int| 0 <= k < 64 * index ==> !bit_at(self.content@, k),
            decreases n - index,
        {
            let word = self.content[index];
            let trailing_zeros = word.trailing_zeros() as usize;
            proof { vstd::std_specs::bits::axiom_u64_trailing_zeros(word); }
            if trailing_zeros < 64 {
                let ghost k = 64 * index + trailing_zeros;
                proof {
                    lemma_word_index(index as int, trailing_zeros as int);
                    assert(bit_at(self.content@, k));
                    if k >= self.span() {
                        assert(false);
                    }
                    assert forall|m: int| #[trigger] self@.contains(m) implies k + self.lower <= m by {
                        let j = m - self.lower;
                        if j < k {
                            lemma_split_pos(j);
                            if j >= 64 * index {
                                assert(j / 64 == index) by {
                                    lemma_word_index(index as int, j - 64 * index);
                                }
                                assert((word >> ((j % 64) as u64)) & 1u64 == 0u64);
                            }
                        }
                    }
                }
                assert(self@.contains(k + self.lower));
                let offset = index * 64 + trailing_zeros;
                return Some(self.lower + offset);
            }
            proof {
                assert forall|k: int| 0 <= k < 64 * (index + 1) implies !bit_at(self.content@, k) by {
                    if k >= 64 * index {
                        lemma_word_index(index as int, k - 64 * index);
                        assert((word >> ((k % 64) as u64)) & 1u64 == 0u64);
                    }
                }
            }
            index = index + 1;
        }
        proof {
            assert forall|m: int| !#[trigger] self@.contains(m) by {
                if self@.contains(m) {
                    lemma_split_pos(self.span() - 1);
                }
            }
            assert(self@ =~= Set::<int>::empty());
        }
        None
    }

    pub fn max(&self) -> (r: Option<usize>)
        requires
            self.wf(),
        ensures
            r is None <==> self@ == Set::<int>::empty(),
            r matches Some(m) ==> self@.contains(m as int)
                && forall|n: int| #[trigger] self@.contains(n) ==> n <= m,
    {
        proof { self.lemma_view(); }
        let n = self.content.len();
        let mut index: usize = n;
        while index > 0
            invariant
                self.wf(),
                n == self.content@.len(),
                index <= n,
                forall|k: int| 64 * index <= k < 64 * n ==> !bit_at(self.content@, k),
            decreases index,
        {
            let i = index - 1;
            let word = self.content[i];
            let leading_zeros = word.leading_zeros() as usize;
            proof { vstd::std_specs::bits::axiom_u64_leading_zeros(word); }
            if leading_zeros < 64 {
                let ghost b = 63 - leading_zeros;
                let ghost k = 64 * i + b;
                proof {
                    lemma_word_index(i as int, b as int);
                    assert((word >> (b as u64)) & 1u64 != 0u64);
                    lemma_low_bit(word >> (b as u64));
                    assert(bit_at(self.content@, k));
                    if k >= self.span() {
                        assert(false);
                    }
                    assert forall|m: int| #[trigger] self@.contains(m) implies m <= k + self.lower by {
                        let j = m - self.lower;
                        if j > k {
                            lemma_split_pos(j);
                            if j < 64 * (i + 1) {
                                assert(j / 64 == i) by {
                                    lemma_word_index(i as int, j - 64 * i);
                                }
                                assert((word >> ((j % 64) as u64)) & 1u64 == 0u64);
                            }
                        }
                    }
                }
                assert(self@.contains(k + self.lower));
                let offset = i * 64 + (63 - leading_zeros);
                return Some(self.lower + offset);
            }
            proof {
                assert forall|k: int| 64 * i <= k < 64 * n implies !bit_at(self.content@, k) by {
                    if k < 64 * index {
                        lemma_word_index(i as int, k - 64 * i);
                        assert((word >> ((k % 64) as u64)) & 1u64 == 0u64);
                    }
                }
            }
            index = i;
        }
        proof {
            assert forall|m: int| !#[trigger] self@.contains(m) by {
                if self@.contains(m) {
                    lemma_split_pos(m - self.lower);
                }
            }
            assert(self@ =~= Set::<int>::empty());
        }
        None
    }
    fn count(&self) -> (r: usize)
        requires
            self.shape(),
        ensures
            r == pos_count(self.content@, self.span()),
    {
        let n = self.content.len();
        let ghost words = self.content@;
        let mut total: usize = 0;
        let mut i: usize = 0;
        proof {
            lemma_split_pos(self.span() - 1);
        }
        while i < n
            invariant
                self.shape(),
                words == self.content@,
                n == words.len(),
                i <= n,
                total == pos_count(words, 64 * i),
                64 * i <= self.span() + 63,
            decreases n - i,
        {
            let word = self.content[i];
            let mut b: u64 = 0;
            while b < 64
                invariant
                    self.shape(),
                    words == self.content@,
                    n == words.len(),
                    i < n,
                    word == words[i as int],
                    b <= 64,
                    total == pos_count(words, 64 * i + b),
                    64 * i <= self.span() + 63,
                decreases 64 - b,
            {
                proof {
                    lemma_word_index(i as int, b as int);
                    lemma_pos_count_bound(words, 64 * i + b);
                    assert(bit_at(words, 64 * i + b) == ((word >> b) & 1u64 == 1u64));
                }
                if (word >> b) & 1 == 1 {
                    proof {
                        if 64 * i + b >= self.span() {
                            assert(false);
                        }
                    }
                    total = total + 1;
                }
                b = b + 1;
            }
            i = i + 1;
        }
        proof {
            lemma_split_pos(self.span() - 1);
            lemma_pos_count_zero_tail(words, self.span(), 64 * n);
        }
        total
    }

    fn op_assign(&mut self, other: &USizeSet, op: WordOp) -> (r: Result<bool, USizeSetError>)
        requires
            old(self).wf(),
            other.wf(),
        ensures
            final(self).wf(),
            final(self).spec_lower() == old(self).spec_lower(),
            final(self).spec_upper() == old(self).spec_upper(),
            (old(self).spec_lower() == other.spec_lower() && old(self).spec_upper() == other.spec_upper())
                <==> r is Ok,
            r matches Err(e) ==> e is DifferentBounds && final(self)@ == old(self)@,
            r matches Ok(changed) ==> final(self)@ == set_op(op, old(self)@, other@)
                && changed == (final(self)@ != old(self)@),
    {
        if self.lower != other.lower || self.upper != other.upper {
            return Err(USizeSetError::DifferentBounds);
        }
        let ghost old_self = *self;
        let n = self.content.len();
        let mut changed = false;
        let mut i: usize = 0;
        while i < n
            invariant
                n == self.content@.len(),
                n == other.content@.len(),
                n == old_self.content@.len(),
                self.lower == old_self.lower,
                self.upper == old_self.upper,
                i <= n,
                forall|j: int| 0 <= j < i ==> self.content@[j] == word_op(op, old_self.content@[j], other.content@[j]),
                forall|j: int| i <= j < n ==> self.content@[j] == old_self.content@[j],
                changed ==> exists|j: int| 0 <= j < i && self.content@[j] != old_self.content@[j],
                !changed ==> forall|j: int| 0 <= j < i ==> self.content@[j] == old_self.content@[j],
            decreases n - i,
        {
            let before = self.content[i];
            let after = apply_word_op(op, before, other.content[i]);
            self.content.set(i, after);
            proof {
                if before != after {
                    assert(self.content@[i as int] != old_self.content@[i as int]);
                }
            }
            changed = changed || before != after;
            i = i + 1;
        }
        proof {
            assert forall|k: int| 0 <= k < 64 * self.content@.len() implies #[trigger] bit_at(self.content@, k)
                == bool_op(op, bit_at(old_self.content@, k), bit_at(other.content@, k)) by {
                lemma_split_pos(k);
                lemma_word_op(op, old_self.content@[k / 64], other.content@[k / 64], (k % 64) as u64);
            }
            old_self.lemma_view();
            other.lemma_view();
            assert(self.span() <= 64 * self.content@.len()) by {
                lemma_split_pos(self.span() - 1);
            }
            assert(self@ =~= set_op(op, old_self@, other@));
        }
        self.len = self.count();
        proof {
            if changed {
                let j = choose|j: int| 0 <= j < n && self.content@[j] != old_self.content@[j];
                let b = lemma_word_diff(self.content@[j], old_self.content@[j]);
                let k = 64 * j + b;
                lemma_word_index(j, b as int);
                if k >= self.span() {
                    assert(!bit_at(old_self.content@, k));
                    assert(!bit_at(self.content@, k));
                }
                assert(self@.contains(self.lower + k) != old_self@.contains(self.lower + k));
            } else {
                assert(self.content@ =~= old_self.content@);
            }
        }
        Ok(changed)
    }

    fn op(&self, other: &USizeSet, op: WordOp) -> (r: Result<USizeSet, USizeSetError>)
        requires
            self.wf(),
            other.wf(),
        ensures
            (self.spec_lower() == other.spec_lower() && self.spec_upper() == other.spec_upper()) <==> r is Ok,
            r matches Err(e) ==> e is DifferentBounds,
            r matches Ok(s) ==> s.wf() && s.spec_lower() == self.spec_lower()
                && s.spec_upper() == self.spec_upper() && s@ == set_op(op, self@, other@),
    {
        let mut clone = self.clone();
        match clone.op_assign(other, op) {
            Ok(_) => Ok(clone),
            Err(e) => Err(e),
        }
    }

    pub fn union_assign(&mut self, other: &USizeSet) -> (r: Result<bool, USizeSetError>)
        requires
            old(self).wf(),
            other.wf(),
        ensures
            final(self).wf(),
            final(self).spec_lower() == old(self).spec_lower(),
            final(self).spec_upper() == old(self).spec_upper(),
            (old(self).spec_lower() == other.spec_lower() && old(self).spec_upper() == other.spec_upper())
                <==> r is Ok,
            r matches Err(e) ==> e is DifferentBounds && final(self)@ == old(self)@,
            r matches Ok(changed) ==> final(self)@ == old(self)@.union(other@)
                && changed == (final(self)@ != old(self)@),
    {
        self.op_assign(other, WordOp::Union)
    }

    pub fn union(&self, other: &USizeSet) -> (r: Result<USizeSet, USizeSetError>)
        requires
            self.wf(),
            other.wf(),
        ensures
            (self.spec_lower() == other.spec_lower() && self.spec_upper() == other.spec_upper()) <==> r is Ok,
            r matches Err(e) ==> e is DifferentBounds,
            r matches Ok(s) ==> s.wf() && s.spec_lower() == self.spec_lower()
                && s.spec_upper() == self.spec_upper() && s@ == self@.union(other@),
    {
        self.op(other, WordOp::Union)
    }

    pub fn intersect_assign(&mut self, other: &USizeSet) -> (r: Result<bool, USizeSetError>)
        requires
            old(self).wf(),
            other.wf(),
        ensures
            final(self).wf(),
            final(self).spec_lower() == old(self).spec_lower(),
            final(self).spec_upper() == old(self).spec_upper(),
            (old(self).spec_lower() == other.spec_lower() && old(self).spec_upper() == other.spec_upper())
                <==> r is Ok,
            r matches Err(e) ==> e is DifferentBounds && final(self)@ == old(self)@,
            r matches Ok(changed) ==> final(self)@ == old(self)@.intersect(other@)
                && changed == (final(self)@ != old(self)@),
    {
        self.op_assign(other, WordOp::Intersect)
    }

    pub fn intersect(&self, other: &USizeSet) -> (r: Result<USizeSet, USizeSetError>)
        requires
            self.wf(),
            other.wf(),
        ensures
            (self.spec_lower() == other.spec_lower() && self.spec_upper() == other.spec_upper()) <==> r is Ok,
            r matches Err(e) ==> e is DifferentBounds,
            r matches Ok(s) ==> s.wf() && s.spec_lower() == self.spec_lower()
                && s.spec_upper() == self.spec_upper() && s@ == self@.intersect(other@),
    {
        self.op(other, WordOp::Intersect)
    }

    pub fn difference_assign(&mut self, other: &USizeSet) -> (r: Result<bool, USizeSetError>)
        requires
            old(self).wf(),
            other.wf(),
        ensures
            final(self).wf(),
            final(self).spec_lower() == old(self).spec_lower(),
            final(self).spec_upper() == old(self).spec_upper(),
            (old(self).spec_lower() == other.spec_lower() && old(self).spec_upper() == other.spec_upper())
                <==> r is Ok,
            r matches Err(e) ==> e is DifferentBounds && final(self)@ == old(self)@,
            r matches Ok(changed) ==> final(self)@ == old(self)@.difference(other@)
                && changed == (final(self)@ != old(self)@),
    {
        self.op_assign(other, WordOp::Difference)
    }

    pub fn difference(&self, other: &USizeSet) -> (r: Result<USizeSet, USizeSetError>)
        requires
            self.wf(),
            other.wf(),
        ensures
            (self.spec_lower() == other.spec_lower() && self.spec_upper() == other.spec_upper()) <==> r is Ok,
            r matches Err(e) ==> e is DifferentBounds,
            r matches Ok(s) ==> s.wf() && s.spec_lower() == self.spec_lower()
                && s.spec_upper() == self.spec_upper() && s@ == self@.difference(other@),
    {
        self.op(other, WordOp::Difference)
    }

    pub fn symmetric_difference_assign(&mut self, other: &USizeSet) -> (r: Result<bool, USizeSetError>)
        requires
            old(self).wf(),
            other.wf(),
        ensures
            final(self).wf(),
            final(self).spec_lower() == old(self).spec_lower(),
            final(self).spec_upper() == old(self).spec_upper(),
            (old(self).spec_lower() == other.spec_lower() && old(self).spec_upper() == other.spec_upper())
                <==> r is Ok,
            r matches Err(e) ==> e is DifferentBounds && final(self)@ == old(self)@,
            r matches Ok(changed) ==> final(self)@ == sym_diff(old(self)@, other@)
                && changed == (final(self)@ != old(self)@),
    {
        self.op_assign(other, WordOp::SymmetricDifference)
    }

    pub fn symmetric_difference(&self, other: &USizeSet) -> (r: Result<USizeSet, USizeSetError>)
        requires
            self.wf(),
            other.wf(),
        ensures
            (self.spec_lower() == other.spec_lower() && self.spec_upper() == other.spec_upper()) <==> r is Ok,
            r matches Err(e) ==> e is DifferentBounds,
            r matches Ok(s) ==> s.wf() && s.spec_lower() == self.spec_lower()
                && s.spec_upper() == self.spec_upper() && s@ == sym_diff(self@, other@),
    {
        self.op(other, WordOp::SymmetricDifference)
    }

    pub fn complement_assign(&mut self)
        requires
            old(self).wf(),
        ensures
            final(self).wf(),
            final(self).spec_lower() == old(self).spec_lower(),
            final(self).spec_upper() == old(self).spec_upper(),
            final(self)@ == Set::new(|n: int| old(self).spec_lower() <= n <= old(self).spec_upper())
                .difference(old(self)@),
    {
        let ghost old_self = *self;
        let len = self.content.len();
        let mut i: usize = 0;
        while i < len - 1
            invariant
                len == self.content@.len(),
                len == old_self.content@.len(),
                len >= 1,
                self.lower == old_self.lower,
                self.upper == old_self.upper,
                i <= len - 1,
                forall|j: int| 0 <= j < i ==> self.content@[j] == !old_self.content@[j],
                forall|j: int| i <= j < len ==> self.content@[j] == old_self.content@[j],
            decreases len - 1 - i,
        {
            let w = self.content[i];
            self.content.set(i, !w);
            i = i + 1;
        }
        let rem_bits = (self.upper - self.lower) % 64 + 1;
        let last = self.content[len - 1];
        if rem_bits < 64 {
            assert(1u64 << (rem_bits as u64) >= 1) by (bit_vector)
                requires
                    rem_bits < 64,
            ;
            let mask = (1u64 << (rem_bits as u64)) - 1;
            self.content.set(len - 1, last ^ mask);
        } else {
            self.content.set(len - 1, !last);
        }
        proof {
            let last_start = 64 * (len - 1);
            assert(self.upper - self.lower == last_start + rem_bits - 1) by {
                lemma_split_pos(self.upper - self.lower);
            }
            assert forall|k: int| 0 <= k < 64 * self.content@.len() implies #[trigger] bit_at(self.content@, k)
                == (k < self.span() && !bit_at(old_self.content@, k)) by {
                lemma_split_pos(k);
                let b = (k % 64) as u64;
                if rem_bits < 64 {
                    lemma_not_bits(old_self.content@[k / 64], rem_bits as u64, b);
                } else {
                    lemma_not_bits(old_self.content@[k / 64], 1, b);
                }
                if k / 64 == len - 1 && k >= self.span() {
                    assert(!bit_at(old_self.content@, k));
                }
            }
            old_self.lemma_view();
            assert(self.span() <= 64 * self.content@.len()) by {
                lemma_split_pos(self.span() - 1);
            }
            assert(self@ =~= Set::new(|n: int| old_self.lower <= n <= old_self.upper).difference(old_self@));
        }
        self.len = self.count();
    }

    pub fn complement(&self) -> (r: USizeSet)
        requires
            self.wf(),
        ensures
            r.wf(),
            r.spec_lower() == self.spec_lower(),
            r.spec_upper() == self.spec_upper(),
            r@ == Set::new(|n: int| self.spec_lower() <= n <= self.spec_upper()).difference(self@),
    {
        let mut result = self.clone();
        result.complement_assign();
        result
    }

    fn rel(&self, other: &USizeSet, subset: bool) -> (r: Result<bool, USizeSetError>)
        requires
            self.wf(),
            other.wf(),
        ensures
            (self.spec_lower() == other.spec_lower() && self.spec_upper() == other.spec_upper()) <==> r is Ok,
            r matches Err(e) ==> e is DifferentBounds,
            r matches Ok(b) ==> b == if subset {
                self@.subset_of(other@)
            } else {
                self@.disjoint(other@)
            },
    {
        if self.lower != other.lower || self.upper != other.upper {
            return Err(USizeSetError::DifferentBounds);
        }
        let n = self.content.len();
        let mut i: usize = 0;
        proof {
            self.lemma_view();
            other.lemma_view();
        }
        while i < n
            invariant
                self.wf(),
                other.wf(),
                self.lower == other.lower,
                self.upper == other.upper,
                n == self.content@.len(),
                n == other.content@.len(),
                i <= n,
                forall|k: int| 0 <= k < 64 * i ==> !(#[trigger] bit_at(self.content@, k) && if subset {
                    !bit_at(other.content@, k)
                } else {
                    bit_at(other.content@, k)
                }),
            decreases n - i,
        {
            let s = self.content[i];
            let o = other.content[i];
            let clash = if subset { s & !o } else { s & o };
            if clash != 0 {
                proof {
                    let b = lemma_nonzero_word(clash);
                    if subset {
                        lemma_word_op(WordOp::Difference, s, o, b);
                    } else {
                        lemma_word_op(WordOp::Intersect, s, o, b);
                    }
                    let k = 64 * i + b;
                    lemma_word_index(i as int, b as int);
                    if k >= self.span() {
                        assert(!bit_at(self.content@, k));
                    }
                    assert(self@.contains(self.lower + k));
                }
                return Ok(false);
            }
            proof {
                assert forall|k: int| 0 <= k < 64 * (i + 1) implies !(#[trigger] bit_at(self.content@, k) && if subset {
                    !bit_at(other.content@, k)
                } else {
                    bit_at(other.content@, k)
                }) by {
                    if k >= 64 * i {
                        lemma_word_index(i as int, k - 64 * i);
                        let b = (k - 64 * i) as u64;
                        if subset {
                            lemma_word_op(WordOp::Difference, s, o, b);
                        } else {
                            lemma_word_op(WordOp::Intersect, s, o, b);
                        }
                        lemma_zero_word(b);
                    }
                }
            }
            i = i + 1;
        }
        proof {
            assert(self.span() <= 64 * n) by {
                lemma_split_pos(self.span() - 1);
            }
        }
        Ok(true)
    }

    pub fn is_disjoint(&self, other: &USizeSet) -> (r: Result<bool, USizeSetError>)
        requires
            self.wf(),
            other.wf(),
        ensures
            (self.spec_lower() == other.spec_lower() && self.spec_upper() == other.spec_upper()) <==> r is Ok,
            r matches Err(e) ==> e is DifferentBounds,
            r matches Ok(b) ==> b == self@.disjoint(other@),
    {
        self.rel(other, false)
    }

    pub fn is_subset(&self, other: &USizeSet) -> (r: Result<bool, USizeSetError>)
        requires
            self.wf(),
            other.wf(),
        ensures
            (self.spec_lower() == other.spec_lower() && self.spec_upper() == other.spec_upper()) <==> r is Ok,
            r matches Err(e) ==> e is DifferentBounds,
            r matches Ok(b) ==> b == self@.subset_of(other@),
    {
        self.rel(other, true)
    }

    pub fn is_proper_subset(&self, other: &USizeSet) -> (r: Result<bool, USizeSetError>)
        requires
            self.wf(),
            other.wf(),
        ensures
            (self.spec_lower() == other.spec_lower() && self.spec_upper() == other.spec_upper()) <==> r is Ok,
            r matches Err(e) ==> e is DifferentBounds,
            r matches Ok(b) ==> b == (self@.subset_of(other@) && self@ != other@),
    {
        let subset = self.rel(other, true)?;
        proof {
            self.lemma_view();
            other.lemma_view();
            if subset {
                lemma_proper_subset_len(self@, other@);
            }
        }
        Ok(subset && self.len < other.len)
    }

    pub fn is_superset(&self, other: &USizeSet) -> (r: Result<bool, USizeSetError>)
        requires
            self.wf(),
            other.wf(),
        ensures
            (self.spec_lower() == other.spec_lower() && self.spec_upper() == other.spec_upper()) <==> r is Ok,
            r matches Err(e) ==> e is DifferentBounds,
            r matches Ok(b) ==> b == other@.subset_of(self@),
    {
        other.is_subset(self)
    }

    pub fn is_proper_superset(&self, other: &USizeSet) -> (r: Result<bool, USizeSetError>)
        requires
            self.wf(),
            other.wf(),
        ensures
            (self.spec_lower() == other.spec_lower() && self.spec_upper() == other.spec_upper()) <==> r is Ok,
            r matches Err(e) ==> e is DifferentBounds,
            r matches Ok(b) ==> b == (other@.subset_of(self@) && other@ != self@),
    {
        other.is_proper_subset(self)
    }
}

/// Walks the members of a set in ascending order, word by word and bit by bit.
pub struct USizeSetIter {
    lower: usize,
    upper: usize,
    content: Vec<u64>,
    index: usize,
    current: u64,
}

impl USizeSetIter {
    /// The members not yet returned.
    pub closed spec fn remaining(&self) -> Set<int> {
        Set::new(|n: int| self.lower <= n <= self.upper && {
            let k = n - self.lower;
            ||| (k / 64 == self.index && word_bit(self.current, (k % 64) as u64))
            ||| (k / 64 > self.index && bit_at(self.content@, k))
        })
    }

    pub closed spec fn wf(&self) -> bool {
        &&& self.lower <= self.upper
        &&& self.upper - self.lower < usize::MAX
        &&& self.content@.len() == word_count(self.lower as int, self.upper as int)
        &&& self.index <= self.content@.len()
        &&& self.index == self.content@.len() ==> self.current == 0
        &&& forall|k: int|
            self.upper - self.lower + 1 <= k < 64 * self.content@.len() ==> !bit_at(self.content@, k)
        &&& self.index < self.content@.len() ==> forall|i: u64|
            #[trigger] word_bit(self.current, i) ==> word_bit(self.content@[self.index as int], i)
    }

    fn new(set: &USizeSet) -> (r: USizeSetIter)
        requires
            set.wf(),
        ensures
            r.wf(),
            r.remaining() == set@,
    {
        let content = set.content.clone();
        let first = content[0];
        let r = USizeSetIter { lower: set.lower, upper: set.upper, content, index: 0, current: first };
        proof {
            assert(r.content@ == set.content@);
            assert forall|n: int| #[trigger] r.remaining().contains(n) <==> set@.contains(n) by {
                if set.lower <= n <= set.upper {
                    lemma_split_pos(n - set.lower);
                }
            }
            assert(r.remaining() =~= set@);
        }
        r
    }

    /// Hands out the least member not yet returned, or `None` when all have been.
    pub fn next(&mut self) -> (r: Option<usize>)
        requires
            old(self).wf(),
        ensures
            final(self).wf(),
            r is None <==> old(self).remaining() == Set::<int>::empty(),
            r is None ==> final(self).remaining() == Set::<int>::empty(),
            r matches Some(v) ==> old(self).remaining().contains(v as int)
                && (forall|n: int| #[trigger] old(self).remaining().contains(n) ==> v <= n)
                && final(self).remaining() == old(self).remaining().remove(v as int),
    {
        let ghost start = self.remaining();
        let n = self.content.len();
        while self.current == 0
            invariant
                self.wf(),
                n == self.content@.len(),
                self.remaining() == start,
                start == old(self).remaining(),
                self.lower == old(self).lower,
                self.upper == old(self).upper,
                self.content@ == old(self).content@,
            decreases n - self.index,
        {
            if self.index + 1 < n {
                let ghost before = self.remaining();
                self.index = self.index + 1;
                self.current = self.content[self.index];
                proof {
                    assert forall|m: int| #[trigger] self.remaining().contains(m) <==> before.contains(m) by {
                        if self.lower <= m <= self.upper {
                            lemma_split_pos(m - self.lower);
                            if (m - self.lower) / 64 == self.index - 1 {
                                lemma_zero_word(((m - self.lower) % 64) as u64);
                            }
                        }
                    }
                    assert(self.remaining() =~= before);
                }
            } else {
                let ghost before = self.remaining();
                self.index = n;
                proof {
                    assert forall|m: int| !#[trigger] before.contains(m) by {
                        if self.lower <= m <= self.upper {
                            lemma_split_pos(m - self.lower);
                            lemma_zero_word(((m - self.lower) % 64) as u64);
                            vstd::arithmetic::div_mod::lemma_div_is_ordered(
                                m - self.lower, self.upper - self.lower, 64);
                        }
                    }
                    assert(before =~= Set::<int>::empty());
                    assert(start == old(self).remaining());
                    assert(self.remaining() =~= Set::<int>::empty());
                }
                return None;
            }
        }
        let word = self.current;
        let tz = word.trailing_zeros();
        proof {
            vstd::std_specs::bits::axiom_u64_trailing_zeros(word);
        }
        let b = tz as u64;
        let ghost k = 64 * self.index + b;
        proof {
            lemma_word_index(self.index as int, b as int);
        }
        proof {
            assert(word_bit(word, b));
            assert(word_bit(self.content@[self.index as int], b));
            assert(bit_at(self.content@, k));
            assert(start.contains(self.lower + k));
            assert forall|m: int| #[trigger] start.contains(m) implies self.lower + k <= m by {
                lemma_split_pos(m - self.lower);
                if (m - self.lower) / 64 == self.index && m - self.lower < k {
                    assert(word_bit(word, ((m - self.lower) % 64) as u64));
                }
            }
        }
        let removed = word & !(1u64 << b);
        self.current = removed;
        proof {
            assert forall|i: u64| i < 64 implies #[trigger] word_bit(removed, i) == (word_bit(word, i) && i != b) by {
                lemma_mask_bits(word, b, i);
            }
            assert forall|i: u64| #[trigger] word_bit(removed, i) implies word_bit(self.content@[self.index as int], i) by {
                if i >= 64 {
                    assert((removed >> i) & 1u64 != 1u64) by (bit_vector)
                        requires
                            i >= 64,
                    ;
                }
                assert(word_bit(word, i));
            }
            assert forall|m: int| #[trigger] self.remaining().contains(m) <==> start.remove(self.lower + k).contains(m) by {
                if self.lower <= m <= self.upper {
                    lemma_split_pos(m - self.lower);
                }
            }
            assert(self.remaining() =~= start.remove(self.lower + k));
        }
        Some(self.lower + (self.index * 64 + tz as usize))
    }
}

impl Clone for USizeSet {
    fn clone(&self) -> (r: USizeSet)
        ensures
            r.same_repr(self),
    {
        let mut content: Vec<u64> = Vec::new();
        let mut i: usize = 0;
        while i < self.content.len()
            invariant
                i <= self.content@.len(),
                content@ == self.content@.subrange(0, i as int),
            decreases self.content@.len() - i,
        {
            content.push(self.content[i]);
            i = i + 1;
        }
        assert(content@ =~= self.content@);
        USizeSet { lower: self.lower, upper: self.upper, len: self.len, content }
    }
}

impl PartialEq for USizeSet {
    fn eq(&self, other: &USizeSet) -> (r: bool)
        ensures
            r == self.same_repr(other),
    {
        if self.lower != other.lower || self.upper != other.upper || self.len != other.len
            || self.content.len() != other.content.len() {
            return false;
        }
        let mut i: usize = 0;
        while i < self.content.len()
            invariant
                self.content@.len() == other.content@.len(),
                i <= self.content@.len(),
                forall|j: int| 0 <= j < i ==> self.content@[j] == other.content@[j],
            decreases self.content@.len() - i,
        {
            if self.content[i] != other.content[i] {
                return false;
            }
            i = i + 1;
        }
        assert(self.content@ =~= other.content@);
        true
    }
}

impl vstd::std_specs::cmp::PartialEqSpecImpl for USizeSet {
    open spec fn obeys_eq_spec() -> bool {
        true
    }

    open spec fn eq_spec(&self, other: &USizeSet) -> bool {
        self.same_repr(other)
    }
}

impl Eq for USizeSet {
}

/// The members a set with bounds `[lower, upper]` can hold.
pub open spec fn full_range(lower: int, upper: int) -> Set<int> {
    Set::new(|n: int| lower <= n <= upper)
}

/// Set algebra on two sets with equal bounds: the size of a union is the sum of the sizes
/// less the size of the intersection; a difference and a symmetric difference have the size
/// that removing the intersection leaves; complementing twice gives back the set; and the
/// complement of the full range is empty, and that of the empty set the full range.
pub proof fn law_set_algebra(a: &USizeSet, b: &USizeSet)
    requires
        a.wf(),
        b.wf(),
        a.spec_lower() == b.spec_lower(),
        a.spec_upper() == b.spec_upper(),
    ensures
        a@.union(b@).len() == a@.len() + b@.len() - a@.intersect(b@).len(),
        a@.difference(b@).len() == a@.len() - a@.intersect(b@).len(),
        sym_diff(a@, b@).len() == a@.union(b@).len() - a@.intersect(b@).len(),
        a@.intersect(b@).subset_of(a@) && a@.subset_of(a@.union(b@)),
        ({
            let full = full_range(a.spec_lower(), a.spec_upper());
            &&& full.difference(full.difference(a@)) == a@
            &&& full.difference(full) == Set::<int>::empty()
            &&& full.difference(Set::<int>::empty()) == full
        }),
{
    a.lemma_view();
    b.lemma_view();
    let (x, y) = (a@, b@);
    let d1 = x.difference(y);
    let d2 = y.difference(x);
    let i = x.intersect(y);
    vstd::set_lib::lemma_set_disjoint_lens(d1, y);
    assert(d1 + y =~= x.union(y));
    vstd::set_lib::lemma_set_disjoint_lens(d1, i);
    assert(d1 + i =~= x);
    vstd::set_lib::lemma_set_disjoint_lens(d2, i);
    assert(d2 + i =~= y);
    vstd::set_lib::lemma_set_disjoint_lens(d1, d2);
    assert(d1 + d2 =~= sym_diff(x, y));
    let full = full_range(a.spec_lower(), a.spec_upper());
    assert(full.difference(full.difference(x)) =~= x);
    assert(full.difference(full) =~= Set::<int>::empty());
    assert(full.difference(Set::<int>::empty()) =~= full);
}

/// Whether two entries of `items` are equal by their type's `==`.
pub open spec fn has_duplicate<T: PartialEq>(items: Seq<T>) -> bool {
    exists|i: int, j: int| 0 <= i < j < items.len() && items[i].eq_spec(&items[j])
}

/// Whether any value occurs twice in `items`.
pub fn contains_duplicate<T: PartialEq>(items: &[T]) -> (r: bool)
    ensures
        T::obeys_eq_spec() ==> r == has_duplicate(items@),
{
    let mut j: usize = 0;
    while j < items.len()
        invariant
            j <= items@.len(),
            T::obeys_eq_spec() ==> forall|a: int, b: int| 0 <= a < b < j ==> !items@[a].eq_spec(&items@[b]),
        decreases items@.len() - j,
    {
        let mut i: usize = 0;
        while i < j
            invariant
                i <= j < items@.len(),
                T::obeys_eq_spec() ==> forall|a: int, b: int| 0 <= a < b < j ==> !items@[a].eq_spec(&items@[b]),
                T::obeys_eq_spec() ==> forall|a: int| 0 <= a < i ==> !items@[a].eq_spec(&items@[j as int]),
            decreases j - i,
        {
            if items[i] == items[j] {
                return true;
            }
            i = i + 1;
        }
        j = j + 1;
    }
    false
}

/// The distance between two values.
pub fn abs_diff(a: usize, b: usize) -> (r: usize)
    ensures
        r == if a < b { b - a } else { a - b },
{
    if a < b {
        b - a
    } else {
        a - b
    }
}

} // verus!
