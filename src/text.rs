use vstd::prelude::*;

verus! {

/// The pieces of `s` between occurrences of `sep`; there is always at least one.
pub open spec fn split(s: Seq<u8>, sep: u8) -> Seq<Seq<u8>>
    decreases s.len(),
{
    if s.len() == 0 {
        seq![Seq::<u8>::empty()]
    } else {
        let prev = split(s.drop_last(), sep);
        if s.last() == sep {
            prev.push(Seq::<u8>::empty())
        } else {
            prev.update(prev.len() - 1, prev.last().push(s.last()))
        }
    }
}

pub open spec fn is_space(b: u8) -> bool {
    b == 32 || (9 <= b <= 13)
}

pub open spec fn trim_start(s: Seq<u8>) -> Seq<u8>
    decreases s.len(),
{
    if s.len() > 0 && is_space(s[0]) {
        trim_start(s.drop_first())
    } else {
        s
    }
}

pub open spec fn trim_end(s: Seq<u8>) -> Seq<u8>
    decreases s.len(),
{
    if s.len() > 0 && is_space(s.last()) {
        trim_end(s.drop_last())
    } else {
        s
    }
}

/// `s` without leading and trailing white space.
pub open spec fn trim(s: Seq<u8>) -> Seq<u8> {
    trim_end(trim_start(s))
}

pub open spec fn is_digit(b: u8) -> bool {
    48 <= b <= 57
}

pub open spec fn all_digits(s: Seq<u8>) -> bool {
    forall|i: int| 0 <= i < s.len() ==> #[trigger] is_digit(s[i])
}

/// The number that a string of decimal digits spells.
pub open spec fn digits_value(s: Seq<u8>) -> nat
    decreases s.len(),
{
    if s.len() == 0 {
        0
    } else {
        digits_value(s.drop_last()) * 10 + (s.last() - 48) as nat
    }
}

/// `s` without one leading plus sign.
pub open spec fn unsigned_part(s: Seq<u8>) -> Seq<u8> {
    if s.len() > 0 && s[0] == 43 {
        s.drop_first()
    } else {
        s
    }
}

/// An unsigned decimal number, optionally signed with `+`, that fits in a `usize`.
pub open spec fn parse_usize(s: Seq<u8>) -> Option<usize> {
    let d = unsigned_part(s);
    if d.len() > 0 && all_digits(d) && digits_value(d) <= usize::MAX {
        Some(digits_value(d) as usize)
    } else {
        None
    }
}

/// The decimal digits of `n`, without leading zeros.
pub open spec fn decimal(n: nat) -> Seq<u8>
    decreases n,
{
    if n < 10 {
        seq![(n + 48) as u8]
    } else {
        decimal(n / 10).push((n % 10 + 48) as u8)
    }
}

pub proof fn lemma_split_len(s: Seq<u8>, sep: u8)
    ensures
        1 <= split(s, sep).len() <= s.len() + 1,
    decreases s.len(),
{
    if s.len() > 0 {
        lemma_split_len(s.drop_last(), sep);
    }
}

/// A string without the separator is a single piece.
pub proof fn lemma_split_none(s: Seq<u8>, sep: u8)
    requires
        forall|i: int| 0 <= i < s.len() ==> s[i] != sep,
    ensures
        split(s, sep) == seq![s],
    decreases s.len(),
{
    if s.len() > 0 {
        lemma_split_none(s.drop_last(), sep);
        assert(s.drop_last().push(s.last()) =~= s);
        assert(split(s, sep) =~= seq![s]);
    } else {
        assert(s =~= Seq::<u8>::empty());
    }
}

/// Splitting at a separator splits the two sides apart.
pub proof fn lemma_split_concat(x: Seq<u8>, y: Seq<u8>, sep: u8)
    ensures
        split(x + seq![sep] + y, sep) == split(x, sep) + split(y, sep),
    decreases y.len(),
{
    let xs = x + seq![sep];
    lemma_split_len(x, sep);
    lemma_split_len(y, sep);
    if y.len() == 0 {
        assert((x + seq![sep] + y).drop_last() =~= x);
        assert(x + seq![sep] + y =~= xs);
        assert(split(x + seq![sep] + y, sep) =~= split(x, sep) + split(y, sep));
    } else {
        lemma_split_concat(x, y.drop_last(), sep);
        assert((x + seq![sep] + y).drop_last() =~= x + seq![sep] + y.drop_last());
        lemma_split_len(y.drop_last(), sep);
        assert(split(x + seq![sep] + y, sep) =~= split(x, sep) + split(y, sep));
    }
}

pub proof fn lemma_decimal(n: nat)
    ensures
        decimal(n).len() > 0,
        all_digits(decimal(n)),
        digits_value(decimal(n)) == n,
        decimal(n)[0] != 43,
        forall|i: int| 0 <= i < decimal(n).len() ==> !is_space(#[trigger] decimal(n)[i]) && decimal(n)[i] != 44
            && decimal(n)[i] != 59 && decimal(n)[i] != 120,
    decreases n,
{
    if n >= 10 {
        lemma_decimal(n / 10);
        assert(decimal(n).drop_last() =~= decimal(n / 10));
        vstd::arithmetic::div_mod::lemma_fundamental_div_mod(n as int, 10);
        let q = n / 10;
        let m = n % 10;
        assert(decimal(n).last() == (m + 48) as u8);
        assert((decimal(n).last() - 48) as nat == m);
        assert(digits_value(decimal(n)) == digits_value(decimal(q)) * 10 + m);
        assert(q * 10 == 10 * q) by (nonlinear_arith);
        assert forall|i: int| 0 <= i < decimal(n).len() implies #[trigger] is_digit(decimal(n)[i]) by {
            if i < decimal(n).len() - 1 {
                assert(decimal(n)[i] == decimal(n / 10)[i]);
            }
        }
    } else {
        assert(decimal(n).drop_last() =~= Seq::<u8>::empty());
        assert(digits_value(decimal(n)) == digits_value(Seq::<u8>::empty()) * 10 + n);
    }
}

/// Parsing the digits of a number gives the number back.
pub proof fn lemma_parse_decimal(n: nat)
    requires
        n <= usize::MAX,
    ensures
        parse_usize(decimal(n)) == Some(n as usize),
        trim(decimal(n)) == decimal(n),
{
    lemma_decimal(n);
    assert(trim_start(decimal(n)) == decimal(n));
    assert(trim_end(decimal(n)) == decimal(n));
}

/// A longer string of digits spells a number at least as large.
proof fn lemma_value_prefix(s: Seq<u8>, k: int)
    requires
        all_digits(s),
        0 <= k <= s.len(),
    ensures
        digits_value(s.subrange(0, k)) <= digits_value(s),
    decreases s.len(),
{
    if k < s.len() {
        assert(all_digits(s.drop_last()));
        assert(s.drop_last().subrange(0, k) =~= s.subrange(0, k));
        lemma_value_prefix(s.drop_last(), k);
    } else {
        assert(s.subrange(0, k) =~= s);
    }
}

/// The pieces of `s[lo..hi]` between occurrences of `sep`, as index ranges into `s`.
pub(crate) fn split_ranges(s: &[u8], lo: usize, hi: usize, sep: u8) -> (r: Vec<(usize, usize)>)
    requires
        lo <= hi <= s@.len(),
    ensures
        r@.len() == split(s@.subrange(lo as int, hi as int), sep).len(),
        forall|i: int| 0 <= i < r@.len() ==> lo <= (#[trigger] r@[i]).0 <= r@[i].1 <= hi
            && s@.subrange(r@[i].0 as int, r@[i].1 as int) == split(s@.subrange(lo as int, hi as int), sep)[i],
{
    let mut r: Vec<(usize, usize)> = Vec::new();
    let mut start = lo;
    let mut i = lo;
    proof {
        assert(s@.subrange(lo as int, lo as int) =~= Seq::<u8>::empty());
    }
    while i < hi
        invariant
            lo <= start <= i <= hi <= s@.len(),
            split(s@.subrange(lo as int, i as int), sep).len() == r@.len() + 1,
            forall|j: int| 0 <= j < r@.len() ==> lo <= (#[trigger] r@[j]).0 <= r@[j].1 <= i
                && s@.subrange(r@[j].0 as int, r@[j].1 as int) == split(s@.subrange(lo as int, i as int), sep)[j],
            split(s@.subrange(lo as int, i as int), sep).last() == s@.subrange(start as int, i as int),
        decreases hi - i,
    {
        let ghost prev = split(s@.subrange(lo as int, i as int), sep);
        assert(s@.subrange(lo as int, i + 1).drop_last() =~= s@.subrange(lo as int, i as int));
        if s[i] == sep {
            r.push((start, i));
            start = i + 1;
            proof {
                assert(s@.subrange(start as int, i + 1) =~= Seq::<u8>::empty());
            }
        } else {
            proof {
                assert(s@.subrange(start as int, i + 1) =~= s@.subrange(start as int, i as int).push(s@[i as int]));
            }
        }
        i = i + 1;
    }
    r.push((start, hi));
    r
}

/// The range of `s[lo..hi]` left after removing leading and trailing white space.
pub(crate) fn trim_range(s: &[u8], lo: usize, hi: usize) -> (r: (usize, usize))
    requires
        lo <= hi <= s@.len(),
    ensures
        lo <= r.0 <= r.1 <= hi,
        s@.subrange(r.0 as int, r.1 as int) == trim(s@.subrange(lo as int, hi as int)),
{
    let mut a = lo;
    while a < hi && (s[a] == 32 || (9 <= s[a] && s[a] <= 13))
        invariant
            lo <= a <= hi <= s@.len(),
            trim_start(s@.subrange(lo as int, hi as int)) == trim_start(s@.subrange(a as int, hi as int)),
        decreases hi - a,
    {
        assert(s@.subrange(a as int, hi as int).drop_first() =~= s@.subrange(a + 1, hi as int));
        a = a + 1;
    }
    let mut b = hi;
    while b > a && (s[b - 1] == 32 || (9 <= s[b - 1] && s[b - 1] <= 13))
        invariant
            lo <= a <= b <= hi <= s@.len(),
            trim_start(s@.subrange(lo as int, hi as int)) == s@.subrange(a as int, hi as int),
            trim_end(s@.subrange(a as int, hi as int)) == trim_end(s@.subrange(a as int, b as int)),
        decreases b - a,
    {
        assert(s@.subrange(a as int, b as int).drop_last() =~= s@.subrange(a as int, b - 1));
        b = b - 1;
    }
    (a, b)
}

/// Reads an unsigned decimal number from `s[lo..hi]`.
pub(crate) fn parse_number(s: &[u8], lo: usize, hi: usize) -> (r: Option<usize>)
    requires
        lo <= hi <= s@.len(),
    ensures
        r == parse_usize(s@.subrange(lo as int, hi as int)),
{
    let ghost full = s@.subrange(lo as int, hi as int);
    let mut start = lo;
    if start < hi && s[start] == 43 {
        start = start + 1;
    }
    let ghost d = s@.subrange(start as int, hi as int);
    assert(unsigned_part(full) =~= d);
    if start == hi {
        return None;
    }
    let mut value: usize = 0;
    let mut i = start;
    while i < hi
        invariant
            lo <= start < hi,
            start <= i <= hi <= s@.len(),
            full == s@.subrange(lo as int, hi as int),
            d == s@.subrange(start as int, hi as int),
            unsigned_part(full) == d,
            all_digits(s@.subrange(start as int, i as int)),
            value == digits_value(s@.subrange(start as int, i as int)),
        decreases hi - i,
    {
        let c = s[i];
        assert(s@.subrange(start as int, i + 1).drop_last() =~= s@.subrange(start as int, i as int));
        if c < 48 || c > 57 {
            assert(d[i - start] == c);
            assert(!is_digit(d[i - start]));
            return None;
        }
        let digit = (c - 48) as usize;
        if value > (usize::MAX - digit) / 10 {
            proof {
                assert(value * 10 + digit > usize::MAX) by (nonlinear_arith)
                    requires
                        value > (usize::MAX - digit) / 10,
                        digit <= 9,
                ;
                assert(digits_value(s@.subrange(start as int, i + 1)) == value * 10 + digit);
                if all_digits(d) {
                    assert(d.subrange(0, i + 1 - start) =~= s@.subrange(start as int, i + 1));
                    lemma_value_prefix(d, i + 1 - start);
                }
            }
            return None;
        }
        proof {
            assert(value * 10 + digit <= usize::MAX) by (nonlinear_arith)
                requires
                    value <= (usize::MAX - digit) / 10,
                    digit <= 9,
            ;
        }
        value = value * 10 + digit;
        i = i + 1;
    }
    proof {
        assert(s@.subrange(start as int, hi as int) =~= d);
    }
    Some(value)
}

/// Appends the decimal digits of `n`.
pub(crate) fn push_decimal(out: &mut Vec<u8>, n: usize)
    ensures
        final(out)@ == old(out)@ + decimal(n as nat),
    decreases n,
{
    if n >= 10 {
        push_decimal(out, n / 10);
    }
    out.push((n % 10 + 48) as u8);
    proof {
        if n < 10 {
            assert(decimal(n as nat) =~= seq![(n + 48) as u8]);
        }
    }
}

} // verus!
