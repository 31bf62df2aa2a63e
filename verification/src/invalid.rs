//! Validity checks on the decimal digits of a number, and sums of the
//! invalid numbers over inclusive ranges.
//!
//! A number is counted once when its digit string consists of two equal
//! halves, and once when it is some block of digits repeated two or more
//! times.

use vstd::prelude::*;

verus! {

/// The decimal digits of `n`, most significant first ;
/// a single `0` digit for `n == 0`.
pub open spec fn dec_digits(n: int) -> Seq<int>
    decreases n,
{
    if n < 10 {
        seq![n]
    } else {
        dec_digits(n / 10).push(n % 10)
    }
}

/// The digit string of `n` is two equal halves.
pub open spec fn spec_equal_halfs(n: int) -> bool {
    let s = dec_digits(n);
    &&& s.len() % 2 == 0
    &&& forall|i: int| 0 <= i < s.len() / 2 ==> s[i] == #[trigger] s[i + s.len() / 2]
}

/// `s` repeats with period `l`: every element equals the one `l` places
/// before it.
pub open spec fn is_periodic(s: Seq<int>, l: int) -> bool {
    forall|i: int| l <= i < s.len() ==> s[i] == #[trigger] s[i - l]
}

/// The digit string of `n` is a block of at most half its length,
/// repeated to fill the whole string.
pub open spec fn spec_has_repeated_sequence(n: int) -> bool {
    let s = dec_digits(n);
    exists|l: int| 1 <= l <= s.len() / 2 && (s.len() as int) % l == 0 && #[trigger] is_periodic(s, l)
}

/// The decimal digits of `n`, most significant first, as a vector.
fn digits_of(n: i64) -> (r: Vec<i64>)
    requires
        n >= 0,
    ensures
        r@.map_values(|v: i64| v as int) == dec_digits(n as int),
        r@.len() >= 1,
{
    let mut rev: Vec<i64> = Vec::new();
    let mut m = n;
    while m >= 10
        invariant
            0 <= m,
            dec_digits(n as int) == dec_digits(m as int) + rev@.map_values(
                |v: i64| v as int,
            ).reverse(),
        decreases m,
    {
        let d = m % 10;
        rev.push(d);
        m = m / 10;
        proof {
            assert(dec_digits(n as int) =~= dec_digits(m as int) + rev@.map_values(
                |v: i64| v as int,
            ).reverse());
        }
    }
    rev.push(m);
    proof {
        assert(dec_digits(n as int) =~= rev@.map_values(|v: i64| v as int).reverse());
    }
    let mut r: Vec<i64> = Vec::new();
    let mut i = rev.len();
    while i > 0
        invariant
            i <= rev@.len(),
            r@.len() == rev@.len() - i,
            forall|t: int|
                0 <= t < r@.len() ==> #[trigger] r@[t] == rev@[rev@.len() - 1 - t],
        decreases i,
    {
        i = i - 1;
        r.push(rev[i]);
    }
    proof {
        assert(r@.map_values(|v: i64| v as int) =~= dec_digits(n as int));
    }
    r
}

/// The digit string of `n` splits into two equal halves,
/// e.g. `1212` does and `1213` does not.
pub fn equal_halfs(n: i64) -> (r: bool)
    requires
        n >= 0,
    ensures
        r == spec_equal_halfs(n as int),
{
    let ds = digits_of(n);
    let ghost s = dec_digits(n as int);
    let len = ds.len();
    if len % 2 != 0 {
        return false;
    }
    let mid = len / 2;
    let mut i: usize = 0;
    while i < mid
        invariant
            len == ds@.len(),
            mid == ds@.len() / 2,
            ds@.len() % 2 == 0,
            i <= mid,
            s == dec_digits(n as int),
            ds@.map_values(|v: i64| v as int) == s,
            forall|t: int| 0 <= t < i ==> s[t] == #[trigger] s[t + s.len() / 2],
        decreases mid - i,
    {
        proof {
            assert(mid + mid <= ds@.len());
        }
        if ds[i] != ds[i + mid] {
            proof {
                assert(s[i as int] != s[i + s.len() / 2]);
            }
            return false;
        }
        i = i + 1;
    }
    true
}

/// The digit string of `n` is some block repeated at least twice,
/// e.g. `121212` (block `12`) and `1212` do, `1213` does not.
pub fn has_repeated_sequence(n: i64) -> (r: bool)
    requires
        n >= 0,
    ensures
        r == spec_has_repeated_sequence(n as int),
{
    let ds = digits_of(n);
    let ghost s = dec_digits(n as int);
    let len = ds.len();
    let mut l: usize = 1;
    while l <= len / 2
        invariant
            len == ds@.len(),
            s == dec_digits(n as int),
            ds@.map_values(|v: i64| v as int) == s,
            1 <= l,
            forall|ll: int|
                1 <= ll < l && (s.len() as int) % ll == 0 ==> !#[trigger] is_periodic(s, ll),
        decreases len / 2 + 1 - l,
    {
        if len % l == 0 {
            let mut i: usize = l;
            let mut matched = true;
            while i < len
                invariant
                    len == ds@.len(),
                    s == dec_digits(n as int),
                    ds@.map_values(|v: i64| v as int) == s,
                    1 <= l <= i,
                    i <= len,
                    matched ==> forall|t: int| l <= t < i ==> s[t] == #[trigger] s[t - l],
                    !matched ==> !is_periodic(s, l as int),
                decreases len - i,
            {
                if ds[i] != ds[i - l] {
                    matched = false;
                    proof {
                        assert(s[i as int] != s[i - l]);
                    }
                    i = len;
                } else {
                    i = i + 1;
                }
            }
            if matched {
                proof {
                    assert(is_periodic(s, l as int));
                }
                return true;
            }
        }
        l = l + 1;
    }
    proof {
        assert forall|ll: int|
            1 <= ll <= s.len() / 2 && (s.len() as int) % ll == 0 implies !is_periodic(s, ll) by {
        }
    }
    false
}

/// Sum of the numbers in `lo ..= hi` whose digit string is two equal
/// halves.
pub open spec fn invalid_total(lo: int, hi: int) -> int
    decreases hi + 1 - lo,
{
    if lo > hi {
        0
    } else {
        invalid_total(lo, hi - 1) + if spec_equal_halfs(hi) {
            hi
        } else {
            0
        }
    }
}

/// Sum of the numbers in `lo ..= hi` whose digit string is a repeated
/// block.
pub open spec fn invalid_full(lo: int, hi: int) -> int
    decreases hi + 1 - lo,
{
    if lo > hi {
        0
    } else {
        invalid_full(lo, hi - 1) + if spec_has_repeated_sequence(hi) {
            hi
        } else {
            0
        }
    }
}

/// Both sums only grow as the upper end moves right, and never drop
/// below zero, as long as the range holds no negative numbers.
pub proof fn lemma_invalid_sums_mono(lo: int, hi1: int, hi2: int)
    requires
        0 <= lo,
    ensures
        0 <= invalid_total(lo, hi2),
        0 <= invalid_full(lo, hi2),
        hi1 <= hi2 ==> invalid_total(lo, hi1) <= invalid_total(lo, hi2),
        hi1 <= hi2 ==> invalid_full(lo, hi1) <= invalid_full(lo, hi2),
    decreases hi2 + 1 - lo,
{
    if lo > hi2 {
    } else {
        lemma_invalid_sums_mono(lo, hi1, hi2 - 1);
    }
}

/// Sums the invalid numbers of the inclusive range `start ..= finish`:
/// the first component counts the numbers made of two equal halves, the
/// second those made of any repeated block.
pub fn range_invalid_sums(start: i64, finish: i64) -> (r: (i64, i64))
    requires
        0 <= start,
        invalid_total(start as int, finish as int) <= i64::MAX,
        invalid_full(start as int, finish as int) <= i64::MAX,
    ensures
        r.0 == invalid_total(start as int, finish as int),
        r.1 == invalid_full(start as int, finish as int),
{
    if start > finish {
        return (0, 0);
    }
    let mut total: i64 = 0;
    let mut full: i64 = 0;
    let mut n = start;
    loop
        invariant_except_break
            start <= n <= finish,
            0 <= start,
            invalid_total(start as int, finish as int) <= i64::MAX,
            invalid_full(start as int, finish as int) <= i64::MAX,
            total == invalid_total(start as int, n - 1),
            full == invalid_full(start as int, n - 1),
        ensures
            total == invalid_total(start as int, finish as int),
            full == invalid_full(start as int, finish as int),
        decreases finish - n,
    {
        proof {
            lemma_invalid_sums_mono(start as int, n - 1, finish as int);
            lemma_invalid_sums_mono(start as int, n as int, finish as int);
        }
        if equal_halfs(n) {
            total = total + n;
        }
        if has_repeated_sequence(n) {
            full = full + n;
        }
        if n == finish {
            break;
        }
        n = n + 1;
    }
    (total, full)
}

/// Sum of `invalid_total` over a list of ranges.
pub open spec fn ranges_invalid_total(rs: Seq<(i64, i64)>) -> int
    decreases rs.len(),
{
    if rs.len() == 0 {
        0
    } else {
        ranges_invalid_total(rs.drop_last()) + invalid_total(
            rs.last().0 as int,
            rs.last().1 as int,
        )
    }
}

/// Sum of `invalid_full` over a list of ranges.
pub open spec fn ranges_invalid_full(rs: Seq<(i64, i64)>) -> int
    decreases rs.len(),
{
    if rs.len() == 0 {
        0
    } else {
        ranges_invalid_full(rs.drop_last()) + invalid_full(
            rs.last().0 as int,
            rs.last().1 as int,
        )
    }
}

/// Partial sums over ranges with non-negative ends stay between zero and
/// the whole sum.
pub proof fn lemma_ranges_sums_mono(rs: Seq<(i64, i64)>, t: int)
    requires
        0 <= t <= rs.len(),
        forall|i: int| 0 <= i < rs.len() ==> 0 <= (#[trigger] rs[i]).0,
    ensures
        0 <= ranges_invalid_total(rs.subrange(0, t)) <= ranges_invalid_total(rs),
        0 <= ranges_invalid_full(rs.subrange(0, t)) <= ranges_invalid_full(rs),
    decreases rs.len(),
{
    if rs.len() == 0 {
        assert(rs.subrange(0, t) =~= rs);
    } else if t == rs.len() {
        assert(rs.subrange(0, t) =~= rs);
        lemma_ranges_sums_mono(rs.drop_last(), rs.len() - 1);
        assert(rs.drop_last().subrange(0, rs.len() - 1) =~= rs.drop_last());
        lemma_invalid_sums_mono(rs.last().0 as int, rs.last().0 - 1, rs.last().1 as int);
    } else {
        lemma_ranges_sums_mono(rs.drop_last(), t);
        assert(rs.drop_last().subrange(0, t) =~= rs.subrange(0, t));
        lemma_invalid_sums_mono(rs.last().0 as int, rs.last().0 - 1, rs.last().1 as int);
    }
}

/// Sums the invalid numbers over every given `(start, finish)` range:
/// the first component counts the numbers made of two equal halves, the
/// second those made of any repeated block.
pub fn find_invalid(ranges: &Vec<(i64, i64)>) -> (r: (i64, i64))
    requires
        forall|i: int| 0 <= i < ranges@.len() ==> 0 <= (#[trigger] ranges@[i]).0,
        ranges_invalid_total(ranges@) <= i64::MAX,
        ranges_invalid_full(ranges@) <= i64::MAX,
    ensures
        r.0 == ranges_invalid_total(ranges@),
        r.1 == ranges_invalid_full(ranges@),
{
    let mut total: i64 = 0;
    let mut full: i64 = 0;
    let mut t: usize = 0;
    while t < ranges.len()
        invariant
            t <= ranges@.len(),
            forall|i: int| 0 <= i < ranges@.len() ==> 0 <= (#[trigger] ranges@[i]).0,
            ranges_invalid_total(ranges@) <= i64::MAX,
            ranges_invalid_full(ranges@) <= i64::MAX,
            total == ranges_invalid_total(ranges@.subrange(0, t as int)),
            full == ranges_invalid_full(ranges@.subrange(0, t as int)),
        decreases ranges@.len() - t,
    {
        let (start, finish) = ranges[t];
        proof {
            lemma_ranges_sums_mono(ranges@, t as int);
            lemma_ranges_sums_mono(ranges@, t + 1);
            assert(ranges@.subrange(0, t + 1).drop_last() =~= ranges@.subrange(0, t as int));
            assert(ranges@.subrange(0, t + 1).last() == ranges@[t as int]);
            lemma_invalid_sums_mono(start as int, start - 1, finish as int);
        }
        let sums = range_invalid_sums(start, finish);
        total = total + sums.0;
        full = full + sums.1;
        t = t + 1;
    }
    proof {
        assert(ranges@.subrange(0, ranges@.len() as int) =~= ranges@);
    }
    (total, full)
}

} // verus!
