//! Voltage readings from banks of digits: the best two-digit reading of
//! a bank, and the best twelve-digit reading obtained through the digit
//! selector, summed over all banks.

use vstd::prelude::*;
use crate::selector::{is_max_subsequence, select_max_subsequence};
use crate::subsequence::{is_index_map, is_subsequence, select};

verus! {

/// The largest digit of a non-empty sequence.
pub open spec fn max_digit(s: Seq<u32>) -> int
    decreases s.len(),
{
    if s.len() <= 1 {
        s[0] as int
    } else if max_digit(s.drop_last()) >= s.last() {
        max_digit(s.drop_last())
    } else {
        s.last() as int
    }
}

/// The best two-digit reading of a bank: the largest value `10 * s[i] + s[j]`
/// over positions `i < j`.
pub open spec fn best_pair(s: Seq<u32>) -> int
    decreases s.len(),
{
    if s.len() <= 2 {
        s[0] * 10 + s[1]
    } else if best_pair(s.drop_last()) >= max_digit(s.drop_last()) * 10 + s.last() {
        best_pair(s.drop_last())
    } else {
        max_digit(s.drop_last()) * 10 + s.last()
    }
}

/// The best two-digit reading of one bank of digits.
pub fn highest_volts_line(digits: &Vec<u32>) -> (r: u32)
    requires
        digits@.len() >= 2,
        forall|i: int| 0 <= i < digits@.len() ==> digits@[i] <= 9,
    ensures
        r == best_pair(digits@),
        r <= 99,
{
    let mut md = digits[0];
    let mut best = digits[0] * 10 + digits[1];
    if digits[1] > md {
        md = digits[1];
    }
    let mut j: usize = 2;
    proof {
        assert(digits@.subrange(0, 2).drop_last() =~= digits@.subrange(0, 1));
        assert(max_digit(digits@.subrange(0, 1)) == digits@[0]);
        assert(digits@.subrange(0, 2)[0] == digits@[0]);
        assert(digits@.subrange(0, 2)[1] == digits@[1]);
        assert(md == max_digit(digits@.subrange(0, j as int)));
        assert(best == best_pair(digits@.subrange(0, j as int)));
    }
    while j < digits.len()
        invariant
            2 <= j <= digits@.len(),
            forall|i: int| 0 <= i < digits@.len() ==> digits@[i] <= 9,
            md == max_digit(digits@.subrange(0, j as int)),
            best == best_pair(digits@.subrange(0, j as int)),
            md <= 9,
            best <= 99,
        decreases digits@.len() - j,
    {
        let d = digits[j];
        proof {
            assert(digits@.subrange(0, j + 1).drop_last() =~= digits@.subrange(0, j as int));
            assert(digits@.subrange(0, j + 1).last() == digits@[j as int]);
        }
        if md * 10 + d > best {
            best = md * 10 + d;
        }
        if d > md {
            md = d;
        }
        j = j + 1;
    }
    proof {
        assert(digits@.subrange(0, digits@.len() as int) =~= digits@);
    }
    best
}

/// Sum of the best two-digit readings over all banks.
pub open spec fn volts_sum(banks: Seq<Seq<u32>>) -> int
    decreases banks.len(),
{
    if banks.len() == 0 {
        0
    } else {
        volts_sum(banks.drop_last()) + best_pair(banks.last())
    }
}

/// A well-formed bank for the two-digit reading: at least two digits,
/// all in range.
pub open spec fn wf_bank(s: Seq<u32>) -> bool {
    s.len() >= 2 && forall|i: int| 0 <= i < s.len() ==> s[i] <= 9
}

proof fn lemma_best_pair_bounds(s: Seq<u32>)
    requires
        wf_bank(s),
    ensures
        0 <= best_pair(s) <= 99,
    decreases s.len(),
{
    if s.len() <= 2 {
    } else {
        assert(wf_bank(s.drop_last()));
        lemma_best_pair_bounds(s.drop_last());
        lemma_max_digit_bounds(s.drop_last());
    }
}

proof fn lemma_max_digit_bounds(s: Seq<u32>)
    requires
        s.len() >= 1,
        forall|i: int| 0 <= i < s.len() ==> s[i] <= 9,
    ensures
        0 <= max_digit(s) <= 9,
    decreases s.len(),
{
    if s.len() > 1 {
        lemma_max_digit_bounds(s.drop_last());
    }
}

proof fn lemma_volts_sum_mono(banks: Seq<Seq<u32>>, t: int)
    requires
        0 <= t <= banks.len(),
        forall|i: int| 0 <= i < banks.len() ==> wf_bank(#[trigger] banks[i]),
    ensures
        0 <= volts_sum(banks.subrange(0, t)) <= volts_sum(banks),
    decreases banks.len(),
{
    if banks.len() == 0 {
        assert(banks.subrange(0, t) =~= banks);
    } else if t == banks.len() {
        assert(banks.subrange(0, t) =~= banks);
        lemma_volts_sum_mono(banks.drop_last(), banks.len() - 1);
        assert(banks.drop_last().subrange(0, banks.len() - 1) =~= banks.drop_last());
        lemma_best_pair_bounds(banks.last());
    } else {
        lemma_volts_sum_mono(banks.drop_last(), t);
        assert(banks.drop_last().subrange(0, t) =~= banks.subrange(0, t));
        lemma_best_pair_bounds(banks.last());
    }
}

/// Total voltage over all banks: each bank contributes its best
/// two-digit reading.
pub fn highest_volts(banks: &Vec<Vec<u32>>) -> (r: u32)
    requires
        forall|i: int| 0 <= i < banks@.len() ==> wf_bank((#[trigger] banks@[i])@),
        volts_sum(banks@.map_values(|b: Vec<u32>| b@)) <= u32::MAX,
    ensures
        r == volts_sum(banks@.map_values(|b: Vec<u32>| b@)),
{
    let ghost bs = banks@.map_values(|b: Vec<u32>| b@);
    let mut total: u32 = 0;
    let mut t: usize = 0;
    while t < banks.len()
        invariant
            t <= banks@.len(),
            bs == banks@.map_values(|b: Vec<u32>| b@),
            forall|i: int| 0 <= i < banks@.len() ==> wf_bank((#[trigger] banks@[i])@),
            volts_sum(bs) <= u32::MAX,
            total == volts_sum(bs.subrange(0, t as int)),
        decreases banks@.len() - t,
    {
        proof {
            assert(forall|i: int| 0 <= i < bs.len() ==> wf_bank(#[trigger] bs[i]));
            lemma_volts_sum_mono(bs, t as int);
            lemma_volts_sum_mono(bs, t + 1);
            assert(bs.subrange(0, t + 1).drop_last() =~= bs.subrange(0, t as int));
            assert(bs.subrange(0, t + 1).last() == bs[t as int]);
        }
        let v = highest_volts_line(&banks[t]);
        total = total + v;
        t = t + 1;
    }
    proof {
        assert(bs.subrange(0, bs.len() as int) =~= bs);
    }
    total
}

/// The value of a digit string read as a base-10 numeral.
pub open spec fn numeral_value(s: Seq<u32>) -> int
    decreases s.len(),
{
    if s.len() == 0 {
        0
    } else {
        numeral_value(s.drop_last()) * 10 + s.last()
    }
}

/// Ten to the power `n`.
pub open spec fn pow10(n: nat) -> int
    decreases n,
{
    if n == 0 {
        1
    } else {
        10 * pow10((n - 1) as nat)
    }
}

proof fn lemma_numeral_value_bound(s: Seq<u32>)
    requires
        forall|i: int| 0 <= i < s.len() ==> s[i] <= 9,
    ensures
        0 <= numeral_value(s) < pow10(s.len()),
    decreases s.len(),
{
    if s.len() > 0 {
        lemma_numeral_value_bound(s.drop_last());
    }
}

/// Reads a digit vector as a base-10 number.
pub fn to_number(digits: &Vec<u32>) -> (r: u64)
    requires
        forall|i: int| 0 <= i < digits@.len() ==> digits@[i] <= 9,
        digits@.len() <= 19,
    ensures
        r == numeral_value(digits@),
{
    proof {
        lemma_pow10_19();
    }
    let mut r: u64 = 0;
    let mut i: usize = 0;
    while i < digits.len()
        invariant
            i <= digits@.len() <= 19,
            forall|t: int| 0 <= t < digits@.len() ==> digits@[t] <= 9,
            r == numeral_value(digits@.subrange(0, i as int)),
        decreases digits@.len() - i,
    {
        proof {
            assert(digits@.subrange(0, i + 1).drop_last() =~= digits@.subrange(0, i as int));
            assert(forall|t: int|
                0 <= t < digits@.subrange(0, i + 1).len() ==> #[trigger] digits@.subrange(
                    0,
                    i + 1,
                )[t] <= 9);
            lemma_numeral_value_bound(digits@.subrange(0, i + 1));
            lemma_pow10_mono(digits@.subrange(0, i + 1).len(), 19);
            lemma_pow10_19();
        }
        r = r * 10 + (digits[i] as u64);
        i = i + 1;
    }
    proof {
        assert(digits@.subrange(0, digits@.len() as int) =~= digits@);
    }
    r
}

proof fn lemma_pow10_19()
    ensures
        pow10(19) == 0x8ac7230489e80000,
{
    assert(pow10(0) == 1);
    assert(pow10(1) == 10);
    assert(pow10(2) == 100);
    assert(pow10(3) == 1000);
    assert(pow10(4) == 10000);
    assert(pow10(5) == 100000);
    assert(pow10(6) == 1000000);
    assert(pow10(7) == 10000000);
    assert(pow10(8) == 100000000);
    assert(pow10(9) == 1000000000);
    assert(pow10(10) == 10000000000);
    assert(pow10(11) == 100000000000);
    assert(pow10(12) == 1000000000000);
    assert(pow10(13) == 10000000000000);
    assert(pow10(14) == 100000000000000);
    assert(pow10(15) == 1000000000000000);
    assert(pow10(16) == 10000000000000000);
    assert(pow10(17) == 100000000000000000);
    assert(pow10(18) == 1000000000000000000);
    assert(pow10(19) == 10000000000000000000);
}

proof fn lemma_pow10_mono(a: nat, b: nat)
    requires
        a <= b,
    ensures
        pow10(a) <= pow10(b),
        pow10(a) >= 1,
    decreases b,
{
    if a < b {
        lemma_pow10_mono(a, (b - 1) as nat);
    } else if a > 0 {
        lemma_pow10_mono((a - 1) as nat, (b - 1) as nat);
    }
}

/// The numeral values of a list of digit strings, summed.
pub open spec fn vals_sum(vs: Seq<Seq<u32>>) -> int
    decreases vs.len(),
{
    if vs.len() == 0 {
        0
    } else {
        vals_sum(vs.drop_last()) + numeral_value(vs.last())
    }
}

/// A well-formed bank for the twelve-digit reading.
pub open spec fn wf_long_bank(s: Seq<u32>) -> bool {
    s.len() >= 12 && forall|i: int| 0 <= i < s.len() ==> s[i] <= 9
}

/// A subsequence of a digit string is again a digit string.
proof fn lemma_subsequence_digits(s: Seq<u32>, v: Seq<u32>)
    requires
        forall|i: int| 0 <= i < s.len() ==> s[i] <= 9,
        is_subsequence(v, s),
    ensures
        forall|i: int| 0 <= i < v.len() ==> v[i] <= 9,
{
    let idx = choose|idx: Seq<int>|
        #[trigger] is_index_map(idx, s.len() as int) && v == select(s, idx);
    assert forall|i: int| 0 <= i < v.len() implies v[i] <= 9 by {
        assert(v[i] == s[idx[i]]);
    }
}

proof fn lemma_pow10_12()
    ensures
        pow10(12) == 1000000000000,
{
    assert(pow10(0) == 1);
    assert(pow10(1) == 10);
    assert(pow10(2) == 100);
    assert(pow10(3) == 1000);
    assert(pow10(4) == 10000);
    assert(pow10(5) == 100000);
    assert(pow10(6) == 1000000);
    assert(pow10(7) == 10000000);
    assert(pow10(8) == 100000000);
    assert(pow10(9) == 1000000000);
    assert(pow10(10) == 10000000000);
    assert(pow10(11) == 100000000000);
    assert(pow10(12) == 1000000000000);
}

/// Total advanced voltage: each bank contributes its greatest
/// twelve-digit subsequence, read as a base-10 number.  The result is
/// the sum of the values of those selections, one per bank, each the
/// unique greatest twelve-digit subsequence of its bank.
pub fn highest_volts_advanced(banks: &Vec<Vec<u32>>) -> (r: u64)
    requires
        forall|i: int| 0 <= i < banks@.len() ==> wf_long_bank((#[trigger] banks@[i])@),
        banks@.len() <= 18000000,
    ensures
        exists|vs: Seq<Seq<u32>>|
            {
                &&& vs.len() == banks@.len()
                &&& forall|i: int|
                    0 <= i < vs.len() ==> is_max_subsequence(banks@[i]@, 12, #[trigger] vs[i])
                &&& r == vals_sum(vs)
            },
{
    let ghost mut vs: Seq<Seq<u32>> = Seq::empty();
    let mut total: u64 = 0;
    let mut t: usize = 0;
    while t < banks.len()
        invariant
            t <= banks@.len() <= 18000000,
            forall|i: int| 0 <= i < banks@.len() ==> wf_long_bank((#[trigger] banks@[i])@),
            vs.len() == t,
            forall|i: int|
                0 <= i < vs.len() ==> is_max_subsequence(banks@[i]@, 12, #[trigger] vs[i]),
            total == vals_sum(vs),
            total <= (t as int) * 999999999999,
        decreases banks@.len() - t,
    {
        let sel = match select_max_subsequence(&banks[t], 12) {
            Ok(sel) => sel,
            Err(_) => {
                proof {
                    assert(false);
                }
                Vec::new()
            },
        };
        proof {
            lemma_subsequence_digits(banks@[t as int]@, sel@);
            lemma_numeral_value_bound(sel@);
            lemma_pow10_12();
        }
        let v = to_number(&sel);
        proof {
            let vs0 = vs;
            vs = vs.push(sel@);
            assert(vs.drop_last() =~= vs0);
            assert(vs.last() == sel@);
        }
        total = total + v;
        t = t + 1;
    }
    proof {
        assert(vs.len() == banks@.len() && (forall|i: int|
            0 <= i < vs.len() ==> is_max_subsequence(banks@[i]@, 12, #[trigger] vs[i]))
            && total == vals_sum(vs));
    }
    total
}

/// The two-digit reading taken at positions `i < j`.
pub open spec fn pair_value(s: Seq<u32>, i: int, j: int) -> int {
    s[i] * 10 + s[j]
}

/// The largest digit really is the largest: no digit exceeds it, and
/// some digit attains it.
pub proof fn lemma_max_digit_is_max(s: Seq<u32>)
    requires
        s.len() >= 1,
    ensures
        forall|i: int| 0 <= i < s.len() ==> s[i] <= max_digit(s),
        exists|i: int| 0 <= i < s.len() && s[i] == max_digit(s),
    decreases s.len(),
{
    if s.len() == 1 {
        assert(s[0] == max_digit(s));
    } else {
        lemma_max_digit_is_max(s.drop_last());
        assert forall|i: int| 0 <= i < s.len() implies s[i] <= max_digit(s) by {
            if i < s.len() - 1 {
                assert(s.drop_last()[i] == s[i]);
            }
        }
        if max_digit(s.drop_last()) >= s.last() {
            let i = choose|i: int|
                0 <= i < s.drop_last().len() && s.drop_last()[i] == max_digit(s.drop_last());
            assert(s[i] == max_digit(s));
        } else {
            assert(s[s.len() - 1] == max_digit(s));
        }
    }
}

/// The best two-digit reading really is the best: no pair of positions
/// beats it, and some pair attains it.
pub proof fn lemma_best_pair_is_max(s: Seq<u32>)
    requires
        s.len() >= 2,
    ensures
        forall|i: int, j: int| 0 <= i < j < s.len() ==> #[trigger] pair_value(s, i, j)
            <= best_pair(s),
        exists|i: int, j: int| 0 <= i < j < s.len() && #[trigger] pair_value(s, i, j)
            == best_pair(s),
    decreases s.len(),
{
    if s.len() == 2 {
        assert(pair_value(s, 0, 1) == best_pair(s));
    } else {
        let dl = s.drop_last();
        lemma_best_pair_is_max(dl);
        lemma_max_digit_is_max(dl);
        assert forall|i: int, j: int|
            0 <= i < j < s.len() implies #[trigger] pair_value(s, i, j) <= best_pair(s) by {
            if j < s.len() - 1 {
                assert(pair_value(dl, i, j) <= best_pair(dl));
                assert(dl[i] == s[i] && dl[j] == s[j]);
            } else {
                assert(dl[i] == s[i]);
                assert(s[i] <= max_digit(dl));
            }
        }
        if best_pair(dl) >= max_digit(dl) * 10 + s.last() {
            let (i, j): (int, int) = choose|i: int, j: int|
                0 <= i < j < dl.len() && #[trigger] pair_value(dl, i, j) == best_pair(dl);
            assert(dl[i] == s[i] && dl[j] == s[j]);
            assert(pair_value(s, i, j) == best_pair(s));
        } else {
            let i = choose|i: int| 0 <= i < dl.len() && dl[i] == max_digit(dl);
            assert(dl[i] == s[i]);
            assert(pair_value(s, i, s.len() - 1) == best_pair(s));
        }
    }
}

} // verus!
