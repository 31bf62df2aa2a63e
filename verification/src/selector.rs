//! The digit selector: the lexicographically greatest order-preserving
//! subsequence of a fixed length, found by a single monotonic-stack pass.

use vstd::prelude::*;
use crate::subsequence::{
    agree_upto, is_index_map, is_subsequence, lemma_lex_le_push, lemma_lex_le_trans,
    lemma_lex_lt_asym, lemma_subsequence_full, lex_le, lt_at, select,
};

verus! {

/// Error taxonomy of the selector: the only failure is a target length
/// that exceeds the input length.
#[derive(Clone, Copy, Debug, PartialEq, Eq, Structural)]
pub enum SelectError {
    InvalidArgument,
}

/// `s` is the lexicographically greatest subsequence of `d` of length `k`.
pub open spec fn is_max_subsequence(d: Seq<u32>, k: int, s: Seq<u32>) -> bool {
    &&& s.len() == k
    &&& is_subsequence(s, d)
    &&& forall|t: Seq<u32>| t.len() == k && #[trigger] is_subsequence(t, d) ==> lex_le(t, s)
}

/// Every prefix of the stack dominates the equally long subsequences of
/// the processed input: for each admissible length `q`, every
/// order-preserving pick of `q` of the first `j` digits is
/// lexicographically at most the first `q` stack entries.  Lengths below
/// `j - bb` cannot matter: the stack can lose at most `bb` more entries.
spec fn inv_dominates(d: Seq<u32>, j: int, bb: int, stk: Seq<u32>) -> bool {
    forall|idx: Seq<int>|
        #[trigger] is_index_map(idx, j) && j - bb <= idx.len() <= stk.len()
            ==> lex_le(select(d, idx), stk.subrange(0, idx.len() as int))
}

/// The part of the stack still within reach of the remaining removal
/// budget `b` is non-increasing: deeper entries are frozen, and the top
/// `b + 1` entries were only ever pushed on top of entries at least as
/// large.
spec fn inv_sorted(stk: Seq<u32>, b: int) -> bool {
    forall|i1: int, i2: int|
        stk.len() - b - 1 <= i1 < i2 < stk.len() && 0 <= i1
            ==> #[trigger] stk[i1] >= #[trigger] stk[i2]
}

/// Any pick of positions that reproduces the whole stack must end at the
/// most recently processed digit.
spec fn inv_pins_last(d: Seq<u32>, j: int, stk: Seq<u32>) -> bool {
    forall|idx: Seq<int>|
        #[trigger] is_index_map(idx, j) && idx.len() == stk.len() && idx.len() >= 1
            && select(d, idx) == stk
            ==> idx[idx.len() - 1] == j - 1
}

/// One step of the stack pass preserves the three invariants: from the
/// state after `j` digits, pop `p` entries that are smaller than `d[j]`
/// (stopping at an exhausted budget, an empty stack or a top at least
/// `d[j]`), then push `d[j]`.
proof fn lemma_step(d: Seq<u32>, j: int, bb: int, stk0: Seq<u32>, used0: int, p: int)
    requires
        0 <= j < d.len(),
        0 <= used0,
        0 <= p <= stk0.len(),
        used0 + p <= bb,
        stk0.len() + used0 == j,
        j >= 1 ==> stk0.len() >= 1,
        forall|i: int| stk0.len() - p <= i < stk0.len() ==> #[trigger] stk0[i] < d[j],
        (used0 + p == bb) || (p == stk0.len()) || stk0[stk0.len() - p - 1] >= d[j],
        inv_dominates(d, j, bb, stk0),
        inv_sorted(stk0, bb - used0),
        inv_pins_last(d, j, stk0),
    ensures
        inv_dominates(d, j + 1, bb, stk0.subrange(0, stk0.len() - p).push(d[j])),
        inv_sorted(stk0.subrange(0, stk0.len() - p).push(d[j]), bb - used0 - p),
        inv_pins_last(d, j + 1, stk0.subrange(0, stk0.len() - p).push(d[j])),
{
    let m = stk0.len() as int;
    let b0 = bb - used0;
    let stk1 = stk0.subrange(0, m - p).push(d[j]);
    assert(stk1.len() == m - p + 1);
    assert(forall|i: int| 0 <= i < m - p ==> #[trigger] stk1[i] == stk0[i]);
    assert(stk1[m - p] == d[j]);

    // --- the reachable top of the new stack is non-increasing ---
    assert forall|i1: int, i2: int|
        stk1.len() - (b0 - p) - 1 <= i1 < i2 < stk1.len() && 0 <= i1
        implies stk1[i1] >= stk1[i2] by {
        // i1 >= m - b0, hence within the old non-increasing region.
        if i2 < m - p {
            assert(stk0[i1] >= stk0[i2]);
        } else {
            // i2 == m - p, the new top d[j].
            if used0 + p == bb {
                assert(false);
            } else if p == m {
                assert(false);
            } else {
                if i1 < m - p - 1 {
                    assert(stk0[i1] >= stk0[m - p - 1]);
                }
                assert(stk0[m - p - 1] >= d[j]);
                assert(stk1[i1] >= d[j]);
            }
        }
    }

    // --- every admissible pick of the first j + 1 digits is dominated ---
    assert forall|idx: Seq<int>|
        #[trigger] is_index_map(idx, j + 1) && j + 1 - bb <= idx.len() <= stk1.len()
        implies lex_le(select(d, idx), stk1.subrange(0, idx.len() as int)) by {
        let q = idx.len() as int;
        let s = select(d, idx);
        if q == 0 {
            assert(s =~= stk1.subrange(0, 0));
        } else if idx[q - 1] == j {
            // The pick uses the new digit; peel it off and use domination
            // of the remainder over the first j digits.
            let idx0 = idx.subrange(0, q - 1);
            assert(is_index_map(idx0, j)) by {
                assert(forall|i: int| 0 <= i < q - 1 ==> #[trigger] idx[i] < idx[q - 1]);
            }
            let s0 = select(d, idx0);
            assert(s =~= s0.push(d[j]));
            assert(lex_le(s0, stk0.subrange(0, q - 1)));
            if q - 1 == m - p {
                lemma_lex_le_push(s0, stk0.subrange(0, q - 1), d[j], d[j]);
                assert(stk1.subrange(0, q) =~= stk0.subrange(0, q - 1).push(d[j]));
            } else {
                // q - 1 < m - p: the compared stack entry is an old one,
                // and it is at least d[j].
                assert(stk0[q - 1] >= d[j]) by {
                    if used0 + p == bb {
                        assert(false);
                    } else if p == m {
                        assert(false);
                    } else {
                        if q - 1 < m - p - 1 {
                            assert(stk0[q - 1] >= stk0[m - p - 1]);
                        }
                        assert(stk0[m - p - 1] >= d[j]);
                    }
                }
                lemma_lex_le_push(s0, stk0.subrange(0, q - 1), d[j], stk0[q - 1]);
                assert(stk1.subrange(0, q) =~= stk0.subrange(0, q - 1).push(stk0[q - 1]));
            }
        } else {
            // The pick stays within the first j digits.
            assert(idx[q - 1] < j);
            assert(is_index_map(idx, j)) by {
                assert(forall|i: int| 0 <= i < q - 1 ==> #[trigger] idx[i] < idx[q - 1]);
            }
            if q <= m - p {
                assert(lex_le(s, stk0.subrange(0, q)));
                assert(stk1.subrange(0, q) =~= stk0.subrange(0, q));
            } else if p >= 1 {
                // q == m - p + 1 <= m: the old stack prefix of length q
                // dominates the pick, and the new stack beats that prefix
                // at position m - p, where a smaller entry was popped.
                assert(lex_le(s, stk0.subrange(0, q)));
                assert(agree_upto(stk0.subrange(0, q), stk1.subrange(0, q), m - p));
                assert(stk0.subrange(0, q)[m - p] == stk0[m - p]);
                assert(stk0[m - p] < d[j]);
                assert(lt_at(stk0.subrange(0, q), stk1.subrange(0, q), m - p));
                lemma_lex_le_trans(s, stk0.subrange(0, q), stk1.subrange(0, q));
            } else {
                // p == 0 and q == m + 1: a pick of m + 1 digits out of the
                // first j.  Its first m entries cannot reproduce the stack
                // (that would pin them to digit j - 1, leaving no room),
                // so they are strictly below it.
                let idx0 = idx.subrange(0, m);
                assert(is_index_map(idx0, j)) by {
                    assert(forall|i: int| 0 <= i < m ==> #[trigger] idx[i] <= idx[q - 1]);
                }
                let s0 = select(d, idx0);
                assert(lex_le(s0, stk0.subrange(0, m)));
                assert(stk0.subrange(0, m) =~= stk0);
                if s0 == stk0 {
                    if j >= 1 {
                        assert(idx0[m - 1] == j - 1);
                        assert(idx[m - 1] == j - 1);
                        assert(idx[m] > j - 1);
                        assert(false);
                    } else {
                        assert(0 <= idx[0] < j);
                        assert(false);
                    }
                } else {
                    let i = choose|i: int| lt_at(s0, stk0, i);
                    assert(stk1.subrange(0, q) =~= stk1);
                    assert(agree_upto(s, stk1, i)) by {
                        assert(forall|jj: int| 0 <= jj < i ==> #[trigger] s[jj] == s0[jj]);
                        assert(forall|jj: int| 0 <= jj < i ==> #[trigger] stk1[jj] == stk0[jj]);
                    }
                    assert(s[i] == s0[i]);
                    assert(stk1[i] == stk0[i]);
                    assert(lt_at(s, stk1, i));
                }
            }
        }
    }

    // --- a pick reproducing the new stack ends at digit j ---
    assert forall|idx: Seq<int>|
        #[trigger] is_index_map(idx, j + 1) && idx.len() == stk1.len() && idx.len() >= 1
            && select(d, idx) == stk1
        implies idx[idx.len() - 1] == j by {
        let q = idx.len() as int;
        if idx[q - 1] != j {
            assert(idx[q - 1] < j);
            assert(is_index_map(idx, j)) by {
                assert(forall|i: int| 0 <= i < q - 1 ==> #[trigger] idx[i] < idx[q - 1]);
            }
            if p >= 1 {
                // The pick would be dominated by the old stack prefix of
                // its length, yet it is strictly greater there: the popped
                // entry at position m - p lost to d[j].
                assert(lex_le(select(d, idx), stk0.subrange(0, q)));
                assert(agree_upto(stk0.subrange(0, q), stk1, m - p));
                assert(stk0.subrange(0, q)[m - p] == stk0[m - p]);
                assert(stk0[m - p] < d[j]);
                assert(lt_at(stk0.subrange(0, q), stk1, m - p));
                lemma_lex_lt_asym(stk0.subrange(0, q), stk1);
                assert(false);
            } else {
                // p == 0: the first m entries of the pick reproduce the
                // old stack, pinning them to digit j - 1.
                if j == 0 {
                    assert(0 <= idx[0] < j);
                    assert(false);
                } else {
                    let idx0 = idx.subrange(0, m);
                    assert(is_index_map(idx0, j)) by {
                        assert(forall|i: int| 0 <= i < m ==> #[trigger] idx[i] <= idx[q - 1]);
                    }
                    assert forall|i: int| 0 <= i < m implies #[trigger] select(d, idx0)[i] == stk0[i] by {
                        assert(idx0[i] == idx[i]);
                        assert(select(d, idx0)[i] == d[idx0[i]]);
                        assert(select(d, idx)[i] == d[idx[i]]);
                        assert(select(d, idx)[i] == stk1[i]);
                        assert(stk1[i] == stk0[i]);
                    }
                    assert(select(d, idx0) =~= stk0);
                    assert(idx0[m - 1] == j - 1);
                    assert(idx[m - 1] == j - 1);
                    assert(idx[m] > j - 1);
                    assert(idx[m] < j);
                    assert(false);
                }
            }
        }
    }
}

/// The greatest subsequence of a given length is unique.
pub proof fn lemma_max_subsequence_unique(d: Seq<u32>, k: int, s1: Seq<u32>, s2: Seq<u32>)
    requires
        is_max_subsequence(d, k, s1),
        is_max_subsequence(d, k, s2),
    ensures
        s1 == s2,
{
    assert(lex_le(s1, s2));
    assert(lex_le(s2, s1));
    if s1 != s2 {
        lemma_lex_lt_asym(s1, s2);
        assert(false);
    }
}

/// Selects the lexicographically greatest subsequence of `digits` of
/// length `k`, preserving the original order of the digits.
///
/// A single left-to-right pass keeps a working stack and a removal budget
/// of `digits.len() - k` discards.  Each digit may first evict smaller
/// stack entries, as long as budget remains, and is then pushed; if the
/// budget was never exhausted the stack ends up longer than `k` and is
/// truncated to its first `k` entries.
pub fn select_max_subsequence(digits: &Vec<u32>, k: usize) -> (r: Result<Vec<u32>, SelectError>)
    requires
        forall|i: int| 0 <= i < digits@.len() ==> digits@[i] <= 9,
    ensures
        k > digits@.len() <==> r is Err,
        r is Err ==> r == Result::<Vec<u32>, SelectError>::Err(SelectError::InvalidArgument),
        r is Ok ==> is_max_subsequence(digits@, k as int, r->Ok_0@),
        r is Ok && k == 0 ==> r->Ok_0@ == Seq::<u32>::empty(),
        k == digits@.len() ==> r is Ok && r->Ok_0@ == digits@,
{
    let n = digits.len();
    if k > n {
        return Err(SelectError::InvalidArgument);
    }
    let bb = n - k;
    let mut stack: Vec<u32> = Vec::new();
    let ghost mut t_idx: Seq<int> = Seq::empty();
    let mut to_remove = bb;
    let mut j: usize = 0;

    proof {
        assert forall|idx: Seq<int>|
            #[trigger] is_index_map(idx, 0) && 0 - bb <= idx.len() <= stack@.len()
            implies lex_le(select(digits@, idx), stack@.subrange(0, idx.len() as int)) by {
            assert(idx.len() == 0);
            assert(select(digits@, idx) =~= stack@.subrange(0, 0));
        }
    }

    while j < n
        invariant
            n == digits@.len(),
            forall|i: int| 0 <= i < digits@.len() ==> digits@[i] <= 9,
            bb == n - k,
            k <= n,
            j <= n,
            stack@.len() <= j,
            to_remove == bb - (j - stack@.len()),
            to_remove >= 0,
            j >= 1 ==> stack@.len() >= 1,
            is_index_map(t_idx, j as int),
            t_idx.len() == stack@.len(),
            select(digits@, t_idx) == stack@,
            inv_dominates(digits@, j as int, bb as int, stack@),
            inv_sorted(stack@, to_remove as int),
            inv_pins_last(digits@, j as int, stack@),
        decreases n - j,
    {
        let d = digits[j];
        let ghost stk0 = stack@;
        let ghost used0 = j - stack@.len();
        let ghost rem0 = to_remove as int;

        while to_remove > 0 && stack.len() > 0 && stack[stack.len() - 1] < d
            invariant
                n == digits@.len(),
                0 <= j < n,
                d == digits@[j as int],
                stack@.len() <= stk0.len(),
                stack@ == stk0.subrange(0, stack@.len() as int),
                to_remove == rem0 - (stk0.len() - stack@.len()),
                to_remove >= 0,
                forall|i: int|
                    stack@.len() <= i < stk0.len() ==> #[trigger] stk0[i] < d,
                is_index_map(t_idx, j as int),
                t_idx.len() == stack@.len(),
                select(digits@, t_idx) == stack@,
            decreases stack.len(),
        {
            stack.pop();
            to_remove = to_remove - 1;
            proof {
                t_idx = t_idx.subrange(0, t_idx.len() - 1);
                assert(select(digits@, t_idx) =~= stack@);
            }
        }

        let ghost p = stk0.len() - stack@.len();
        stack.push(d);
        j = j + 1;
        proof {
            t_idx = t_idx.push(j - 1);
            assert(select(digits@, t_idx) =~= stack@);
            assert(stack@ =~= stk0.subrange(0, stk0.len() - p).push(digits@[j - 1]));
            lemma_step(digits@, j - 1, bb as int, stk0, used0, p);
        }
    }

    stack.truncate(k);
    let ghost final_idx = t_idx.subrange(0, k as int);
    proof {
        assert(is_index_map(final_idx, digits@.len() as int)) by {
            assert(forall|i: int| 0 <= i < k ==> #[trigger] final_idx[i] == t_idx[i]);
        }
        assert(stack@ == select(digits@, final_idx)) by {
            assert(stack@ =~= select(digits@, final_idx));
        }
        assert(is_subsequence(stack@, digits@));
        assert forall|t: Seq<u32>|
            t.len() == k && #[trigger] is_subsequence(t, digits@)
            implies lex_le(t, stack@) by {
            let idx = choose|idx: Seq<int>|
                #[trigger] is_index_map(idx, digits@.len() as int) && t == select(digits@, idx);
            assert(lex_le(select(digits@, idx), stack@));
        }
        if k == n {
            lemma_subsequence_full(stack@, digits@);
        }
        if k == 0 {
            assert(stack@ =~= Seq::<u32>::empty());
        }
    }
    Ok(stack)
}

/// The character that writes the digit `d`.
pub open spec fn digit_char(d: u32) -> char {
    if d == 0 {
        '0'
    } else if d == 1 {
        '1'
    } else if d == 2 {
        '2'
    } else if d == 3 {
        '3'
    } else if d == 4 {
        '4'
    } else if d == 5 {
        '5'
    } else if d == 6 {
        '6'
    } else if d == 7 {
        '7'
    } else if d == 8 {
        '8'
    } else {
        '9'
    }
}

/// The digits of `s` written out as characters, in order.
pub open spec fn digit_chars(s: Seq<u32>) -> Seq<char> {
    Seq::new(s.len(), |i: int| digit_char(s[i]))
}

fn push_digit(s: &mut String, d: u32)
    requires
        d <= 9,
    ensures
        final(s)@ == old(s)@.push(digit_char(d)),
{
    match d {
        0 => {
            proof {
                reveal_strlit("0");
            }
            s.append("0");
        },
        1 => {
            proof {
                reveal_strlit("1");
            }
            s.append("1");
        },
        2 => {
            proof {
                reveal_strlit("2");
            }
            s.append("2");
        },
        3 => {
            proof {
                reveal_strlit("3");
            }
            s.append("3");
        },
        4 => {
            proof {
                reveal_strlit("4");
            }
            s.append("4");
        },
        5 => {
            proof {
                reveal_strlit("5");
            }
            s.append("5");
        },
        6 => {
            proof {
                reveal_strlit("6");
            }
            s.append("6");
        },
        7 => {
            proof {
                reveal_strlit("7");
            }
            s.append("7");
        },
        8 => {
            proof {
                reveal_strlit("8");
            }
            s.append("8");
        },
        _ => {
            proof {
                reveal_strlit("9");
            }
            s.append("9");
        },
    }
    proof {
        assert(s@ =~= old(s)@.push(digit_char(d)));
    }
}

/// The greatest `count`-digit numeral readable from `digits` without
/// reordering, as text: the selected digits concatenated left to right,
/// leading zeros kept.
pub fn highest(digits: &Vec<u32>, count: usize) -> (r: Result<String, SelectError>)
    requires
        forall|i: int| 0 <= i < digits@.len() ==> digits@[i] <= 9,
    ensures
        count > digits@.len() <==> r is Err,
        r is Err ==> r == Result::<String, SelectError>::Err(SelectError::InvalidArgument),
        r is Ok ==> exists|v: Seq<u32>|
            #[trigger] is_max_subsequence(digits@, count as int, v) && r->Ok_0@ == digit_chars(v),
{
    match select_max_subsequence(digits, count) {
        Err(e) => Err(e),
        Ok(sel) => {
            proof {
                let idx = choose|idx: Seq<int>|
                    #[trigger] is_index_map(idx, digits@.len() as int) && sel@ == select(
                        digits@,
                        idx,
                    );
                assert forall|i: int| 0 <= i < sel@.len() implies sel@[i] <= 9 by {
                    assert(sel@[i] == digits@[idx[i]]);
                }
            }
            let mut out = String::new();
            let mut i: usize = 0;
            while i < sel.len()
                invariant
                    forall|t: int| 0 <= t < sel@.len() ==> sel@[t] <= 9,
                    i <= sel@.len(),
                    out@ == digit_chars(sel@).subrange(0, i as int),
                decreases sel@.len() - i,
            {
                push_digit(&mut out, sel[i]);
                i = i + 1;
                proof {
                    assert(out@ =~= digit_chars(sel@).subrange(0, i as int));
                }
            }
            proof {
                assert(out@ == digit_chars(sel@)) by {
                    assert(digit_chars(sel@).subrange(0, sel@.len() as int) =~= digit_chars(
                        sel@,
                    ));
                }
                assert(is_max_subsequence(digits@, count as int, sel@));
            }
            Ok(out)
        },
    }
}

} // verus!
