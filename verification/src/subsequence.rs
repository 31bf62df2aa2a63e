//! Order-preserving subsequences of a digit sequence, and the
//! lexicographic order on equal-length sequences.

use vstd::prelude::*;

verus! {

/// `idx` lists positions into a sequence of length `n`: every entry is in
/// bounds and the entries are strictly increasing.
pub open spec fn is_index_map(idx: Seq<int>, n: int) -> bool {
    &&& forall|i: int| 0 <= i < idx.len() ==> 0 <= #[trigger] idx[i] < n
    &&& forall|i: int, j: int|
        0 <= i < j < idx.len() ==> #[trigger] idx[i] < #[trigger] idx[j]
}

/// The elements of `d` picked out at the positions `idx`, in order.
pub open spec fn select(d: Seq<u32>, idx: Seq<int>) -> Seq<u32> {
    Seq::new(idx.len(), |i: int| d[idx[i]])
}

/// `s` can be obtained from `d` by deleting elements without reordering:
/// each element of `s` is traceable to a distinct index of `d`.
pub open spec fn is_subsequence(s: Seq<u32>, d: Seq<u32>) -> bool {
    exists|idx: Seq<int>| #[trigger] is_index_map(idx, d.len() as int) && s == select(d, idx)
}

/// `a` and `b` agree pointwise on positions `0 .. i`.
pub open spec fn agree_upto(a: Seq<u32>, b: Seq<u32>, i: int) -> bool {
    forall|j: int| 0 <= j < i ==> a[j] == b[j]
}

/// Position `i` witnesses that `a` is lexicographically below `b`:
/// the two agree before `i` and `a` is strictly smaller at `i`.
pub open spec fn lt_at(a: Seq<u32>, b: Seq<u32>, i: int) -> bool {
    &&& 0 <= i < a.len()
    &&& i < b.len()
    &&& agree_upto(a, b, i)
    &&& a[i] < b[i]
}

/// Strict lexicographic order (meant for equal-length sequences).
pub open spec fn lex_lt(a: Seq<u32>, b: Seq<u32>) -> bool {
    exists|i: int| lt_at(a, b, i)
}

/// Lexicographic order: equal, or strictly below.
pub open spec fn lex_le(a: Seq<u32>, b: Seq<u32>) -> bool {
    a == b || lex_lt(a, b)
}

pub proof fn lemma_lex_le_trans(a: Seq<u32>, b: Seq<u32>, c: Seq<u32>)
    requires
        a.len() == b.len(),
        b.len() == c.len(),
        lex_le(a, b),
        lex_le(b, c),
    ensures
        lex_le(a, c),
{
    if a == b || b == c {
    } else {
        let i = choose|i: int| lt_at(a, b, i);
        let j = choose|j: int| lt_at(b, c, j);
        if i <= j {
            assert forall|jj: int| 0 <= jj < i implies a[jj] == c[jj] by {
                assert(a[jj] == b[jj]);
                assert(b[jj] == c[jj]);
            }
            assert(b[i] <= c[i]);
            assert(lt_at(a, c, i));
        } else {
            assert forall|jj: int| 0 <= jj < j implies a[jj] == c[jj] by {
                assert(a[jj] == b[jj]);
                assert(b[jj] == c[jj]);
            }
            assert(a[j] == b[j]);
            assert(lt_at(a, c, j));
        }
    }
}

pub proof fn lemma_lex_lt_asym(a: Seq<u32>, b: Seq<u32>)
    requires
        a.len() == b.len(),
        lex_lt(a, b),
    ensures
        !lex_le(b, a),
{
    let i = choose|i: int| lt_at(a, b, i);
    assert(a != b);
    if lex_lt(b, a) {
        let j = choose|j: int| lt_at(b, a, j);
        if i < j {
            assert(b[i] == a[i]);
        } else if j < i {
            assert(a[j] == b[j]);
        }
        assert(false);
    }
}

/// Appending one element each keeps the order, provided the appended
/// elements are themselves ordered.
pub proof fn lemma_lex_le_push(a: Seq<u32>, b: Seq<u32>, x: u32, y: u32)
    requires
        a.len() == b.len(),
        lex_le(a, b),
        x <= y,
    ensures
        lex_le(a.push(x), b.push(y)),
{
    if a == b {
        if x == y {
            assert(a.push(x) =~= b.push(y));
        } else {
            assert forall|jj: int| 0 <= jj < a.len() implies a.push(x)[jj] == b.push(y)[jj] by {
                assert(a.push(x)[jj] == a[jj]);
                assert(b.push(y)[jj] == b[jj]);
            }
            assert(a.push(x)[a.len() as int] == x);
            assert(lt_at(a.push(x), b.push(y), a.len() as int));
        }
    } else {
        let i = choose|i: int| lt_at(a, b, i);
        assert forall|jj: int| 0 <= jj < i implies a.push(x)[jj] == b.push(y)[jj] by {
            assert(a.push(x)[jj] == a[jj]);
            assert(b.push(y)[jj] == b[jj]);
        }
        assert(a.push(x)[i] == a[i]);
        assert(b.push(y)[i] == b[i]);
        assert(lt_at(a.push(x), b.push(y), i));
    }
}

/// In a strictly increasing list of positions, the `i`th entry is at least `i`.
pub proof fn lemma_index_map_low(idx: Seq<int>, n: int, i: int)
    requires
        is_index_map(idx, n),
        0 <= i < idx.len(),
    ensures
        idx[i] >= i,
    decreases i,
{
    if i > 0 {
        lemma_index_map_low(idx, n, i - 1);
        assert(idx[i - 1] < idx[i]);
    }
}

/// In a strictly increasing list of positions below `n`, the `i`th entry
/// leaves room for the entries after it.
pub proof fn lemma_index_map_high(idx: Seq<int>, n: int, i: int)
    requires
        is_index_map(idx, n),
        0 <= i < idx.len(),
    ensures
        idx[i] <= n - idx.len() + i,
    decreases idx.len() - i,
{
    if i < idx.len() - 1 {
        lemma_index_map_high(idx, n, i + 1);
        assert(idx[i] < idx[i + 1]);
    } else {
        assert(idx[i] < n);
    }
}

/// The only subsequence of `d` with the full length is `d` itself.
pub proof fn lemma_subsequence_full(s: Seq<u32>, d: Seq<u32>)
    requires
        is_subsequence(s, d),
        s.len() == d.len(),
    ensures
        s == d,
{
    let idx = choose|idx: Seq<int>|
        #[trigger] is_index_map(idx, d.len() as int) && s == select(d, idx);
    assert forall|i: int| 0 <= i < idx.len() implies idx[i] == i by {
        lemma_index_map_low(idx, d.len() as int, i);
        lemma_index_map_high(idx, d.len() as int, i);
    }
    assert(s =~= d);
}

} // verus!
