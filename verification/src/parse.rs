//! Reading puzzle text: a rotation line (a direction word followed by a
//! step count) and the `start-finish` ranges scattered in a line.

use vstd::prelude::*;
use crate::dial::Direction;

verus! {

/// An alphabetic character, `A ..= Z` or `a ..= z`.
pub open spec fn is_alpha(c: char) -> bool {
    (65 <= c as u32 && c as u32 <= 90) || (97 <= c as u32 && c as u32 <= 122)
}

/// A decimal digit character.
pub open spec fn is_digit_char(c: char) -> bool {
    48 <= c as u32 && c as u32 <= 57
}

/// The numeric value of a digit character.
pub open spec fn digit_value(c: char) -> int {
    c as u32 - 48
}

/// The value of a run of digit characters read as a base-10 number.
pub open spec fn chars_value(s: Seq<char>) -> int
    decreases s.len(),
{
    if s.len() == 0 {
        0
    } else {
        chars_value(s.drop_last()) * 10 + digit_value(s.last())
    }
}

/// The line splits at `w` into a non-empty run of letters and a
/// non-empty run of digits.
pub open spec fn rotation_split(l: Seq<char>, w: int) -> bool {
    &&& 1 <= w < l.len()
    &&& forall|i: int| 0 <= i < w ==> is_alpha(#[trigger] l[i])
    &&& forall|i: int| w <= i < l.len() ==> is_digit_char(#[trigger] l[i])
}

/// The direction named by a rotation word: `R` or `L`, anything else is
/// no direction.
pub open spec fn word_direction(w: Seq<char>) -> Option<Direction> {
    if w =~= seq!['R'] {
        Some(Direction::Right)
    } else if w =~= seq!['L'] {
        Some(Direction::Left)
    } else {
        None
    }
}

proof fn lemma_chars_value_nonneg(s: Seq<char>)
    requires
        forall|i: int| 0 <= i < s.len() ==> is_digit_char(#[trigger] s[i]),
    ensures
        chars_value(s) >= 0,
    decreases s.len(),
{
    if s.len() > 0 {
        lemma_chars_value_nonneg(s.drop_last());
    }
}

proof fn lemma_chars_value_prefix(s: Seq<char>, t: int)
    requires
        0 <= t <= s.len(),
        forall|i: int| 0 <= i < s.len() ==> is_digit_char(#[trigger] s[i]),
    ensures
        chars_value(s.subrange(0, t)) <= chars_value(s),
    decreases s.len(),
{
    if t == s.len() {
        assert(s.subrange(0, t) =~= s);
    } else if s.len() > 0 {
        lemma_chars_value_prefix(s.drop_last(), t);
        assert(s.drop_last().subrange(0, t) =~= s.subrange(0, t));
        lemma_chars_value_nonneg(s.drop_last());
        assert(chars_value(s.drop_last()) <= chars_value(s));
    }
}

/// Reads a rotation line: a direction word (`R` or `L`) followed by a
/// step count.  Returns the direction and the count, or `None` when the
/// line does not have that shape, names another direction, or holds a
/// count too large for the dial.
pub fn parse_rotation(line: &Vec<char>) -> (r: Option<(Direction, u32)>)
    ensures
        r is Some ==> exists|w: int|
            #[trigger] rotation_split(line@, w) && word_direction(line@.subrange(0, w))
                == Some((r->0).0) && chars_value(line@.subrange(w, line@.len() as int))
                == (r->0).1,
        r is None ==> !(exists|w: int|
            #[trigger] rotation_split(line@, w) && word_direction(line@.subrange(0, w)) is Some
                && chars_value(line@.subrange(w, line@.len() as int)) <= u32::MAX),
{
    let n = line.len();
    let mut w: usize = 0;
    while w < n
        invariant
            w <= n,
            n == line@.len(),
            forall|i: int| 0 <= i < w ==> is_alpha(#[trigger] line@[i]),
        ensures
            w <= n,
            n == line@.len(),
            forall|i: int| 0 <= i < w ==> is_alpha(#[trigger] line@[i]),
            w < n ==> !is_alpha(line@[w as int]),
        decreases n - w,
    {
        let c = line[w] as u32;
        if !((65 <= c && c <= 90) || (97 <= c && c <= 122)) {
            break;
        }
        w = w + 1;
    }
    if w == 0 || w >= n {
        proof {
            assert forall|ww: int| !rotation_split(line@, ww) by {
                if rotation_split(line@, ww) {
                    if w == 0 {
                        assert(is_alpha(line@[0]));
                    } else {
                        assert(is_digit_char(line@[ww]));
                        assert(is_alpha(line@[ww]));
                    }
                    assert(false);
                }
            }
        }
        return None;
    }
    // Everything after the letters must be digits.
    let mut t: usize = w;
    while t < n
        invariant
            w <= t <= n,
            n == line@.len(),
            forall|i: int| w <= i < t ==> is_digit_char(#[trigger] line@[i]),
        ensures
            w <= t <= n,
            n == line@.len(),
            forall|i: int| w <= i < t ==> is_digit_char(#[trigger] line@[i]),
            t < n ==> !is_digit_char(line@[t as int]),
        decreases n - t,
    {
        let c = line[t] as u32;
        if !(48 <= c && c <= 57) {
            break;
        }
        t = t + 1;
    }
    if t < n {
        // Some later character is neither a digit of the run nor a
        // letter of the word: no split can absorb it.
        proof {
            assert forall|ww: int| !rotation_split(line@, ww) by {
                if rotation_split(line@, ww) {
                    if ww < w as int {
                        assert(is_alpha(line@[ww]));
                        assert(is_digit_char(line@[ww]));
                    } else if ww == w as int {
                        assert(is_digit_char(line@[t as int]));
                    } else {
                        assert(is_alpha(line@[w as int]));
                    }
                    assert(false);
                }
            }
        }
        return None;
    }
    proof {
        assert(rotation_split(line@, w as int));
        // Any split must agree with the scanned one.
        assert forall|ww: int| #[trigger] rotation_split(line@, ww) implies ww == w as int by {
            if ww < w as int {
                assert(is_alpha(line@[ww]));
                assert(is_digit_char(line@[ww]));
                assert(false);
            }
            if ww > w as int {
                assert(is_alpha(line@[w as int]));
                assert(false);
            }
        }
    }
    // Read the count, watching for overflow.
    let mut value: u32 = 0;
    let mut i: usize = w;
    while i < n
        invariant
            w <= i <= n,
            n == line@.len(),
            forall|t2: int| w <= t2 < n ==> is_digit_char(#[trigger] line@[t2]),
            value == chars_value(line@.subrange(w as int, i as int)),
            rotation_split(line@, w as int),
            forall|ww: int| #[trigger] rotation_split(line@, ww) ==> ww == w as int,
        decreases n - i,
    {
        let c = line[i] as u32;
        let d = c - 48;
        proof {
            assert(line@.subrange(w as int, i + 1).drop_last() =~= line@.subrange(
                w as int,
                i as int,
            ));
            assert(line@.subrange(w as int, i + 1).last() == line@[i as int]);
        }
        if value > (u32::MAX - d) / 10 {
            proof {
                let digits = line@.subrange(w as int, n as int);
                assert forall|t2: int|
                    0 <= t2 < digits.len() implies is_digit_char(#[trigger] digits[t2]) by {}
                assert(chars_value(line@.subrange(w as int, i + 1)) > u32::MAX);
                assert(line@.subrange(w as int, i + 1) =~= digits.subrange(0, i + 1 - w));
                lemma_chars_value_prefix(digits, i + 1 - w);
                assert(chars_value(digits) > u32::MAX);
            }
            return None;
        }
        value = value * 10 + d;
        i = i + 1;
    }
    proof {
        assert(line@.subrange(w as int, n as int) =~= line@.subrange(w as int, line@.len() as int));
    }
    // Check the direction word.
    let dir: Option<Direction> = if w == 1 {
        let c = line[0];
        if c == 'R' {
            Some(Direction::Right)
        } else if c == 'L' {
            Some(Direction::Left)
        } else {
            None
        }
    } else {
        None
    };
    proof {
        let word = line@.subrange(0, w as int);
        if w == 1 {
            assert(word.len() == 1 && word[0] == line@[0]);
            if line@[0] == 'R' {
                assert(word =~= seq!['R']);
            } else if line@[0] == 'L' {
                assert(word =~= seq!['L']);
            } else {
                assert(!(word =~= seq!['R']) && !(word =~= seq!['L']));
            }
        } else {
            assert(!(word =~= seq!['R']) && !(word =~= seq!['L']));
        }
    }
    match dir {
        Some(d) => Some((d, value)),
        None => None,
    }
}

/// The first position at or after `pos` that does not hold a digit.
pub open spec fn digit_run_end(l: Seq<char>, pos: int) -> int
    decreases l.len() - pos,
{
    if 0 <= pos < l.len() && is_digit_char(l[pos]) {
        digit_run_end(l, pos + 1)
    } else {
        pos
    }
}

proof fn lemma_run_end_ge(l: Seq<char>, pos: int)
    ensures
        digit_run_end(l, pos) >= pos,
        digit_run_end(l, pos) <= l.len() || digit_run_end(l, pos) == pos,
        0 <= pos < l.len() && is_digit_char(l[pos]) ==> digit_run_end(l, pos) >= pos + 1,
    decreases l.len() - pos,
{
    if 0 <= pos < l.len() && is_digit_char(l[pos]) {
        lemma_run_end_ge(l, pos + 1);
    }
}

/// A digit run bounded on the left by `pos` and on the right by the
/// first non-digit ends exactly there.
proof fn lemma_run_end_at(l: Seq<char>, pos: int, e: int)
    requires
        0 <= pos <= e <= l.len(),
        forall|i: int| pos <= i < e ==> is_digit_char(#[trigger] l[i]),
        e == l.len() || !is_digit_char(l[e]),
    ensures
        digit_run_end(l, pos) == e,
    decreases e - pos,
{
    if pos < e {
        lemma_run_end_at(l, pos + 1, e);
    }
}

/// All `start-finish` ranges found in the line, scanning left to right:
/// a maximal run of digits, a dash, and a second run of digits make a
/// range; a run not followed by a dash and a digit is skipped whole.
pub open spec fn scan_ranges(l: Seq<char>, pos: int) -> Seq<(int, int)>
    decreases l.len() - pos,
    when pos >= 0
    via scan_ranges_decreases
{
    if pos >= l.len() {
        Seq::empty()
    } else if !is_digit_char(l[pos]) {
        scan_ranges(l, pos + 1)
    } else {
        let e1 = digit_run_end(l, pos);
        if e1 < l.len() && l[e1] == '-' && e1 + 1 < l.len() && is_digit_char(l[e1 + 1]) {
            let e2 = digit_run_end(l, e1 + 1);
            seq![
                (chars_value(l.subrange(pos, e1)), chars_value(l.subrange(e1 + 1, e2))),
            ] + scan_ranges(l, e2)
        } else {
            scan_ranges(l, e1)
        }
    }
}

#[via_fn]
proof fn scan_ranges_decreases(l: Seq<char>, pos: int) {
    if 0 <= pos < l.len() && is_digit_char(l[pos]) {
        lemma_run_end_ge(l, pos);
        let e1 = digit_run_end(l, pos);
        if e1 < l.len() && l[e1] == '-' && e1 + 1 < l.len() && is_digit_char(l[e1 + 1]) {
            lemma_run_end_ge(l, e1 + 1);
        }
    }
}

/// Reads the digits `line[a .. b]` as a number, or `None` when it does
/// not fit.
fn read_number(line: &Vec<char>, a: usize, b: usize) -> (r: Option<i64>)
    requires
        a <= b <= line@.len(),
        forall|i: int| a <= i < b ==> is_digit_char(#[trigger] line@[i]),
    ensures
        r is Some ==> r->0 == chars_value(line@.subrange(a as int, b as int)) && r->0 >= 0,
        r is None ==> chars_value(line@.subrange(a as int, b as int)) > i64::MAX,
{
    let mut value: i64 = 0;
    let mut i: usize = a;
    while i < b
        invariant
            a <= i <= b <= line@.len(),
            forall|t: int| a <= t < b ==> is_digit_char(#[trigger] line@[t]),
            value == chars_value(line@.subrange(a as int, i as int)),
            value >= 0,
        decreases b - i,
    {
        let c = line[i] as u32;
        let d = (c - 48) as i64;
        proof {
            assert(line@.subrange(a as int, i + 1).drop_last() =~= line@.subrange(
                a as int,
                i as int,
            ));
            assert(line@.subrange(a as int, i + 1).last() == line@[i as int]);
        }
        if value > (i64::MAX - d) / 10 {
            proof {
                let digits = line@.subrange(a as int, b as int);
                assert forall|t: int|
                    0 <= t < digits.len() implies is_digit_char(#[trigger] digits[t]) by {}
                assert(chars_value(line@.subrange(a as int, i + 1)) > i64::MAX);
                assert(line@.subrange(a as int, i + 1) =~= digits.subrange(0, i + 1 - a));
                lemma_chars_value_prefix(digits, i + 1 - a);
            }
            return None;
        }
        value = value * 10 + d;
        i = i + 1;
    }
    proof {
        assert(line@.subrange(a as int, b as int) =~= line@.subrange(a as int, i as int));
    }
    Some(value)
}

/// Finds every `start-finish` range written in the line, as
/// `scan_ranges` describes, or `None` when some number in a range does
/// not fit the machine.
pub fn parse_ranges(line: &Vec<char>) -> (r: Option<Vec<(i64, i64)>>)
    ensures
        r is Some ==> (r->0)@.map_values(|p: (i64, i64)| (p.0 as int, p.1 as int))
            == scan_ranges(line@, 0),
        r is Some ==> forall|k: int|
            0 <= k < (r->0)@.len() ==> 0 <= (#[trigger] (r->0)@[k]).0 && 0 <= (r->0)@[k].1,
        r is None ==> exists|k: int|
            0 <= k < scan_ranges(line@, 0).len() && ((#[trigger] scan_ranges(line@, 0)[k]).0
                > i64::MAX || scan_ranges(line@, 0)[k].1 > i64::MAX),
{
    let n = line.len();
    let mut out: Vec<(i64, i64)> = Vec::new();
    let mut pos: usize = 0;
    while pos < n
        invariant
            n == line@.len(),
            pos <= n,
            scan_ranges(line@, 0) == out@.map_values(|p: (i64, i64)| (p.0 as int, p.1 as int))
                + scan_ranges(line@, pos as int),
            forall|k: int| 0 <= k < out@.len() ==> 0 <= (#[trigger] out@[k]).0 && 0 <= out@[k].1,
        decreases n - pos,
    {
        let ghost pos0 = pos as int;
        let ghost mapped0 = out@.map_values(|p: (i64, i64)| (p.0 as int, p.1 as int));
        let c = line[pos] as u32;
        if !(48 <= c && c <= 57) {
            pos = pos + 1;
            proof {
                assert(scan_ranges(line@, pos0) == scan_ranges(line@, pos as int));
            }
        } else {
            proof {
                assert(is_digit_char(line@[pos0]));
            }
            let start = pos;
            let mut e = pos;
            while e < n && 48 <= (line[e] as u32) && (line[e] as u32) <= 57
                invariant
                    start <= e <= n,
                    n == line@.len(),
                    forall|i: int| start <= i < e ==> is_digit_char(#[trigger] line@[i]),
                decreases n - e,
            {
                e = e + 1;
            }
            proof {
                lemma_run_end_at(line@, start as int, e as int);
            }
            if e < n && line[e] == '-' && e + 1 < n && 48 <= (line[e + 1] as u32) && (line[e + 1]
                as u32) <= 57 {
                let start2 = e + 1;
                let mut e2 = start2;
                while e2 < n && 48 <= (line[e2] as u32) && (line[e2] as u32) <= 57
                    invariant
                        start2 <= e2 <= n,
                        n == line@.len(),
                        forall|i: int| start2 <= i < e2 ==> is_digit_char(#[trigger] line@[i]),
                    decreases n - e2,
                {
                    e2 = e2 + 1;
                }
                proof {
                    lemma_run_end_at(line@, start2 as int, e2 as int);
                    assert(scan_ranges(line@, pos0) == seq![
                        (
                            chars_value(line@.subrange(pos0, e as int)),
                            chars_value(line@.subrange(e + 1, e2 as int)),
                        ),
                    ] + scan_ranges(line@, e2 as int));
                }
                let ghost pair = (
                    chars_value(line@.subrange(pos0, e as int)),
                    chars_value(line@.subrange(e + 1, e2 as int)),
                );
                proof {
                    assert(scan_ranges(line@, 0)[mapped0.len() as int] == pair);
                    assert(0 <= mapped0.len() < scan_ranges(line@, 0).len());
                }
                let v1 = match read_number(line, start, e) {
                    Some(v) => v,
                    None => {
                        return None;
                    },
                };
                let v2 = match read_number(line, start2, e2) {
                    Some(v) => v,
                    None => {
                        return None;
                    },
                };
                out.push((v1, v2));
                pos = e2;
                proof {
                    assert(out@.map_values(|p: (i64, i64)| (p.0 as int, p.1 as int)) =~= mapped0
                        + seq![pair]);
                    assert(mapped0 + (seq![pair] + scan_ranges(line@, pos as int)) =~= (mapped0
                        + seq![pair]) + scan_ranges(line@, pos as int));
                }
            } else {
                pos = e;
                proof {
                    assert(pos > pos0);
                    assert(scan_ranges(line@, pos0) == scan_ranges(line@, pos as int));
                }
            }
        }
    }
    proof {
        assert(scan_ranges(line@, pos as int) =~= Seq::<(int, int)>::empty());
        assert(out@.map_values(|p: (i64, i64)| (p.0 as int, p.1 as int)) =~= scan_ranges(
            line@,
            0,
        ));
    }
    Some(out)
}

} // verus!
