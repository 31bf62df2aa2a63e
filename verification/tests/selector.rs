use advent::selector::{highest, select_max_subsequence, SelectError};

fn pick(digits: &[u32], k: usize) -> Vec<u32> {
    select_max_subsequence(&digits.to_vec(), k).unwrap()
}

#[test]
fn scenario_mixed_digits() {
    assert_eq!(pick(&[3, 9, 1, 0, 3, 4], 2), vec![9, 4]);
}

#[test]
fn scenario_increasing() {
    assert_eq!(pick(&[1, 2, 3, 4, 5], 3), vec![3, 4, 5]);
}

#[test]
fn scenario_all_nines() {
    assert_eq!(pick(&[9, 9, 9], 2), vec![9, 9]);
}

#[test]
fn scenario_empty() {
    assert_eq!(pick(&[], 0), Vec::<u32>::new());
}

#[test]
fn scenario_single() {
    assert_eq!(pick(&[5], 1), vec![5]);
}

#[test]
fn zero_count_returns_empty() {
    assert_eq!(pick(&[7, 7, 7, 7], 0), Vec::<u32>::new());
    assert_eq!(pick(&[1], 0), Vec::<u32>::new());
}

#[test]
fn full_count_returns_input() {
    assert_eq!(pick(&[3, 1, 4, 1, 5], 5), vec![3, 1, 4, 1, 5]);
}

#[test]
fn count_above_length_is_invalid_argument() {
    assert_eq!(
        select_max_subsequence(&vec![1, 2, 3], 4),
        Err(SelectError::InvalidArgument)
    );
    assert_eq!(
        select_max_subsequence(&vec![], 1),
        Err(SelectError::InvalidArgument)
    );
}

#[test]
fn budget_exhausts_and_tail_is_truncated() {
    // Only one removal is allowed; the stack ends longer than k.
    assert_eq!(pick(&[9, 8, 7, 6], 3), vec![9, 8, 7]);
    assert_eq!(pick(&[1, 9, 8, 7], 3), vec![9, 8, 7]);
}

#[test]
fn equal_digits_keep_leftmost_order() {
    assert_eq!(pick(&[5, 5, 5, 1], 2), vec![5, 5]);
    assert_eq!(pick(&[2, 5, 2, 5], 2), vec![5, 5]);
}

fn subsequences(d: &[u32], k: usize) -> Vec<Vec<u32>> {
    if k == 0 {
        return vec![vec![]];
    }
    if d.len() < k {
        return vec![];
    }
    let mut out = Vec::new();
    for (i, &first) in d.iter().enumerate() {
        for mut rest in subsequences(&d[i + 1..], k - 1) {
            let mut s = vec![first];
            s.append(&mut rest);
            out.push(s);
        }
    }
    out
}

#[test]
fn matches_brute_force_on_small_inputs() {
    let cases: &[&[u32]] = &[
        &[3, 9, 1, 0, 3, 4],
        &[5, 5, 1, 9, 9, 0],
        &[0, 0, 0, 1],
        &[9, 1, 9, 1, 9],
        &[2, 7, 1, 8, 2, 8, 1, 8],
    ];
    for d in cases {
        for k in 0..=d.len() {
            let best = subsequences(d, k).into_iter().max().unwrap();
            assert_eq!(pick(d, k), best, "digits {:?} k {}", d, k);
        }
    }
}

#[test]
fn highest_renders_digits_as_text() {
    assert_eq!(highest(&vec![3, 9, 1, 0, 3, 4], 2).unwrap(), "94");
    assert_eq!(highest(&vec![1, 2, 3, 4, 5], 3).unwrap(), "345");
}

#[test]
fn highest_keeps_leading_zeros() {
    assert_eq!(highest(&vec![0, 9], 2).unwrap(), "09");
    assert_eq!(highest(&vec![0, 0, 1], 3).unwrap(), "001");
}

#[test]
fn highest_rejects_too_large_count() {
    assert_eq!(highest(&vec![1, 2], 3), Err(SelectError::InvalidArgument));
}
