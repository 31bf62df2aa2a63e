use advent::carpet::{carpet_rolls, remove_carpets};
use advent::dial::{crack_safe, spin, Direction};
use advent::invalid::{equal_halfs, find_invalid, has_repeated_sequence, range_invalid_sums};
use advent::parse::{parse_ranges, parse_rotation};
use advent::volts::{highest_volts, highest_volts_advanced, highest_volts_line, to_number};

#[test]
fn equal_halfs_detects_doubled_strings() {
    assert!(equal_halfs(1212));
    assert!(equal_halfs(11));
    assert!(equal_halfs(123123));
    assert!(!equal_halfs(1213));
    assert!(!equal_halfs(7));
    assert!(!equal_halfs(0));
    assert!(!equal_halfs(121));
}

#[test]
fn has_repeated_sequence_detects_periodic_strings() {
    assert!(has_repeated_sequence(1212));
    assert!(has_repeated_sequence(121212));
    assert!(has_repeated_sequence(99));
    assert!(has_repeated_sequence(111));
    assert!(!has_repeated_sequence(1213));
    assert!(!has_repeated_sequence(5));
    assert!(!has_repeated_sequence(1211));
}

#[test]
fn range_sums_count_invalid_numbers() {
    // In 1 ..= 100 the doubled numbers are 11, 22, ..., 99.
    let (total, full) = range_invalid_sums(1, 100);
    assert_eq!(total, 11 * 45);
    assert_eq!(full, 11 * 45);
    // 111 and 1111 style numbers differ between the two counts.
    let (total, full) = range_invalid_sums(110, 112);
    assert_eq!(total, 0);
    assert_eq!(full, 111);
}

#[test]
fn range_sums_empty_range() {
    assert_eq!(range_invalid_sums(10, 5), (0, 0));
}

#[test]
fn find_invalid_sums_over_ranges() {
    let ranges = vec![(1, 100), (110, 112)];
    let (total, full) = find_invalid(&ranges);
    assert_eq!(total, 11 * 45);
    assert_eq!(full, 11 * 45 + 111);
}

#[test]
fn spin_wraps_and_counts_zero() {
    assert_eq!(spin(50, Direction::Right, 50), (0, 1));
    assert_eq!(spin(50, Direction::Left, 51), (99, 1));
    assert_eq!(spin(0, Direction::Right, 100), (0, 1));
    assert_eq!(spin(99, Direction::Right, 1), (0, 1));
    assert_eq!(spin(1, Direction::Left, 1), (0, 1));
    assert_eq!(spin(50, Direction::Right, 0), (50, 0));
}

#[test]
fn crack_safe_runs_rotations_from_fifty() {
    let rots = vec![(Direction::Right, 50), (Direction::Left, 50)];
    assert_eq!(crack_safe(&rots), (50, 1));
    let rots = vec![(Direction::Left, 50), (Direction::Left, 50), (Direction::Right, 1)];
    assert_eq!(crack_safe(&rots), (51, 1));
    assert_eq!(crack_safe(&vec![]), (50, 0));
}

fn chars(s: &str) -> Vec<char> {
    s.chars().collect()
}

#[test]
fn parse_rotation_reads_direction_and_count() {
    assert_eq!(
        parse_rotation(&chars("R12")),
        Some((Direction::Right, 12))
    );
    assert_eq!(parse_rotation(&chars("L5")), Some((Direction::Left, 5)));
}

#[test]
fn parse_rotation_rejects_other_shapes() {
    assert_eq!(parse_rotation(&chars("X3")), None);
    assert_eq!(parse_rotation(&chars("R")), None);
    assert_eq!(parse_rotation(&chars("12")), None);
    assert_eq!(parse_rotation(&chars("")), None);
    assert_eq!(parse_rotation(&chars("RL12")), None);
    assert_eq!(parse_rotation(&chars("R12x")), None);
    assert_eq!(parse_rotation(&chars("R99999999999999999999")), None);
}

#[test]
fn parse_ranges_finds_all_pairs() {
    assert_eq!(
        parse_ranges(&chars("11-22 33-44")).unwrap(),
        vec![(11, 22), (33, 44)]
    );
    assert_eq!(parse_ranges(&chars("abc")).unwrap(), vec![]);
    assert_eq!(parse_ranges(&chars("")).unwrap(), vec![]);
    assert_eq!(parse_ranges(&chars("12-34-56")).unwrap(), vec![(12, 34)]);
    assert_eq!(parse_ranges(&chars("5-")).unwrap(), vec![]);
    assert_eq!(parse_ranges(&chars("x7-9y")).unwrap(), vec![(7, 9)]);
}

#[test]
fn parse_ranges_rejects_numbers_too_large() {
    assert_eq!(parse_ranges(&chars("1-99999999999999999999")), None);
}

#[test]
fn highest_volts_line_picks_best_pair() {
    assert_eq!(highest_volts_line(&vec![3, 9, 1, 0, 3, 4]), 94);
    assert_eq!(highest_volts_line(&vec![1, 2]), 12);
    assert_eq!(highest_volts_line(&vec![9, 8, 7]), 98);
    assert_eq!(highest_volts_line(&vec![1, 9]), 19);
    assert_eq!(highest_volts_line(&vec![9, 1, 1, 9]), 99);
}

#[test]
fn highest_volts_sums_banks() {
    let banks = vec![vec![3, 9, 1, 0, 3, 4], vec![1, 2]];
    assert_eq!(highest_volts(&banks), 94 + 12);
    assert_eq!(highest_volts(&vec![]), 0);
}

#[test]
fn to_number_reads_digits() {
    assert_eq!(to_number(&vec![1, 2, 3]), 123);
    assert_eq!(to_number(&vec![0, 0, 7]), 7);
    assert_eq!(to_number(&vec![]), 0);
}

#[test]
fn highest_volts_advanced_sums_twelve_digit_readings() {
    let banks = vec![
        vec![9, 8, 7, 6, 5, 4, 3, 2, 1, 0, 9, 8],
        vec![0, 1, 1, 1, 1, 1, 1, 1, 1, 1, 1, 1, 1],
    ];
    assert_eq!(
        highest_volts_advanced(&banks),
        987654321098 + 111111111111
    );
}

fn grid(rows: &[&str]) -> Vec<Vec<char>> {
    rows.iter().map(|r| r.chars().collect()).collect()
}

#[test]
fn carpet_rolls_counts_loose_carpets() {
    // In a full three-by-three square only the corners touch fewer than
    // four carpets.
    let g = grid(&["@@@", "@@@", "@@@"]);
    assert_eq!(carpet_rolls(&g), 4);
    assert_eq!(carpet_rolls(&grid(&["@.@", "...", "@.@"])), 4);
    assert_eq!(carpet_rolls(&grid(&[])), 0);
}

#[test]
fn remove_carpets_sweeps_until_stable() {
    let mut g = grid(&["@@@", "@@@", "@@@"]);
    let removed = remove_carpets(&mut g);
    assert_eq!(removed, 9);
    assert_eq!(g, grid(&["...", "...", "..."]));
}

#[test]
fn remove_carpets_leaves_empty_grid_alone() {
    let mut g = grid(&["...", "..."]);
    assert_eq!(remove_carpets(&mut g), 0);
    assert_eq!(g, grid(&["...", "..."]));
}
