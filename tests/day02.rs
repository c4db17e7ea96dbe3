use advent_of_code::day02::{is_valid, part_one, part_two};

const EXAMPLE: &str = "7 6 4 2 1
1 2 7 8 9
9 7 6 2 1
1 3 2 4 5
8 6 4 4 1
1 3 6 7 9
";

#[test]
fn reports_test_part_one() {
    assert_eq!(part_one(EXAMPLE), Some(2));
}

#[test]
fn reports_test_part_two() {
    assert_eq!(part_two(EXAMPLE), Some(4));
}

#[test]
fn reports_is_valid() {
    assert!(is_valid(&[7, 6, 4, 2, 1]));
    assert!(is_valid(&[1, 3, 6, 7, 9]));
    assert!(!is_valid(&[1, 2, 7, 8, 9]));
    assert!(!is_valid(&[8, 6, 4, 4, 1]));
    assert!(!is_valid(&[5]));
    assert!(!is_valid(&[]));
}
