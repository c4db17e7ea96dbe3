use advent_of_code::day01::{part_one, part_two};

const EXAMPLE: &str = "3   4
4   3
2   5
1   3
3   9
3   3
";

#[test]
fn lists_test_part_one() {
    let result = part_one(EXAMPLE);
    assert_eq!(result, Some(11));
}

#[test]
fn lists_test_part_two() {
    let result = part_two(EXAMPLE);
    assert_eq!(result, Some(31));
}

#[test]
fn lists_malformed_line() {
    assert_eq!(part_one("3   4\n5\n"), None);
    assert_eq!(part_two(""), Some(0));
}
