use advent_of_code::day07::{part_one, part_two};

const EXAMPLE: &str = "190: 10 19
3267: 81 40 27
83: 17 5
156: 15 6
7290: 6 8 6 15
161011: 16 10 13
192: 17 8 14
21037: 9 7 18 13
292: 11 6 16 20
";

#[test]
fn equations_test_part_one() {
    let result = part_one(EXAMPLE);
    assert_eq!(result, Some(3749));
}

#[test]
fn equations_test_part_two() {
    let result = part_two(EXAMPLE);
    assert_eq!(result, Some(11387));
}

#[test]
fn equations_single_lines() {
    assert_eq!(part_two("156: 15 6\n"), Some(156));
    assert_eq!(part_one("156: 15 6\n"), Some(0));
    assert_eq!(part_one("7: 7\n"), Some(7));
    assert_eq!(part_one("7:\n"), None);
}
