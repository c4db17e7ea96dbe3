use advent_of_code::day05::{part_one, part_two};

const EXAMPLE: &str = "47|53
97|13
97|61
97|47
75|29
61|13
75|53
29|13
97|29
53|29
61|53
97|53
61|29
47|13
75|47
97|75
47|61
75|61
47|29
75|13
53|13

75,47,61,53,29
97,61,53,29,13
75,29,13
75,97,47,61,53
61,13,29
97,13,75,29,47
";

#[test]
fn pages_test_part_one() {
    let result = part_one(EXAMPLE);
    assert_eq!(result, Some(143));
}

#[test]
fn pages_test_part_two() {
    let result = part_two(EXAMPLE);
    assert_eq!(result, Some(123));
}

#[test]
fn pages_missing_blank_line() {
    assert_eq!(part_one("47|53\n75,47\n"), None);
}
