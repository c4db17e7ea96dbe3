use advent_of_code::day21::{part_one, part_two, part_two_ex};

const EXAMPLE: &str = "029A\n980A\n179A\n456A\n379A\n";

#[test]
fn keypad_test_part_two() {
    let result = part_two(EXAMPLE);
    assert_eq!(result, Some(154115708116294));
}

#[test]
fn test_part_two_ex() {
    let result = part_two_ex(EXAMPLE, 2);
    assert_eq!(result, Some(126384));
}

#[test]
fn test_part_two_029() {
    let result = part_two_ex("029A", 2);
    assert_eq!(result, Some("<vA<AA>>^AvAA<^A>A<v<A>>^AvA^A<vA>^A<v<A>^A>AAvA^A<v<A>A>^AAAvA<^A>A".len() * 29));
}

#[test]
fn test_part_two_980() {
    let result = part_two_ex("980A", 2);
    assert_eq!(result, Some("<v<A>>^AAAvA^A<vA<AA>>^AvAA<^A>A<v<A>A>^AAAvA<^A>A<vA>^A<A>A".len() * 980));
}

#[test]
fn test_part_two_179() {
    let result = part_two_ex("179A", 2);
    assert_eq!(result, Some("<v<A>>^A<vA<A>>^AAvAA<^A>A<v<A>>^AAvA^A<vA>^AA<A>A<v<A>A>^AAAvA<^A>A".len() * 179));
}

#[test]
fn test_part_two_456() {
    let result = part_two_ex("456A", 2);
    assert_eq!(result, Some("<v<A>>^AA<vA<A>>^AAvAA<^A>A<vA>^A<A>A<vA>^A<A>A<v<A>A>^AAvA<^A>A".len() * 456));
}

#[test]
fn test_part_two_379() {
    let result = part_two_ex("379A", 2);
    assert_eq!(result, Some("<v<A>>^AvA^A<vA<AA>>^AAvA<^A>AAvA^A<vA>^AA<A>A<v<A>A>^AAAvA<^A>A".len() * 379));
}

#[test]
fn test_part_one() {
    let result = part_one(EXAMPLE);
    assert_eq!(result, Some(126384));
}

#[test]
fn test_part_one_029() {
    let result = part_one("029A");
    assert_eq!(result, Some("<vA<AA>>^AvAA<^A>A<v<A>>^AvA^A<vA>^A<v<A>^A>AAvA^A<v<A>A>^AAAvA<^A>A".len() * 29));
}

#[test]
fn test_part_one_980() {
    let result = part_one("980A");
    assert_eq!(result, Some("<v<A>>^AAAvA^A<vA<AA>>^AvAA<^A>A<v<A>A>^AAAvA<^A>A<vA>^A<A>A".len() * 980));
}

#[test]
fn test_part_one_179() {
    let result = part_one("179A");
    assert_eq!(result, Some("<v<A>>^A<vA<A>>^AAvAA<^A>A<v<A>>^AAvA^A<vA>^AA<A>A<v<A>A>^AAAvA<^A>A".len() * 179));
}

#[test]
fn test_part_one_456() {
    let result = part_one("456A");
    assert_eq!(result, Some("<v<A>>^AA<vA<A>>^AAvAA<^A>A<vA>^A<A>A<vA>^A<A>A<v<A>A>^AAvA<^A>A".len() * 456));
}

#[test]
fn test_part_one_379() {
    let result = part_one("379A");
    assert_eq!(result, Some("<v<A>>^AvA^A<vA<AA>>^AAvA<^A>AAvA^A<vA>^AA<A>A<v<A>A>^AAAvA<^A>A".len() * 379));
}

#[test]
fn keypad_no_robots_counts_numeric_moves() {
    // a code of value 0 adds nothing
    assert_eq!(part_two_ex("0A", 0), Some(0));
    // A to 1 is "^<<A" (the gap forces up first), 1 to 0 is ">vA", 0 to A is ">A"
    assert_eq!(part_two_ex("10A", 0), Some((4 + 3 + 2) * 10));
    // through one robot: "^<<A" costs "<A" + "v<A" + "A" + ">>^A" = 10 presses,
    // and ">>vA" costs "vA" + "A" + "<A" + "^>A" = 8
    assert_eq!(part_two_ex("1A", 1), Some(18));
}

#[test]
fn keypad_rejects_unknown_buttons() {
    assert_eq!(part_one("02xA"), None);
}

#[test]
fn keypad_empty_input() {
    assert_eq!(part_one(""), Some(0));
}
