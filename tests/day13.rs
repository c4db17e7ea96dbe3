use advent_of_code::day13::{machine_tokens, part_one, part_two};

const EXAMPLE: &str = "Button A: X+94, Y+34
Button B: X+22, Y+67
Prize: X=8400, Y=5400

Button A: X+26, Y+66
Button B: X+67, Y+21
Prize: X=12748, Y=12176

Button A: X+17, Y+86
Button B: X+84, Y+37
Prize: X=7870, Y=6450

Button A: X+69, Y+23
Button B: X+27, Y+71
Prize: X=18641, Y=10279
";

#[test]
fn claw_test_part_one() {
    let result = part_one(EXAMPLE);
    assert_eq!(result, Some(480));
}

#[test]
fn claw_test_part_two() {
    let result = part_two(EXAMPLE);
    assert_eq!(result, Some(875318608908));
}

#[test]
fn claw_single_machines() {
    // 80 presses of A and 40 of B
    assert_eq!(machine_tokens(94, 34, 22, 67, 8400, 5400), Some(280));
    assert_eq!(machine_tokens(26, 66, 67, 21, 12748, 12176), None);
    assert_eq!(machine_tokens(17, 86, 84, 37, 7870, 6450), Some(200));
    // parallel buttons have no single solution
    assert_eq!(machine_tokens(1, 2, 2, 4, 3, 6), None);
    // a solution with a negative count is refused
    assert_eq!(machine_tokens(1, 0, 0, 1, 5, 0), Some(15));
    assert_eq!(machine_tokens(1, 1, 1, 2, 1, 0), None);
    // negative steps and prizes: 5 presses of A and 3 of B
    assert_eq!(machine_tokens(-1, 0, 0, -1, -5, -3), Some(18));
    // a negative count is still refused
    assert_eq!(machine_tokens(-1, 0, 0, 1, 5, 3), None);
}

#[test]
fn claw_malformed_input() {
    assert_eq!(part_one("Button A: X+94, Y+34\n"), None);
    assert_eq!(part_one(""), Some(0));
}
