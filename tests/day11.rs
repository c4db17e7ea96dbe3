use advent_of_code::day11::{part_one, part_two, part_two_with_depth};

const EXAMPLE: &str = "125 17\n";

#[test]
fn stones_test_part_one() {
    let result = part_one(EXAMPLE);
    assert_eq!(result, Some(55312));
}

#[test]
fn test_part_two_with_depth() {
    let result = part_two_with_depth(EXAMPLE, 25);
    assert_eq!(result, Some(55312));
}

#[test]
fn stones_small_depths() {
    // 125 17 -> 253000 1 7 -> 253 0 2024 14168 -> 512072 1 20 24 28676032
    assert_eq!(part_two_with_depth(EXAMPLE, 0), Some(2));
    assert_eq!(part_two_with_depth(EXAMPLE, 1), Some(3));
    assert_eq!(part_two_with_depth(EXAMPLE, 2), Some(4));
    assert_eq!(part_two_with_depth(EXAMPLE, 3), Some(5));
    assert_eq!(part_two_with_depth(EXAMPLE, 6), Some(22));
}

#[test]
fn stones_zeros_become_ones() {
    assert_eq!(part_two_with_depth("0 0 0", 1), Some(3));
    assert_eq!(part_two_with_depth("0 0 0", 2), Some(3));
}

#[test]
fn stones_seventy_five_blinks() {
    assert_eq!(part_two(EXAMPLE), Some(65601038650482));
}

#[test]
fn stones_empty_input() {
    assert_eq!(part_two_with_depth("", 75), Some(0));
}
