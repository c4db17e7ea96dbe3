use advent_of_code::day20::{part_one, part_one_with_limit, part_two, part_two_ex};

const EXAMPLE: &str = "###############
#...#...#.....#
#.#.#.#.#.###.#
#S#...#.#.#...#
#######.#.#.###
#######.#.#...#
#######.#.###.#
###..E#...#...#
###.#######.###
#...###...#...#
#.#####.#.###.#
#.#...#.#.#...#
#.#.#.#.#.#.###
#...#...#...###
###############
";

#[test]
fn track_test_part_one() {
    let result = part_one_with_limit(EXAMPLE, 1);
    assert_eq!(result, Some(44));
}

#[test]
fn track_two_step_cheats_by_saving() {
    assert_eq!(part_one_with_limit(EXAMPLE, 64), Some(1));
    assert_eq!(part_one_with_limit(EXAMPLE, 40), Some(2));
    assert_eq!(part_one_with_limit(EXAMPLE, 65), Some(0));
    assert_eq!(part_one(EXAMPLE), Some(0));
}

#[test]
fn track_test_part_two() {
    let result = part_two_ex(EXAMPLE, 20, 50);
    assert_eq!(result, Some(285));
    assert_eq!(part_two_ex(EXAMPLE, 20, 76), Some(3));
    assert_eq!(part_two(EXAMPLE), Some(0));
}

#[test]
fn track_negative_budget_and_missing_start() {
    assert_eq!(part_two_ex(EXAMPLE, -1, 1), Some(0));
    assert_eq!(part_one("#####\n#..E#\n#####"), None);
}
