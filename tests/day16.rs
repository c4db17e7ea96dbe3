use advent_of_code::day16::{part_one, part_two};

const SMALL: &str = "###############
#.......#....E#
#.#.###.#.###.#
#.....#.#...#.#
#.###.#####.#.#
#.#.#.......#.#
#.#.#####.###.#
#...........#.#
###.#.#####.#.#
#...#.....#.#.#
#.#.#.###.#.#.#
#.....#...#.#.#
#.###.#.#.#.#.#
#S..#.....#...#
###############";

const LARGER: &str = "#################
#...#...#...#..E#
#.#.#.#.#.#.#.#.#
#.#.#.#...#...#.#
#.#.#.#.###.#.#.#
#...#.#.#.....#.#
#.#.#.#.#.#####.#
#.#...#.#.#.....#
#.#.#####.#.###.#
#.#.#.......#...#
#.#.###.#####.###
#.#.#...#.....#.#
#.#.#.#####.###.#
#.#.#.........#.#
#.#.#.#########.#
#S#.............#
#################";

#[test]
fn maze_test_part_one() {
    let result = part_one(SMALL);
    assert_eq!(result, Some(7036));
}

#[test]
fn maze_test_part_one_2() {
    let result = part_one(LARGER);
    assert_eq!(result, Some(11048));
}

#[test]
fn maze_test_part_two_1() {
    let result = part_two(SMALL);
    assert_eq!(result, Some(45));
}

#[test]
fn maze_test_part_two_2() {
    let result = part_two(LARGER);
    assert_eq!(result, Some(64));
}

#[test]
fn maze_straight_corridor_and_turn() {
    assert_eq!(part_one("#####\n#S.E#\n#####"), Some(2));
    // start faces east, so going north needs one turn
    assert_eq!(part_one("###\n#E#\n#.#\n#S#\n###"), Some(1002));
    assert_eq!(part_two("#####\n#S.E#\n#####"), Some(3));
}

#[test]
fn maze_without_end_or_path() {
    assert_eq!(part_one("#####\n#S..#\n#####"), None);
    assert_eq!(part_one("#####\n#S#E#\n#####"), None);
}
