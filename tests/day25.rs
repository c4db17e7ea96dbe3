use advent_of_code::day25::{part_one, part_two};

const EXAMPLE: &str = "#####
.####
.####
.####
.#.#.
.#...
.....

#####
##.##
.#.##
...##
...#.
...#.
.....

.....
#....
#....
#...#
#.#.#
#.###
#####

.....
.....
#.#..
###..
###.#
###.#
#####

.....
.....
.....
#....
#.#..
#.#.#
#####
";

#[test]
fn locks_test_part_one() {
    assert_eq!(part_one(EXAMPLE), Some(3));
}

#[test]
fn locks_test_part_two() {
    assert_eq!(part_two(EXAMPLE), None);
}

#[test]
fn locks_malformed() {
    assert_eq!(part_one("#####\n"), None);
    assert_eq!(part_one("#####\n.####\n.####\n.####\n.#x#.\n.#...\n.....\n"), None);
}
