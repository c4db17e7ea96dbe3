use advent_of_code::day06::{part_one, part_two};

const EXAMPLE: &str = "....#.....
.........#
..........
..#.......
.......#..
..........
.#..^.....
........#.
#.........
......#...
";

#[test]
fn guard_test_part_one() {
    let result = part_one(EXAMPLE);
    assert_eq!(result, Some(41));
}

#[test]
fn guard_test_part_two() {
    let result = part_two(EXAMPLE);
    assert_eq!(result, Some(6));
}

#[test]
fn guard_boxed_in_never_leaves() {
    // the guard turns round and round in its cell
    assert_eq!(part_one(".#.\n#^#\n.#.\n"), None);
    assert_eq!(part_one("...\n...\n"), None);
    assert_eq!(part_one("^"), Some(1));
}
