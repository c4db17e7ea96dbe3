use advent_of_code::day08::{part_one, part_two};

const EXAMPLE: &str = "............
........0...
.....0......
.......0....
....0.......
......A.....
............
............
........A...
.........A..
............
............
";

#[test]
fn antenna_test_part_one() {
    assert_eq!(part_one(EXAMPLE), Some(14));
}

#[test]
fn antenna_test_part_two() {
    assert_eq!(part_two(EXAMPLE), Some(34));
}

#[test]
fn antenna_test_part_one_1() {
    let result = part_one(
        "..........
..........
..........
....a.....
..........
.....a....
..........
..........
..........
..........",
    );
    assert_eq!(result, Some(2));
}

#[test]
fn antenna_test_part_one_2() {
    let result = part_one(
        "..........
..........
..........
....a.....
........a.
.....a....
..........
..........
..........
..........",
    );
    assert_eq!(result, Some(4));
}

#[test]
fn antenna_test_part_one_3() {
    let result = part_one(
        "..........
..........
..........
....a.....
........a.
.....a....
..........
.......A..
..........
..........",
    );
    assert_eq!(result, Some(4));
}

#[test]
fn antenna_test_part_one_4() {
    let result = part_one(
        "............
........0...
.....0......
.......0....
....0.......
............
............
............
............
............
............
............",
    );
    assert_eq!(result, Some(10));
}

#[test]
fn antenna_test_part_one_5() {
    let result = part_one(
        "............
............
............
............
............
......A.....
............
............
........A...
.........A..
............
............",
    );
    assert_eq!(result, Some(5));
}

#[test]
fn antenna_harmonics_in_line() {
    // T antennas: every tile on a line through two of them
    let input = "T.........\n...T......\n.T........\n..........\n..........\n..........\n..........\n..........\n..........\n..........";
    assert_eq!(part_two(input), Some(9));
}
