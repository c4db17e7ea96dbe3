use advent_of_code::day10::{part_one, part_two};

const EXAMPLE: &str = "89010123
78121874
87430965
96549874
45678903
32019012
01329801
10456732
";

#[test]
fn trails_test_part_one() {
    let result = part_one(EXAMPLE);
    assert_eq!(result, Some(36));
}

#[test]
fn trails_test_part_one_3() {
    let result = part_one(
        "...0...
...1...
...2...
6543456
7.....7
8.....8
9.....9",
    );
    assert_eq!(result, Some(2));
}

#[test]
fn trails_test_part_one_4() {
    let result = part_one(
        "..90..9
...1.98
...2..7
6543456
765.987
876....
987....",
    );
    assert_eq!(result, Some(4));
}

#[test]
fn trails_test_part_one_5() {
    let result = part_one(
        "10..9..
2...8..
3...7..
4567654
...8..3
...9..2
.....01",
    );
    assert_eq!(result, Some(3));
}

#[test]
fn trails_test_part_two() {
    let result = part_two(EXAMPLE);
    assert_eq!(result, Some(81));
}

#[test]
fn trails_single_path() {
    assert_eq!(part_one("0123456789"), Some(1));
    assert_eq!(part_two("0123456789"), Some(1));
    assert_eq!(part_one("01234567"), Some(0));
}
