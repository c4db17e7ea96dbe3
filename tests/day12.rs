use advent_of_code::day12::{part_one, part_two};

const EXAMPLE: &str = "RRRRIICCFF
RRRRIICCCF
VVRRRCCFFF
VVRCCCJFFF
VVVVCJJCFE
VVIVCCJJEE
VVIIICJJEE
MIIIIIJJEE
MIIISIJEEE
MMMISSJEEE
";

#[test]
fn garden_test_part_one() {
    let result = part_one(EXAMPLE);
    assert_eq!(result, Some(1930));
}

#[test]
fn test_part_one_2() {
    let input = "AAAA
BBCD
BBCC
EEEC";
    let result = part_one(input);
    assert_eq!(result, Some(140));
}

#[test]
fn test_part_one_3() {
    let input = "OOOOO
OXOXO
OOOOO
OXOXO
OOOOO";
    let result = part_one(input);
    assert_eq!(result, Some(772));
}

#[test]
fn test_part_two_0() {
    let input = "AAAA
BBCD
BBCC
EEEC";
    let result = part_two(input);
    assert_eq!(result, Some(80));
}

#[test]
fn test_part_two_1() {
    let input = "EEEEE
EXXXX
EEEEE
EXXXX
EEEEE";
    let result = part_two(input);
    assert_eq!(result, Some(236));
}

#[test]
fn test_part_two_2() {
    let input = "AAAAAA
AAABBA
AAABBA
ABBAAA
ABBAAA
AAAAAA";
    let result = part_two(input);
    assert_eq!(result, Some(368));
}

#[test]
fn test_part_two_3() {
    let result = part_two(EXAMPLE);
    assert_eq!(result, Some(1206));
}

#[test]
fn garden_single_plot_and_ragged_rows() {
    assert_eq!(part_one("A"), Some(4));
    assert_eq!(part_two("A"), Some(4));
    assert_eq!(part_one(""), Some(0));
    assert_eq!(part_one("AB\nA"), None);
}
