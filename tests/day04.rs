use advent_of_code::day04::{part_one, part_two};

const EXAMPLE: &str = "MMMSXXMASM
MSAMXMSMSA
AMXSXMAAMM
MSAMASMSMX
XMASAMXAMM
XXAMMXXAMA
SMSMSASXSS
SAXAMASAAA
MAMMMXMMMM
MXMXAXMASX
";

#[test]
fn test_part_one_small() {
    let input = "..X...
.SAMX.
.A..A.
XMAS.S
.X....";
    let result = part_one(&input);
    assert_eq!(result, Some(4));
}

#[test]
fn search_test_part_one() {
    let result = part_one(EXAMPLE);
    assert_eq!(result, Some(18));
}

#[test]
fn test_part_two_small() {
    let input = "M.S
.A.
M.S";
    let result = part_two(&input);
    assert_eq!(result, Some(1));
}

#[test]
fn test_part_two() {
    let input = ".M.S......
..A..MSMS.
.M.S.MAA..
..A.ASMSM.
.M.S.M....
..........
S.S.S.S.S.
.A.A.A.A..
M.M.M.M.M.
..........";
    let result = part_two(input);
    assert_eq!(result, Some(9));
}

#[test]
fn search_test_part_two_example() {
    assert_eq!(part_two(EXAMPLE), Some(9));
}

#[test]
fn search_empty_grid() {
    assert_eq!(part_one(""), Some(0));
    assert_eq!(part_two(""), Some(0));
}
