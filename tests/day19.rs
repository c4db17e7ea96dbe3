use advent_of_code::day19::{part_one, part_two};

const EXAMPLE: &str = "r, wr, b, g, bwu, rb, gb, br

brwrr
bggr
gbbr
rrbgbr
ubwu
bwurrg
brgr
bbrgwb
";

#[test]
fn towels_test_part_one() {
    let result = part_one(EXAMPLE);
    assert_eq!(result, Some(6));
}

#[test]
fn towels_test_part_one_1() {
    let result = part_one(
        "r, wr, b, g, bwu, rb, gb, br

brwrr",
    );
    assert_eq!(result, Some(1));
}

#[test]
fn towels_test_part_one_2() {
    let result = part_one(
        "r, wr, b, g, bwu, rb, gb, br

ubwu",
    );
    assert_eq!(result, None);
}

#[test]
fn towels_test_part_two() {
    let result = part_two(EXAMPLE);
    assert_eq!(result, Some(16));
}

#[test]
fn towels_missing_blank_line() {
    assert_eq!(part_one("r, wr\nrwr\n"), None);
}
