use advent_of_code::day03::{part_one, part_two};

#[test]
fn mul_test_part_one() {
    let result =
        part_one("xmul(2,4)%&mul[3,7]!@^do_not_mul(5,5)+mul(32,64]then(mul(11,8)mul(8,5))");
    assert_eq!(result, Some(161));
}

#[test]
fn mul_test_part_two() {
    let result =
        part_two("xmul(2,4)&mul[3,7]!^don't()_mul(5,5)+mul(32,64](mul(11,8)undo()?mul(8,5))");
    assert_eq!(result, Some(48));
}

#[test]
fn mul_malformed_instructions() {
    assert_eq!(part_one("mul(1234,5)mul(4*mul(6,9!?(12,34)mul ( 2 , 4 )"), Some(0));
    assert_eq!(part_one("mul(123,4)"), Some(492));
    assert_eq!(part_one(""), Some(0));
}
