use advent_of_code::day09::{part_one, part_two};

const EXAMPLE: &str = "2333133121414131402\n";

#[test]
fn disk_test_part_one() {
    let result = part_one(EXAMPLE);
    assert_eq!(result, Some(1928));
}

#[test]
fn disk_test_part_two() {
    let result = part_two(EXAMPLE);
    assert_eq!(result, Some(2858));
}

#[test]
fn disk_small_map() {
    // 0..111....22222 compacts to 022111222
    assert_eq!(part_one("12345"), Some(60));
    // trailing free space changes nothing
    assert_eq!(part_one("123450"), Some(60));
    assert_eq!(part_one("123453"), Some(60));
}

#[test]
fn disk_empty() {
    assert_eq!(part_one(""), Some(0));
    assert_eq!(part_two(""), Some(0));
}
