use advent_of_code::day22::{mix, next_secret, part_one, part_two, prune};
use std::collections::HashSet;

#[test]
fn prng_test_part_one() {
    let result = part_one("1\n10\n100\n2024\n");
    assert_eq!(result, Some(37327623));
}

#[test]
fn prng_test_part_one_1() {
    let result = next_secret(123);
    assert_eq!(result, 15887950);
}

#[test]
fn test_part_one_mix() {
    let result = mix(42, 15);
    assert_eq!(result, 37);
}

#[test]
fn test_part_one_prune() {
    let result = prune(100000000);
    assert_eq!(result, 16113920);
}

#[test]
fn prng_test_part_two_canonical() {
    let result = part_two("1\n10\n100\n2024\n");
    assert_eq!(result, Some(24));
}

#[test]
fn prng_test_part_two() {
    let result = part_two("1\n2\n3\n2024\n");
    assert_eq!(result, Some(23));
}

#[test]
fn prng_first_ten_after_123() {
    let expected = [
        15887950, 16495136, 527345, 704524, 1553684, 12683156, 11100544, 12249484, 7753432,
        5908254,
    ];
    let mut x = 123;
    for e in expected {
        x = next_secret(x);
        assert_eq!(x, e);
    }
}

#[test]
fn prng_no_early_repeats() {
    for seed in [1u64, 10, 100, 2024, 123] {
        let mut seen = HashSet::new();
        let mut x = seed;
        for _ in 0..2000 {
            x = next_secret(x);
            assert!(seen.insert(x));
        }
    }
}

#[test]
fn prng_empty_input() {
    assert_eq!(part_one(""), Some(0));
    assert_eq!(part_two(""), Some(0));
}
