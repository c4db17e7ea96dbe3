use advent_of_code::day18::{solve_one, wrapped_two};

const EXAMPLE: &str = "5,4
4,2
4,5
3,0
2,1
6,3
2,4
1,5
0,6
3,3
2,6
5,1
1,2
5,5
2,5
6,5
1,4
0,4
6,4
1,1
6,1
1,0
0,5
1,6
2,0
";

#[test]
fn memory_test_part_one() {
    let result = solve_one(
        7,
        7,
        12,
        vec![
            (5, 4),
            (4, 2),
            (4, 5),
            (3, 0),
            (2, 1),
            (6, 3),
            (2, 4),
            (1, 5),
            (0, 6),
            (3, 3),
            (2, 6),
            (5, 1),
        ],
    );
    assert_eq!(result, Some(22));
}

#[test]
fn memory_test_part_two() {
    let result = wrapped_two(EXAMPLE, 7, 7);
    assert_eq!(result, Some("6,1".to_string()));
}

#[test]
fn memory_open_grid_and_blocked_start() {
    assert_eq!(solve_one(3, 3, 0, vec![]), Some(4));
    assert_eq!(solve_one(3, 3, 1, vec![(0, 0)]), None);
    assert_eq!(solve_one(0, 3, 0, vec![]), None);
    // fewer bytes listed than asked for
    assert_eq!(solve_one(3, 3, 2, vec![(1, 1)]), None);
}
