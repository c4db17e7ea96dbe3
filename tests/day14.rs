use advent_of_code::day14::{solve_one, solve_two};

const EXAMPLE: &str = "p=0,4 v=3,-3
p=6,3 v=-1,-3
p=10,3 v=-1,2
p=2,0 v=2,-1
p=0,0 v=1,3
p=3,0 v=-2,-2
p=7,6 v=-1,-3
p=3,0 v=-1,-2
p=9,3 v=2,3
p=7,3 v=-1,2
p=2,4 v=2,-3
p=9,5 v=-3,-3
";

#[test]
fn robots_test_part_one() {
    let result = solve_one(EXAMPLE, 11, 7);
    assert_eq!(result, Some(12));
}

#[test]
fn robots_first_second_apart() {
    assert_eq!(solve_two(EXAMPLE, 11, 7), Some(1));
    // two robots that always share a tile never part
    assert_eq!(solve_two("p=1,1 v=1,1\np=1,1 v=1,1\n", 3, 3), None);
}

#[test]
fn robots_wrap_both_ways() {
    // one robot, moving left and up, ends in the bottom right quadrant after 100 seconds
    // on a 3 by 3 grid: x = (1 - 100) mod 3 = 0, y = (1 - 100) mod 3 = 0
    assert_eq!(solve_one("p=1,1 v=-1,-1\n", 3, 3), Some(0));
    assert_eq!(solve_one("p=1,1 v=x\n", 3, 3), None);
    assert_eq!(solve_one("", 0, 3), None);
}
