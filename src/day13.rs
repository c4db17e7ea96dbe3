//! Claw machines: two buttons move the claw by fixed steps, and the prize lies at a
//! fixed place. The presses are the solution of a 2×2 linear system, found by
//! Cramer's rule and accepted only where both counts are whole and not negative.
use vstd::prelude::*;
use crate::text::{numbers, parse_numbers};
use vstd::string::StringSliceAdditionalSpecFns;

verus! {

/// The presses (A, B) with `ax·A + bx·B = px` and `ay·A + by·B = py`, where the
/// system has one solution and it is in non-negative integers. By Cramer's rule
/// `A = Dx / D` and `B = Dy / D`; signs are flipped so that the divisor is positive.
pub open spec fn solve(ax: int, ay: int, bx: int, by: int, px: int, py: int) -> Option<(int, int)> {
    let d = ax * by - bx * ay;
    let dx = px * by - bx * py;
    let dy = ax * py - px * ay;
    let (e, ex, ey) = if d < 0 {
        (-d, -dx, -dy)
    } else {
        (d, dx, dy)
    };
    if d == 0 || ex < 0 || ey < 0 || ex % e != 0 || ey % e != 0 {
        None
    } else {
        Some((ex / e, ey / e))
    }
}

/// What winning a machine costs in tokens: 3 per A press and 1 per B press; 0 where it
/// cannot be won.
pub open spec fn machine_cost(ax: int, ay: int, bx: int, by: int, px: int, py: int) -> int {
    match solve(ax, ay, bx, by, px, py) {
        Some((a, b)) => 3 * a + b,
        None => 0,
    }
}

/// A solution that `solve` returns meets both equations, with no negative count.
pub proof fn solution_meets_both_equations(ax: int, ay: int, bx: int, by: int, px: int, py: int)
    requires
        solve(ax, ay, bx, by, px, py) is Some,
    ensures
        ({
            let (a, b) = solve(ax, ay, bx, by, px, py)->0;
            &&& ax * a + bx * b == px
            &&& ay * a + by * b == py
            &&& a >= 0
            &&& b >= 0
        }),
{
    let d = ax * by - bx * ay;
    let dx = px * by - bx * py;
    let dy = ax * py - px * ay;
    let (e, ex, ey) = if d < 0 {
        (-d, -dx, -dy)
    } else {
        (d, dx, dy)
    };
    let a = ex / e;
    let b = ey / e;
    vstd::arithmetic::div_mod::lemma_fundamental_div_mod(ex, e);
    vstd::arithmetic::div_mod::lemma_fundamental_div_mod(ey, e);
    assert(a * d == dx && b * d == dy) by (nonlinear_arith)
        requires
            e * a == ex,
            e * b == ey,
            (e == d && ex == dx && ey == dy) || (e == -d && ex == -dx && ey == -dy),
    ;
    assert(d * (ax * a + bx * b) == ax * (a * d) + bx * (b * d)) by (nonlinear_arith);
    assert(d * (ay * a + by * b) == ay * (a * d) + by * (b * d)) by (nonlinear_arith);
    assert(ax * dx + bx * dy == px * d) by (nonlinear_arith)
        requires
            d == ax * by - bx * ay,
            dx == px * by - bx * py,
            dy == ax * py - px * ay,
    ;
    assert(ay * dx + by * dy == py * d) by (nonlinear_arith)
        requires
            d == ax * by - bx * ay,
            dx == px * by - bx * py,
            dy == ax * py - px * ay,
    ;
    assert(ax * a + bx * b == px) by (nonlinear_arith)
        requires
            d * (ax * a + bx * b) == px * d,
            d != 0,
    ;
    assert(ay * a + by * b == py) by (nonlinear_arith)
        requires
            d * (ay * a + by * b) == py * d,
            d != 0,
    ;
    assert(a >= 0 && b >= 0) by (nonlinear_arith)
        requires
            e * a == ex,
            e * b == ey,
            e > 0,
            ex >= 0,
            ey >= 0,
    ;
}

/// The six numbers of machine `k`, the prize moved by `offset` on both axes.
pub open spec fn machine_value(nums: Seq<u64>, k: int, i: int, offset: int) -> int {
    nums[6 * k + i] as int + if i >= 4 {
        offset
    } else {
        0
    }
}

/// The text lists whole machines, each value fitting in an `i64`.
pub open spec fn machines_valid(text: Seq<u8>, offset: int) -> bool {
    &&& parse_numbers(text) is Some
    &&& parse_numbers(text)->0.len() % 6 == 0
    &&& forall|k: int, i: int|
        0 <= k < parse_numbers(text)->0.len() / 6 && 0 <= i < 6 ==> #[trigger] machine_value(
            parse_numbers(text)->0,
            k,
            i,
            offset,
        ) <= i64::MAX
}

/// The tokens needed to win every machine that can be won among the first `n`.
pub open spec fn cost_upto(nums: Seq<u64>, n: int, offset: int) -> int
    decreases n,
{
    if n <= 0 {
        0
    } else {
        cost_upto(nums, n - 1, offset) + machine_cost(
            machine_value(nums, n - 1, 0, offset),
            machine_value(nums, n - 1, 1, offset),
            machine_value(nums, n - 1, 2, offset),
            machine_value(nums, n - 1, 3, offset),
            machine_value(nums, n - 1, 4, offset),
            machine_value(nums, n - 1, 5, offset),
        )
    }
}

pub open spec fn total_cost(text: Seq<u8>, offset: int) -> int {
    let nums = parse_numbers(text)->0;
    cost_upto(nums, nums.len() as int / 6, offset)
}

/// The presses of A and B that win a machine, or `None` where it cannot be won.
fn solve_presses(ax: i64, ay: i64, bx: i64, by: i64, px: i64, py: i64) -> (r: Option<(u128, u128)>)
    ensures
        match r {
            Some((a, b)) => solve(ax as int, ay as int, bx as int, by as int, px as int, py as int)
                == Some((a as int, b as int)),
            None => solve(ax as int, ay as int, bx as int, by as int, px as int, py as int) is None,
        },
{
    let (ax, ay, bx, by, px, py) = (ax as i128, ay as i128, bx as i128, by as i128, px as i128, py as i128);
    proof {
        assert(-9223372036854775808 <= ax <= 9223372036854775807);
        assert(ax * by <= 85070591730234615865843651857942052864) by (nonlinear_arith)
            requires
                -9223372036854775808 <= ax <= 9223372036854775807,
                -9223372036854775808 <= by <= 9223372036854775807,
        ;
        assert(ax * by >= -85070591730234615856620279821087277056) by (nonlinear_arith)
            requires
                -9223372036854775808 <= ax <= 9223372036854775807,
                -9223372036854775808 <= by <= 9223372036854775807,
        ;
        assert(bx * ay <= 85070591730234615865843651857942052864) by (nonlinear_arith)
            requires
                -9223372036854775808 <= bx <= 9223372036854775807,
                -9223372036854775808 <= ay <= 9223372036854775807,
        ;
        assert(bx * ay >= -85070591730234615856620279821087277056) by (nonlinear_arith)
            requires
                -9223372036854775808 <= bx <= 9223372036854775807,
                -9223372036854775808 <= ay <= 9223372036854775807,
        ;
        assert(px * by <= 85070591730234615865843651857942052864) by (nonlinear_arith)
            requires
                -9223372036854775808 <= px <= 9223372036854775807,
                -9223372036854775808 <= by <= 9223372036854775807,
        ;
        assert(px * by >= -85070591730234615856620279821087277056) by (nonlinear_arith)
            requires
                -9223372036854775808 <= px <= 9223372036854775807,
                -9223372036854775808 <= by <= 9223372036854775807,
        ;
        assert(bx * py <= 85070591730234615865843651857942052864) by (nonlinear_arith)
            requires
                -9223372036854775808 <= bx <= 9223372036854775807,
                -9223372036854775808 <= py <= 9223372036854775807,
        ;
        assert(bx * py >= -85070591730234615856620279821087277056) by (nonlinear_arith)
            requires
                -9223372036854775808 <= bx <= 9223372036854775807,
                -9223372036854775808 <= py <= 9223372036854775807,
        ;
        assert(ax * py <= 85070591730234615865843651857942052864) by (nonlinear_arith)
            requires
                -9223372036854775808 <= ax <= 9223372036854775807,
                -9223372036854775808 <= py <= 9223372036854775807,
        ;
        assert(ax * py >= -85070591730234615856620279821087277056) by (nonlinear_arith)
            requires
                -9223372036854775808 <= ax <= 9223372036854775807,
                -9223372036854775808 <= py <= 9223372036854775807,
        ;
        assert(px * ay <= 85070591730234615865843651857942052864) by (nonlinear_arith)
            requires
                -9223372036854775808 <= px <= 9223372036854775807,
                -9223372036854775808 <= ay <= 9223372036854775807,
        ;
        assert(px * ay >= -85070591730234615856620279821087277056) by (nonlinear_arith)
            requires
                -9223372036854775808 <= px <= 9223372036854775807,
                -9223372036854775808 <= ay <= 9223372036854775807,
        ;
    }
    let d = ax * by - bx * ay;
    let dx = px * by - bx * py;
    let dy = ax * py - px * ay;
    if d == 0 {
        return None;
    }
    // the same system with a positive determinant
    let (d, dx, dy) = if d < 0 {
        (-d, -dx, -dy)
    } else {
        (d, dx, dy)
    };
    if dx < 0 || dy < 0 {
        return None;
    }
    let (ud, udx, udy) = (d as u128, dx as u128, dy as u128);
    if udx % ud != 0 || udy % ud != 0 {
        return None;
    }
    let a = udx / ud;
    let b = udy / ud;
    Some((a, b))
}

/// Tokens to win a machine, 3 per A press and 1 per B press; `None` where it cannot be
/// won, or where the cost exceeds 127 bits.
pub fn machine_tokens(ax: i64, ay: i64, bx: i64, by: i64, px: i64, py: i64) -> (r: Option<i128>)
    ensures
        match r {
            Some(c) => solve(ax as int, ay as int, bx as int, by as int, px as int, py as int)
                is Some && c >= 0 && c as int == machine_cost(
                ax as int,
                ay as int,
                bx as int,
                by as int,
                px as int,
                py as int,
            ),
            None => solve(ax as int, ay as int, bx as int, by as int, px as int, py as int) is None
                || machine_cost(ax as int, ay as int, bx as int, by as int, px as int, py as int)
                > i128::MAX,
        },
{
    match solve_presses(ax, ay, bx, by, px, py) {
        None => None,
        Some((a, b)) => match cost_of(a, b) {
            Some(c) => if c > i128::MAX as u128 {
                None
            } else {
                Some(c as i128)
            },
            None => None,
        },
    }
}

/// `3·a + b`, or `None` beyond 128 bits.
fn cost_of(a: u128, b: u128) -> (r: Option<u128>)
    ensures
        match r {
            Some(c) => c as int == 3 * a + b,
            None => 3 * a + b > u128::MAX,
        },
{
    match a.checked_mul(3) {
        Some(a3) => a3.checked_add(b),
        None => None,
    }
}


proof fn lemma_cost_upto_monotone(nums: Seq<u64>, k: int, n: int, offset: int)
    requires
        0 <= k <= n,
    ensures
        cost_upto(nums, k, offset) <= cost_upto(nums, n, offset),
    decreases n - k,
{
    if k < n {
        lemma_cost_upto_monotone(nums, k, n - 1, offset);
        let m = n - 1;
        let (ax, ay, bx, by, px, py) = (
            machine_value(nums, m, 0, offset),
            machine_value(nums, m, 1, offset),
            machine_value(nums, m, 2, offset),
            machine_value(nums, m, 3, offset),
            machine_value(nums, m, 4, offset),
            machine_value(nums, m, 5, offset),
        );
        if solve(ax, ay, bx, by, px, py) is Some {
            solution_meets_both_equations(ax, ay, bx, by, px, py);
        }
    }
}

/// The value at place `i` of machine `k`, or `None` where it does not fit in an `i64`.
fn value_at(nums: &Vec<u64>, k: usize, i: usize, offset: i64) -> (r: Option<i64>)
    requires
        6 * k + i < nums@.len(),
        i < 6,
        offset >= 0,
    ensures
        match r {
            Some(v) => v >= 0 && v as int == machine_value(nums@, k as int, i as int, offset as int),
            None => machine_value(nums@, k as int, i as int, offset as int) > i64::MAX,
        },
{
    let _n = nums.len();
    let v = nums[6 * k + i];
    if v > i64::MAX as u64 {
        return None;
    }
    if i >= 4 {
        (v as i64).checked_add(offset)
    } else {
        Some(v as i64)
    }
}

/// Tokens needed to win every machine that can be won in `input`, each prize moved by
/// `offset` on both axes. `None` where the text does not list whole machines, a value
/// does not fit in an `i64`, or the total does not.
pub fn total_tokens(input: &str, offset: i64) -> (r: Option<i64>)
    requires
        offset >= 0,
    ensures
        match r {
            Some(t) => machines_valid(input.spec_bytes(), offset as int) && t as int == total_cost(
                input.spec_bytes(),
                offset as int,
            ),
            None => !machines_valid(input.spec_bytes(), offset as int) || total_cost(
                input.spec_bytes(),
                offset as int,
            ) > i64::MAX,
        },
{
    let nums = match numbers(input.as_bytes()) {
        Some(n) => n,
        None => return None,
    };
    if nums.len() % 6 != 0 {
        return None;
    }
    let count = nums.len() / 6;
    let ghost text = input.spec_bytes();
    let mut total: i64 = 0;
    let mut k: usize = 0;
    while k < count
        invariant
            parse_numbers(text) == Some(nums@),
            text == input.spec_bytes(),
            nums@.len() % 6 == 0,
            count == nums@.len() / 6,
            offset >= 0,
            k <= count,
            forall|m: int, i: int|
                0 <= m < k && 0 <= i < 6 ==> #[trigger] machine_value(nums@, m, i, offset as int)
                    <= i64::MAX,
            total as int == cost_upto(nums@, k as int, offset as int),
            total >= 0,
        decreases count - k,
    {
        let ghost kk = k as int;
        let ax = value_at(&nums, k, 0, offset);
        let ay = value_at(&nums, k, 1, offset);
        let bx = value_at(&nums, k, 2, offset);
        let by = value_at(&nums, k, 3, offset);
        let px = value_at(&nums, k, 4, offset);
        let py = value_at(&nums, k, 5, offset);
        let (ax, ay, bx, by, px, py) = match (ax, ay, bx, by, px, py) {
            (Some(ax), Some(ay), Some(bx), Some(by), Some(px), Some(py)) => (ax, ay, bx, by, px, py),
            _ => {
                proof {
                    assert(!machines_valid(text, offset as int)) by {
                        assert(kk < parse_numbers(text)->0.len() / 6);
                    }
                }
                return None;
            },
        };
        proof {
            assert forall|m: int, i: int|
                0 <= m < k + 1 && 0 <= i < 6 implies #[trigger] machine_value(nums@, m, i, offset as int)
                <= i64::MAX by {
                if m == k {
                    if i == 0 {} else if i == 1 {} else if i == 2 {} else if i == 3 {} else if i == 4 {} else {}
                }
            }
            lemma_cost_upto_monotone(nums@, k + 1, count as int, offset as int);
        }
        match solve_presses(ax, ay, bx, by, px, py) {
            None => {},
            Some((a, b)) => {
                let c = match cost_of(a, b) {
                    Some(c) => c,
                    None => return None,
                };
                if c > (i64::MAX - total) as u128 {
                    return None;
                }
                total = total + c as i64;
            },
        }
        k += 1;
    }
    Some(total)
}

/// Tokens needed to win every machine that can be won in `input`.
pub fn part_one(input: &str) -> (r: Option<i64>)
    ensures
        match r {
            Some(t) => machines_valid(input.spec_bytes(), 0) && t as int == total_cost(
                input.spec_bytes(),
                0,
            ),
            None => !machines_valid(input.spec_bytes(), 0) || total_cost(input.spec_bytes(), 0)
                > i64::MAX,
        },
{
    total_tokens(input, 0)
}

/// The prize lies 10000000000000 further on both axes.
pub const PRIZE_OFFSET: i64 = 10000000000000;

/// Tokens needed to win every machine that can be won in `input`, prizes moved by
/// 10000000000000 on both axes.
pub fn part_two(input: &str) -> (r: Option<i64>)
    ensures
        match r {
            Some(t) => machines_valid(input.spec_bytes(), PRIZE_OFFSET as int) && t as int
                == total_cost(input.spec_bytes(), PRIZE_OFFSET as int),
            None => !machines_valid(input.spec_bytes(), PRIZE_OFFSET as int) || total_cost(
                input.spec_bytes(),
                PRIZE_OFFSET as int,
            ) > i64::MAX,
        },
{
    total_tokens(input, PRIZE_OFFSET)
}

} // verus!
