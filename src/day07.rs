//! Calibration equations: a target and a list of numbers, combined left to right
//! with `+` and `*` (and, in the second part, digit concatenation `||`). An equation
//! counts where some choice of operators yields the target.
use vstd::prelude::*;
use crate::text::{lines, numbers, parse_numbers, split_lines, usize_answer, views};
use crate::day11::{lemma_digits_bound, lemma_pow10_monotone, num_digits, pow10};
use vstd::string::StringSliceAdditionalSpecFns;

verus! {

/// The digits of `a` followed by those of `b`.
pub open spec fn concat(a: nat, b: nat) -> nat {
    a * pow10(num_digits(b)) + b
}

/// Some choice of operators turns `acc` followed by `rest` into `target`; a running
/// value above the target is given up, as no operator makes it smaller.
pub open spec fn reaches(target: nat, acc: nat, rest: Seq<u64>, cat: bool) -> bool
    decreases rest.len(),
{
    if rest.len() == 0 {
        acc == target
    } else if acc > target {
        false
    } else {
        let b = rest[0] as nat;
        let tail = rest.subrange(1, rest.len() as int);
        reaches(target, acc + b, tail, cat) || reaches(target, acc * b, tail, cat) || (cat && reaches(
            target,
            concat(acc, b),
            tail,
            cat,
        ))
    }
}

/// The equation on line `line`: its target is its first number, and the others can be
/// combined into it.
pub open spec fn solvable(line: Seq<u8>, cat: bool) -> bool {
    let nums = parse_numbers(line)->0;
    reaches(nums[0] as nat, nums[1] as nat, nums.subrange(2, nums.len() as int), cat)
}

/// Every line holds a target and at least one number.
pub open spec fn equations_valid(ls: Seq<Seq<u8>>) -> bool {
    forall|i: int| 0 <= i < ls.len() ==> #[trigger] parse_numbers(ls[i]) is Some && parse_numbers(ls[i])->0.len() >= 2
}

/// The sum of the targets of the solvable equations among the first `n` lines.
pub open spec fn calibration(ls: Seq<Seq<u8>>, n: int, cat: bool) -> nat
    decreases n,
{
    if n <= 0 {
        0
    } else {
        calibration(ls, n - 1, cat) + if solvable(ls[n - 1], cat) {
            parse_numbers(ls[n - 1])->0[0] as nat
        } else {
            0nat
        }
    }
}

proof fn lemma_calibration_mono(ls: Seq<Seq<u8>>, k: int, n: int, cat: bool)
    requires
        k <= n,
    ensures
        calibration(ls, k, cat) <= calibration(ls, n, cat),
    decreases n - k,
{
    if k < n {
        lemma_calibration_mono(ls, k, n - 1, cat);
    }
}

/// `a` followed by the digits of `b`, or `None` beyond 128 bits.
fn concat_exec(a: u128, b: u64) -> (r: Option<u128>)
    ensures
        match r {
            Some(v) => v as nat == concat(a as nat, b as nat),
            None => concat(a as nat, b as nat) > u128::MAX,
        },
{
    proof {
        assert(pow10(20) == 100000000000000000000) by {
            reveal_with_fuel(pow10, 21);
        }
        lemma_digits_bound(b as nat, 20);
        assert(pow10(1) == 10) by {
            reveal_with_fuel(pow10, 2);
        }
    }
    let mut p: u128 = 10;
    let mut x: u64 = b;
    let ghost mut k: nat = 1;
    while x >= 10
        invariant
            p as nat == pow10(k),
            k + num_digits(x as nat) == num_digits(b as nat) + 1,
            num_digits(b as nat) <= 20,
            pow10(20) == 100000000000000000000,
            1 <= k,
        decreases x,
    {
        proof {
            assert(num_digits(x as nat) >= 2) by {
                reveal_with_fuel(num_digits, 2);
            }
            lemma_pow10_monotone(k + 1, 20);
        }
        x = x / 10;
        p = p * 10;
        proof {
            k = k + 1;
        }
    }
    match a.checked_mul(p) {
        Some(m) => m.checked_add(b as u128),
        None => None,
    }
}

/// Whether some choice of operators turns `acc` followed by `rest[i..]` into `target`.
fn search(target: u64, acc: u128, rest: &Vec<u64>, i: usize, cat: bool) -> (r: bool)
    requires
        i <= rest@.len(),
    ensures
        r == reaches(target as nat, acc as nat, rest@.subrange(i as int, rest@.len() as int), cat),
    decreases rest@.len() - i,
{
    let ghost tail = rest@.subrange(i as int, rest@.len() as int);
    if i == rest.len() {
        return acc == target as u128;
    }
    if acc > target as u128 {
        return false;
    }
    let b = rest[i];
    proof {
        assert(tail[0] == b);
        assert(tail.subrange(1, tail.len() as int) =~= rest@.subrange(i + 1, rest@.len() as int));
    }
    if search(target, acc + b as u128, rest, i + 1, cat) {
        return true;
    }
    assert(acc * (b as u128) <= u128::MAX) by (nonlinear_arith)
        requires
            acc <= 0xffff_ffff_ffff_ffffu128,
            b <= 0xffff_ffff_ffff_ffffu64,
    ;
    if search(target, acc * b as u128, rest, i + 1, cat) {
        return true;
    }
    if cat {
        match concat_exec(acc, b) {
            Some(c) => search(target, c, rest, i + 1, cat),
            None => {
                proof {
                    lemma_too_big(target as nat, concat(acc as nat, b as nat), rest@.subrange(i + 1, rest@.len() as int), cat);
                }
                false
            },
        }
    } else {
        false
    }
}

proof fn lemma_too_big(target: nat, acc: nat, rest: Seq<u64>, cat: bool)
    requires
        acc > target,
    ensures
        !reaches(target, acc, rest, cat),
{
}

/// The sum of the targets of the equations in `input` that some operators solve;
/// `None` where a line lacks a target and a number, a number exceeds 64 bits, or the
/// sum does not fit in a `usize`.
pub fn calibration_total(input: &str, cat: bool) -> (r: Option<usize>)
    ensures
        usize_answer(
            r,
            equations_valid(split_lines(input.spec_bytes())),
            calibration(split_lines(input.spec_bytes()), split_lines(input.spec_bytes()).len() as int, cat),
        ),
{
    let ls = lines(input.as_bytes());
    let ghost lv = views(ls@);
    let mut total: usize = 0;
    let mut i: usize = 0;
    while i < ls.len()
        invariant
            lv == views(ls@),
            lv == split_lines(input.spec_bytes()),
            i <= lv.len(),
            forall|j: int| 0 <= j < i ==> #[trigger] parse_numbers(lv[j]) is Some && parse_numbers(lv[j])->0.len() >= 2,
            total as nat == calibration(lv, i as int, cat),
        decreases lv.len() - i,
    {
        assert(ls@[i as int]@ == lv[i as int]);
        let nums = match numbers(ls[i].as_slice()) {
            Some(n) => n,
            None => return None,
        };
        if nums.len() < 2 {
            return None;
        }
        let target = nums[0];
        proof {
            lemma_calibration_mono(lv, i + 1, lv.len() as int, cat);
        }
        if search(target, nums[1] as u128, &nums, 2, cat) {
            if target > usize::MAX as u64 {
                return None;
            }
            total = match total.checked_add(target as usize) {
                Some(t) => t,
                None => return None,
            };
        }
        i += 1;
    }
    Some(total)
}

/// The calibration total with `+` and `*`.
pub fn part_one(input: &str) -> (r: Option<usize>)
    ensures
        usize_answer(
            r,
            equations_valid(split_lines(input.spec_bytes())),
            calibration(split_lines(input.spec_bytes()), split_lines(input.spec_bytes()).len() as int, false),
        ),
{
    calibration_total(input, false)
}

/// The calibration total with `+`, `*` and `||`.
pub fn part_two(input: &str) -> (r: Option<usize>)
    ensures
        usize_answer(
            r,
            equations_valid(split_lines(input.spec_bytes())),
            calibration(split_lines(input.spec_bytes()), split_lines(input.spec_bytes()).len() as int, true),
        ),
{
    calibration_total(input, true)
}

} // verus!
