//! Page ordering rules `X|Y` (X must come before Y when both are printed) and updates,
//! lists of pages. Correctly ordered updates count their middle page; the others are
//! reordered first, and a page's place in the reordered update is the number of its
//! pages that must come before it.
use vstd::prelude::*;
use crate::text::{lines, numbers, parse_numbers, split_lines, views};
use vstd::string::StringSliceAdditionalSpecFns;

verus! {

/// The index of the first blank line, or the count of lines.
pub open spec fn first_blank(ls: Seq<Seq<u8>>, from: int) -> int
    decreases ls.len() - from,
{
    if from < 0 || from >= ls.len() {
        ls.len() as int
    } else if ls[from].len() == 0 {
        from
    } else {
        first_blank(ls, from + 1)
    }
}

/// Rules above the blank line, two numbers each; updates below it, at least one number
/// each.
pub open spec fn manual_valid(ls: Seq<Seq<u8>>) -> bool {
    let b = first_blank(ls, 0);
    &&& b < ls.len()
    &&& forall|i: int| 0 <= i < b ==> #[trigger] parse_numbers(ls[i]) is Some && parse_numbers(ls[i])->0.len() == 2
    &&& forall|i: int| b < i < ls.len() ==> #[trigger] parse_numbers(ls[i]) is Some && parse_numbers(ls[i])->0.len() >= 1
}

/// Some rule line among the first `b` says `x` comes before `y`.
pub open spec fn rule(ls: Seq<Seq<u8>>, b: int, x: u64, y: u64) -> bool {
    exists|i: int| 0 <= i < b && #[trigger] parse_numbers(ls[i])->0 == seq![x, y]
}

/// No rule is broken by two pages of `u`.
pub open spec fn in_order(ls: Seq<Seq<u8>>, b: int, u: Seq<u64>) -> bool {
    forall|i: int, j: int| 0 <= i < j < u.len() ==> !rule(ls, b, #[trigger] u[j], #[trigger] u[i])
}

/// How many of the first `m` pages of `u` must come before `p`.
pub open spec fn before_count(ls: Seq<Seq<u8>>, b: int, u: Seq<u64>, p: u64, m: int) -> nat
    decreases m,
{
    if m <= 0 {
        0
    } else {
        before_count(ls, b, u, p, m - 1) + if rule(ls, b, u[m - 1], p) {
            1nat
        } else {
            0nat
        }
    }
}

/// The first page of `u`, from index `k` on, that has half the pages of `u` before it:
/// the middle page once `u` is reordered.
pub open spec fn reordered_middle(ls: Seq<Seq<u8>>, b: int, u: Seq<u64>, k: int) -> Option<u64>
    decreases u.len() - k,
{
    if k < 0 || k >= u.len() {
        None
    } else if before_count(ls, b, u, u[k], u.len() as int) == u.len() / 2 {
        Some(u[k])
    } else {
        reordered_middle(ls, b, u, k + 1)
    }
}

/// Over the updates on lines `b + 1 .. n`: the middle pages of those in order, or with
/// `fix`, the middle pages, once reordered, of those out of order.
pub open spec fn middle_sum(ls: Seq<Seq<u8>>, b: int, n: int, fix: bool) -> Option<nat>
    decreases n - b,
{
    if n <= b + 1 {
        Some(0)
    } else {
        match middle_sum(ls, b, n - 1, fix) {
            None => None,
            Some(s) => {
                let u = parse_numbers(ls[n - 1])->0;
                if in_order(ls, b, u) {
                    if fix {
                        Some(s)
                    } else {
                        Some(s + u[u.len() as int / 2] as nat)
                    }
                } else if fix {
                    match reordered_middle(ls, b, u, 0) {
                        Some(m) => Some(s + m as nat),
                        None => None,
                    }
                } else {
                    Some(s)
                }
            },
        }
    }
}

pub open spec fn manual_answer(text: Seq<u8>, fix: bool) -> Option<nat> {
    let ls = split_lines(text);
    middle_sum(ls, first_blank(ls, 0), ls.len() as int, fix)
}

fn has_rule(rules: &Vec<(u64, u64)>, x: u64, y: u64, Ghost(ls): Ghost<Seq<Seq<u8>>>, Ghost(b): Ghost<int>) -> (r: bool)
    requires
        rules@.len() == b,
        forall|i: int| 0 <= i < b ==> parse_numbers(ls[i])->0 == seq![(#[trigger] rules@[i]).0, rules@[i].1],
    ensures
        r == rule(ls, b, x, y),
{
    let mut i: usize = 0;
    while i < rules.len()
        invariant
            rules@.len() == b,
            forall|i: int| 0 <= i < b ==> parse_numbers(ls[i])->0 == seq![(#[trigger] rules@[i]).0, rules@[i].1],
            i <= b,
            forall|k: int| 0 <= k < i ==> parse_numbers(ls[k])->0 != seq![x, y],
        decreases b - i,
    {
        if rules[i].0 == x && rules[i].1 == y {
            assert(parse_numbers(ls[i as int])->0 == seq![x, y]);
            return true;
        }
        proof {
            if parse_numbers(ls[i as int])->0 == seq![x, y] {
                assert(seq![rules@[i as int].0, rules@[i as int].1][0] == x);
                assert(seq![rules@[i as int].0, rules@[i as int].1][1] == y);
            }
        }
        i += 1;
    }
    false
}

fn update_in_order(u: &Vec<u64>, rules: &Vec<(u64, u64)>, Ghost(ls): Ghost<Seq<Seq<u8>>>, Ghost(b): Ghost<int>) -> (r: bool)
    requires
        rules@.len() == b,
        forall|i: int| 0 <= i < b ==> parse_numbers(ls[i])->0 == seq![(#[trigger] rules@[i]).0, rules@[i].1],
    ensures
        r == in_order(ls, b, u@),
{
    let mut j: usize = 0;
    while j < u.len()
        invariant
            rules@.len() == b,
            forall|i: int| 0 <= i < b ==> parse_numbers(ls[i])->0 == seq![(#[trigger] rules@[i]).0, rules@[i].1],
            j <= u@.len(),
            forall|a: int, c: int| 0 <= a < c < j ==> !rule(ls, b, #[trigger] u@[c], #[trigger] u@[a]),
        decreases u@.len() - j,
    {
        let mut i: usize = 0;
        while i < j
            invariant
                rules@.len() == b,
                forall|i: int| 0 <= i < b ==> parse_numbers(ls[i])->0 == seq![(#[trigger] rules@[i]).0, rules@[i].1],
                j < u@.len(),
                i <= j,
                forall|a: int, c: int| 0 <= a < c < j ==> !rule(ls, b, #[trigger] u@[c], #[trigger] u@[a]),
                forall|a: int| 0 <= a < i ==> !rule(ls, b, u@[j as int], #[trigger] u@[a]),
            decreases j - i,
        {
            if has_rule(rules, u[j], u[i], Ghost(ls), Ghost(b)) {
                return false;
            }
            i += 1;
        }
        j += 1;
    }
    true
}

fn count_before(u: &Vec<u64>, p: u64, rules: &Vec<(u64, u64)>, Ghost(ls): Ghost<Seq<Seq<u8>>>, Ghost(b): Ghost<int>) -> (r: usize)
    requires
        rules@.len() == b,
        forall|i: int| 0 <= i < b ==> parse_numbers(ls[i])->0 == seq![(#[trigger] rules@[i]).0, rules@[i].1],
    ensures
        r as nat == before_count(ls, b, u@, p, u@.len() as int),
{
    let mut c: usize = 0;
    let mut i: usize = 0;
    while i < u.len()
        invariant
            rules@.len() == b,
            forall|i: int| 0 <= i < b ==> parse_numbers(ls[i])->0 == seq![(#[trigger] rules@[i]).0, rules@[i].1],
            i <= u@.len(),
            c <= i,
            c as nat == before_count(ls, b, u@, p, i as int),
        decreases u@.len() - i,
    {
        if has_rule(rules, u[i], p, Ghost(ls), Ghost(b)) {
            c += 1;
        }
        i += 1;
    }
    c
}

fn middle_after_reorder(u: &Vec<u64>, rules: &Vec<(u64, u64)>, Ghost(ls): Ghost<Seq<Seq<u8>>>, Ghost(b): Ghost<int>) -> (r: Option<u64>)
    requires
        rules@.len() == b,
        forall|i: int| 0 <= i < b ==> parse_numbers(ls[i])->0 == seq![(#[trigger] rules@[i]).0, rules@[i].1],
    ensures
        r == reordered_middle(ls, b, u@, 0),
{
    let mut k: usize = 0;
    while k < u.len()
        invariant
            rules@.len() == b,
            forall|i: int| 0 <= i < b ==> parse_numbers(ls[i])->0 == seq![(#[trigger] rules@[i]).0, rules@[i].1],
            k <= u@.len(),
            reordered_middle(ls, b, u@, 0) == reordered_middle(ls, b, u@, k as int),
        decreases u@.len() - k,
    {
        if count_before(u, u[k], rules, Ghost(ls), Ghost(b)) == u.len() / 2 {
            return Some(u[k]);
        }
        k += 1;
    }
    None
}

proof fn lemma_sum_mono(ls: Seq<Seq<u8>>, b: int, k: int, n: int, fix: bool)
    requires
        b + 1 <= k <= n,
        middle_sum(ls, b, n, fix) is Some,
    ensures
        middle_sum(ls, b, k, fix) is Some,
        middle_sum(ls, b, k, fix)->0 <= middle_sum(ls, b, n, fix)->0,
    decreases n - k,
{
    if k < n {
        lemma_sum_mono(ls, b, k, n - 1, fix);
    }
}

proof fn lemma_none_stays(ls: Seq<Seq<u8>>, b: int, k: int, n: int, fix: bool)
    requires
        b + 1 <= k <= n,
        middle_sum(ls, b, k, fix) is None,
    ensures
        middle_sum(ls, b, n, fix) is None,
    decreases n - k,
{
    if k < n {
        lemma_none_stays(ls, b, k, n - 1, fix);
    }
}

fn find_blank(ls: &Vec<Vec<u8>>) -> (r: usize)
    ensures
        r as int == first_blank(views(ls@), 0),
        r <= ls@.len(),
{
    let ghost lv = views(ls@);
    let mut i: usize = 0;
    while i < ls.len()
        invariant
            lv == views(ls@),
            i <= lv.len(),
            first_blank(lv, 0) == first_blank(lv, i as int),
        decreases lv.len() - i,
    {
        assert(ls@[i as int]@ == lv[i as int]);
        if ls[i].len() == 0 {
            return i;
        }
        i += 1;
    }
    i
}

/// The middle pages summed over the updates in `input`: of those in order, or with
/// `fix`, of those out of order once reordered. `None` where the text is not rules, a
/// blank line and updates, an update out of order has no page with half of its pages
/// before it, or the sum does not fit in a `u32`.
pub fn middle_pages(input: &str, fix: bool) -> (r: Option<u32>)
    ensures
        match r {
            Some(v) => manual_valid(split_lines(input.spec_bytes())) && manual_answer(input.spec_bytes(), fix) == Some(v as nat),
            None => !manual_valid(split_lines(input.spec_bytes())) || manual_answer(input.spec_bytes(), fix) is None
                || manual_answer(input.spec_bytes(), fix)->0 > u32::MAX,
        },
{
    let ls = lines(input.as_bytes());
    let ghost lv = views(ls@);
    let b = find_blank(&ls);
    if b == ls.len() {
        return None;
    }
    let mut rules: Vec<(u64, u64)> = Vec::new();
    let mut i: usize = 0;
    while i < b
        invariant
            lv == views(ls@),
            lv == split_lines(input.spec_bytes()),
            b < lv.len(),
            b as int == first_blank(lv, 0),
            i <= b,
            rules@.len() == i,
            forall|k: int| 0 <= k < i ==> #[trigger] parse_numbers(lv[k]) is Some && parse_numbers(lv[k])->0.len() == 2,
            forall|k: int| 0 <= k < i ==> parse_numbers(lv[k])->0 == seq![(#[trigger] rules@[k]).0, rules@[k].1],
        decreases b - i,
    {
        assert(ls@[i as int]@ == lv[i as int]);
        let nums = match numbers(ls[i].as_slice()) {
            Some(n) => n,
            None => return None,
        };
        if nums.len() != 2 {
            return None;
        }
        assert(nums@ =~= seq![nums@[0], nums@[1]]);
        rules.push((nums[0], nums[1]));
        i += 1;
    }
    let ghost bi = b as int;
    let mut total: u32 = 0;
    let mut k: usize = b + 1;
    while k < ls.len()
        invariant
            lv == views(ls@),
            lv == split_lines(input.spec_bytes()),
            b < lv.len(),
            bi == b,
            bi == first_blank(lv, 0),
            rules@.len() == b,
            forall|k: int| 0 <= k < bi ==> #[trigger] parse_numbers(lv[k]) is Some && parse_numbers(lv[k])->0.len() == 2,
            forall|k: int| 0 <= k < bi ==> parse_numbers(lv[k])->0 == seq![(#[trigger] rules@[k]).0, rules@[k].1],
            b + 1 <= k <= lv.len(),
            forall|j: int| b < j < k ==> #[trigger] parse_numbers(lv[j]) is Some && parse_numbers(lv[j])->0.len() >= 1,
            middle_sum(lv, bi, k as int, fix) == Some(total as nat),
        decreases lv.len() - k,
    {
        assert(ls@[k as int]@ == lv[k as int]);
        let u = match numbers(ls[k].as_slice()) {
            Some(n) => n,
            None => return None,
        };
        if u.len() == 0 {
            return None;
        }
        let ordered = update_in_order(&u, &rules, Ghost(lv), Ghost(bi));
        let add: u64 = if ordered {
            if fix {
                0
            } else {
                u[u.len() / 2]
            }
        } else if fix {
            match middle_after_reorder(&u, &rules, Ghost(lv), Ghost(bi)) {
                Some(m) => m,
                None => {
                    proof {
                        lemma_none_stays(lv, bi, k as int + 1, lv.len() as int, fix);
                    }
                    return None;
                },
            }
        } else {
            0
        };
        if add > (u32::MAX - total) as u64 {
            proof {
                if middle_sum(lv, bi, lv.len() as int, fix) is Some {
                    lemma_sum_mono(lv, bi, k as int + 1, lv.len() as int, fix);
                }
            }
            return None;
        }
        total = total + add as u32;
        k += 1;
    }
    Some(total)
}

/// The middle pages of the updates in order, summed.
pub fn part_one(input: &str) -> (r: Option<u32>)
    ensures
        match r {
            Some(v) => manual_valid(split_lines(input.spec_bytes())) && manual_answer(input.spec_bytes(), false) == Some(v as nat),
            None => !manual_valid(split_lines(input.spec_bytes())) || manual_answer(input.spec_bytes(), false) is None
                || manual_answer(input.spec_bytes(), false)->0 > u32::MAX,
        },
{
    middle_pages(input, false)
}

/// The middle pages of the updates out of order, once reordered, summed.
pub fn part_two(input: &str) -> (r: Option<u32>)
    ensures
        match r {
            Some(v) => manual_valid(split_lines(input.spec_bytes())) && manual_answer(input.spec_bytes(), true) == Some(v as nat),
            None => !manual_valid(split_lines(input.spec_bytes())) || manual_answer(input.spec_bytes(), true) is None
                || manual_answer(input.spec_bytes(), true)->0 > u32::MAX,
        },
{
    middle_pages(input, true)
}

} // verus!
