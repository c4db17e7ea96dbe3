//! Reactor reports: a report is safe where its levels all rise or all fall, by one to
//! three at each step; the dampener also accepts a report that one removed level
//! makes safe.
use vstd::prelude::*;
use crate::text::{lines, numbers, parse_numbers, split_lines, u32_answer, views};
use vstd::string::StringSliceAdditionalSpecFns;

verus! {

/// Every step rises by one to three.
pub open spec fn rising(s: Seq<u32>) -> bool {
    forall|i: int| 0 <= i < s.len() - 1 ==> #[trigger] s[i] < s[i + 1] && s[i + 1] - s[i] <= 3
}

/// Every step falls by one to three.
pub open spec fn falling(s: Seq<u32>) -> bool {
    forall|i: int| 0 <= i < s.len() - 1 ==> #[trigger] s[i] > s[i + 1] && s[i] - s[i + 1] <= 3
}

/// A report of at least two levels that rises or falls gently throughout.
pub open spec fn safe(s: Seq<u32>) -> bool {
    s.len() >= 2 && (rising(s) || falling(s))
}

/// Some single level can be removed to leave a safe report.
pub open spec fn dampened(s: Seq<u32>) -> bool {
    exists|i: int| 0 <= i < s.len() && #[trigger] safe(s.remove(i))
}

/// Whether `report` is safe.
pub fn is_valid(report: &[u32]) -> (r: bool)
    ensures
        r == safe(report@),
{
    if report.len() < 2 {
        return false;
    }
    let up = report[0] < report[1];
    let mut i: usize = 0;
    let last = report.len() - 1;
    while i < last
        invariant
            last == report@.len() - 1,
            report@.len() >= 2,
            up == (report@[0] < report@[1]),
            i + 1 <= report@.len(),
            up ==> forall|j: int| 0 <= j < i ==> #[trigger] report@[j] < report@[j + 1] && report@[j + 1] - report@[j] <= 3,
            !up ==> forall|j: int| 0 <= j < i ==> #[trigger] report@[j] > report@[j + 1] && report@[j] - report@[j + 1] <= 3,
        decreases report@.len() - i,
    {
        let a = report[i];
        let b = report[i + 1];
        if up {
            if !(a < b && b - a <= 3) {
                proof {
                    assert(!rising(report@));
                    assert(!falling(report@)) by {
                        assert(report@[0] <= report@[1]);
                    }
                }
                return false;
            }
        } else {
            if !(a > b && a - b <= 3) {
                proof {
                    assert(!falling(report@));
                    assert(!rising(report@)) by {
                        assert(report@[0] >= report@[1]);
                    }
                }
                return false;
            }
        }
        i += 1;
    }
    true
}

fn remove_at(report: &Vec<u32>, k: usize) -> (r: Vec<u32>)
    requires
        k < report@.len(),
    ensures
        r@ == report@.remove(k as int),
{
    let mut r: Vec<u32> = Vec::new();
    let mut i: usize = 0;
    while i < report.len()
        invariant
            k < report@.len(),
            i <= report@.len(),
            r@ == (if i <= k { report@.subrange(0, i as int) } else { report@.remove(k as int).subrange(0, i - 1) }),
        decreases report@.len() - i,
    {
        if i != k {
            r.push(report[i]);
        }
        i += 1;
        proof {
            if i <= k {
                assert(r@ =~= report@.subrange(0, i as int));
            } else {
                assert(r@ =~= report@.remove(k as int).subrange(0, i - 1));
            }
        }
    }
    assert(r@ =~= report@.remove(k as int));
    r
}

/// The levels of each line, where every line reads as numbers of 32 bits.
pub open spec fn reports_valid(text: Seq<u8>) -> bool {
    forall|i: int| 0 <= i < split_lines(text).len() ==> {
        let p = #[trigger] parse_numbers(split_lines(text)[i]);
        p is Some && forall|j: int| 0 <= j < p->0.len() ==> p->0[j] <= u32::MAX
    }
}

pub open spec fn levels(line: Seq<u8>) -> Seq<u32> {
    parse_numbers(line)->0.map_values(|x: u64| x as u32)
}

/// How many of the first `n` lines hold a report that passes.
pub open spec fn passing(ls: Seq<Seq<u8>>, n: int, dampener: bool) -> nat
    decreases n,
{
    if n <= 0 {
        0
    } else {
        passing(ls, n - 1, dampener) + if (if dampener {
            dampened(levels(ls[n - 1]))
        } else {
            safe(levels(ls[n - 1]))
        }) {
            1nat
        } else {
            0nat
        }
    }
}

proof fn lemma_passing_bound(ls: Seq<Seq<u8>>, n: int, dampener: bool)
    requires
        n >= 0,
    ensures
        passing(ls, n, dampener) <= n,
    decreases n,
{
    if n > 0 {
        lemma_passing_bound(ls, n - 1, dampener);
    }
}

proof fn lemma_passing_mono(ls: Seq<Seq<u8>>, k: int, n: int, dampener: bool)
    requires
        k <= n,
    ensures
        passing(ls, k, dampener) <= passing(ls, n, dampener),
    decreases n - k,
{
    if k < n {
        lemma_passing_mono(ls, k, n - 1, dampener);
    }
}

fn report_of(line: &Vec<u8>) -> (r: Option<Vec<u32>>)
    ensures
        match r {
            Some(v) => parse_numbers(line@) is Some && (forall|j: int| 0 <= j < parse_numbers(line@)->0.len() ==> parse_numbers(line@)->0[j] <= u32::MAX) && v@ == levels(line@),
            None => !(parse_numbers(line@) is Some && forall|j: int| 0 <= j < parse_numbers(line@)->0.len() ==> parse_numbers(line@)->0[j] <= u32::MAX),
        },
{
    let nums = match numbers(line.as_slice()) {
        Some(n) => n,
        None => return None,
    };
    let mut r: Vec<u32> = Vec::new();
    let mut i: usize = 0;
    while i < nums.len()
        invariant
            parse_numbers(line@) is Some,
            nums@ == parse_numbers(line@)->0,
            i <= nums@.len(),
            forall|j: int| 0 <= j < i ==> nums@[j] <= u32::MAX,
            r@ == nums@.subrange(0, i as int).map_values(|x: u64| x as u32),
        decreases nums@.len() - i,
    {
        if nums[i] > u32::MAX as u64 {
            return None;
        }
        r.push(nums[i] as u32);
        i += 1;
        assert(r@ =~= nums@.subrange(0, i as int).map_values(|x: u64| x as u32));
    }
    assert(nums@.subrange(0, nums@.len() as int) =~= nums@);
    Some(r)
}

fn count_passing(input: &str, dampener: bool) -> (r: Option<u32>)
    ensures
        u32_answer(
            r,
            reports_valid(input.spec_bytes()),
            passing(split_lines(input.spec_bytes()), split_lines(input.spec_bytes()).len() as int, dampener),
        ),
{
    let ls = lines(input.as_bytes());
    let ghost lv = views(ls@);
    let mut count: u32 = 0;
    let mut i: usize = 0;
    while i < ls.len()
        invariant
            lv == views(ls@),
            lv == split_lines(input.spec_bytes()),
            i <= lv.len(),
            count as nat == passing(lv, i as int, dampener),
            forall|k: int| 0 <= k < i ==> {
                let p = #[trigger] parse_numbers(lv[k]);
                p is Some && forall|j: int| 0 <= j < p->0.len() ==> p->0[j] <= u32::MAX
            },
        decreases lv.len() - i,
    {
        let report = match report_of(&ls[i]) {
            Some(r) => r,
            None => {
                assert(!reports_valid(input.spec_bytes())) by {
                    assert(lv[i as int] == ls@[i as int]@);
                }
                return None;
            },
        };
        assert(lv[i as int] == ls@[i as int]@);
        let ok = if dampener {
            let mut found = false;
            let mut k: usize = 0;
            while k < report.len()
                invariant
                    k <= report@.len(),
                    found == exists|j: int| 0 <= j < k && #[trigger] safe(report@.remove(j)),
                decreases report@.len() - k,
            {
                let without = remove_at(&report, k);
                if is_valid(without.as_slice()) {
                    found = true;
                }
                k += 1;
            }
            found
        } else {
            is_valid(report.as_slice())
        };
        if ok {
            proof {
                lemma_passing_bound(lv, i as int, dampener);
            }
            if count == u32::MAX {
                proof {
                    lemma_passing_mono(lv, i + 1, lv.len() as int, dampener);
                }
                return None;
            }
            count += 1;
        }
        i += 1;
    }
    Some(count)
}

/// How many reports in `input` are safe.
pub fn part_one(input: &str) -> (r: Option<u32>)
    ensures
        u32_answer(
            r,
            reports_valid(input.spec_bytes()),
            passing(split_lines(input.spec_bytes()), split_lines(input.spec_bytes()).len() as int, false),
        ),
{
    count_passing(input, false)
}

/// How many reports in `input` one removed level makes safe.
pub fn part_two(input: &str) -> (r: Option<u32>)
    ensures
        u32_answer(
            r,
            reports_valid(input.spec_bytes()),
            passing(split_lines(input.spec_bytes()), split_lines(input.spec_bytes()).len() as int, true),
        ),
{
    count_passing(input, true)
}

} // verus!
