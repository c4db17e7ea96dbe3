//! Two lists of location numbers, one per column. Their distance pairs the smallest
//! with the smallest and so on, adding up the differences; their similarity adds each
//! left number times how often it appears on the right.
use vstd::prelude::*;
use crate::text::{lines, numbers, parse_numbers, split_lines, u32_answer, views};
use vstd::string::StringSliceAdditionalSpecFns;

verus! {

pub open spec fn sorted(s: Seq<u64>) -> bool {
    forall|i: int, j: int| 0 <= i <= j < s.len() ==> s[i] <= s[j]
}

/// Relies on `slice::sort_unstable`: the result holds the same values in
/// non-decreasing order.
#[verifier::external_body]
fn sort_values(mut v: Vec<u64>) -> (r: Vec<u64>)
    ensures
        r@.to_multiset() == v@.to_multiset(),
        sorted(r@),
{
    v.sort_unstable();
    v
}

/// Every line holds exactly two numbers.
pub open spec fn pairs_valid(ls: Seq<Seq<u8>>) -> bool {
    forall|i: int| 0 <= i < ls.len() ==> #[trigger] parse_numbers(ls[i]) is Some && parse_numbers(ls[i])->0.len() == 2
}

/// The numbers in column `c` of the first `n` lines.
pub open spec fn column(ls: Seq<Seq<u8>>, c: int, n: int) -> Seq<u64>
    decreases n,
{
    if n <= 0 {
        seq![]
    } else {
        column(ls, c, n - 1).push(parse_numbers(ls[n - 1])->0[c])
    }
}

/// The sum of `|a[i] - b[i]|` over the first `n` places.
pub open spec fn distance(a: Seq<u64>, b: Seq<u64>, n: int) -> nat
    decreases n,
{
    if n <= 0 {
        0
    } else {
        distance(a, b, n - 1) + (if a[n - 1] >= b[n - 1] {
            a[n - 1] - b[n - 1]
        } else {
            b[n - 1] - a[n - 1]
        }) as nat
    }
}

/// How many of the first `n` values of `s` equal `x`.
pub open spec fn occurrences(s: Seq<u64>, x: u64, n: int) -> nat
    decreases n,
{
    if n <= 0 {
        0
    } else {
        occurrences(s, x, n - 1) + if s[n - 1] == x {
            1nat
        } else {
            0nat
        }
    }
}

proof fn lemma_column_len(ls: Seq<Seq<u8>>, c: int, n: int)
    requires
        n >= 0,
    ensures
        column(ls, c, n).len() == n,
    decreases n,
{
    if n > 0 {
        lemma_column_len(ls, c, n - 1);
    }
}

/// The sum over the first `n` left numbers of each times its count on the right.
pub open spec fn similarity(a: Seq<u64>, b: Seq<u64>, n: int) -> nat
    decreases n,
{
    if n <= 0 {
        0
    } else {
        similarity(a, b, n - 1) + a[n - 1] as nat * occurrences(b, a[n - 1], b.len() as int)
    }
}

pub open spec fn left(text: Seq<u8>) -> Seq<u64> {
    column(split_lines(text), 0, split_lines(text).len() as int)
}

pub open spec fn right(text: Seq<u8>) -> Seq<u64> {
    column(split_lines(text), 1, split_lines(text).len() as int)
}

/// The total distance is `d` once both columns are sorted.
pub open spec fn sorted_distance_is(text: Seq<u8>, d: nat) -> bool {
    exists|a: Seq<u64>, b: Seq<u64>|
        #![trigger a.to_multiset(), b.to_multiset()]
        a.to_multiset() == left(text).to_multiset() && b.to_multiset() == right(text).to_multiset()
            && sorted(a) && sorted(b) && distance(a, b, a.len() as int) == d
}

fn read_columns(input: &str) -> (r: Option<(Vec<u64>, Vec<u64>)>)
    ensures
        match r {
            Some((a, b)) => pairs_valid(split_lines(input.spec_bytes())) && a@ == left(input.spec_bytes())
                && b@ == right(input.spec_bytes()),
            None => !pairs_valid(split_lines(input.spec_bytes())),
        },
{
    let ls = lines(input.as_bytes());
    let ghost lv = views(ls@);
    let mut a: Vec<u64> = Vec::new();
    let mut b: Vec<u64> = Vec::new();
    let mut i: usize = 0;
    while i < ls.len()
        invariant
            lv == views(ls@),
            lv == split_lines(input.spec_bytes()),
            i <= lv.len(),
            forall|j: int| 0 <= j < i ==> #[trigger] parse_numbers(lv[j]) is Some && parse_numbers(lv[j])->0.len() == 2,
            a@ == column(lv, 0, i as int),
            b@ == column(lv, 1, i as int),
        decreases lv.len() - i,
    {
        assert(ls@[i as int]@ == lv[i as int]);
        let nums = match numbers(ls[i].as_slice()) {
            Some(n) => n,
            None => return None,
        };
        if nums.len() != 2 {
            return None;
        }
        a.push(nums[0]);
        b.push(nums[1]);
        i += 1;
    }
    Some((a, b))
}

proof fn lemma_distance_mono(a: Seq<u64>, b: Seq<u64>, k: int, n: int)
    requires
        k <= n,
    ensures
        distance(a, b, k) <= distance(a, b, n),
    decreases n - k,
{
    if k < n {
        lemma_distance_mono(a, b, k, n - 1);
    }
}

proof fn lemma_similarity_mono(a: Seq<u64>, b: Seq<u64>, k: int, n: int)
    requires
        k <= n,
    ensures
        similarity(a, b, k) <= similarity(a, b, n),
    decreases n - k,
{
    if k < n {
        lemma_similarity_mono(a, b, k, n - 1);
    }
}

/// The total distance between the two sorted columns of `input`; `None` where a line
/// does not hold two numbers or the total does not fit in a `u32`.
pub fn part_one(input: &str) -> (r: Option<u32>)
    ensures
        match r {
            Some(d) => pairs_valid(split_lines(input.spec_bytes())) && sorted_distance_is(input.spec_bytes(), d as nat),
            None => !pairs_valid(split_lines(input.spec_bytes())) || exists|d: nat| d > u32::MAX && #[trigger] sorted_distance_is(input.spec_bytes(), d),
        },
{
    let (a, b) = match read_columns(input) {
        Some(c) => c,
        None => return None,
    };
    proof {
        let ls = split_lines(input.spec_bytes());
        lemma_column_len(ls, 0, ls.len() as int);
        lemma_column_len(ls, 1, ls.len() as int);
        a@.to_multiset_ensures();
        b@.to_multiset_ensures();
    }
    let a = sort_values(a);
    let b = sort_values(b);
    proof {
        a@.to_multiset_ensures();
        b@.to_multiset_ensures();
        left(input.spec_bytes()).to_multiset_ensures();
        right(input.spec_bytes()).to_multiset_ensures();
    }
    let n = a.len();
    assert(b@.len() == n);
    let ghost d = distance(a@, b@, n as int);
    proof {
        assert(sorted_distance_is(input.spec_bytes(), d));
    }
    let mut total: u32 = 0;
    let mut i: usize = 0;
    while i < n
        invariant
            n == a@.len(),
            n == b@.len(),
            i <= n,
            total as nat == distance(a@, b@, i as int),
            d == distance(a@, b@, n as int),
            sorted_distance_is(input.spec_bytes(), d),
        decreases n - i,
    {
        let x = a[i];
        let y = b[i];
        let diff = if x >= y {
            x - y
        } else {
            y - x
        };
        proof {
            lemma_distance_mono(a@, b@, i + 1, n as int);
        }
        if diff > (u32::MAX - total) as u64 {
            return None;
        }
        total = total + diff as u32;
        i += 1;
    }
    Some(total)
}

/// How many times `x` appears in `v`.
fn count_of(v: &Vec<u64>, x: u64) -> (r: u64)
    ensures
        r as nat == occurrences(v@, x, v@.len() as int),
{
    let mut c: u64 = 0;
    let mut i: usize = 0;
    while i < v.len()
        invariant
            i <= v@.len(),
            c as nat == occurrences(v@, x, i as int),
            c <= i,
        decreases v@.len() - i,
    {
        if v[i] == x {
            c += 1;
        }
        i += 1;
    }
    c
}

/// The similarity of the two columns of `input`; `None` where a line does not hold two
/// numbers or the sum does not fit in a `u32`.
pub fn part_two(input: &str) -> (r: Option<u32>)
    ensures
        u32_answer(
            r,
            pairs_valid(split_lines(input.spec_bytes())),
            similarity(left(input.spec_bytes()), right(input.spec_bytes()), left(input.spec_bytes()).len() as int),
        ),
{
    let (a, b) = match read_columns(input) {
        Some(c) => c,
        None => return None,
    };
    let mut total: u32 = 0;
    let mut i: usize = 0;
    while i < a.len()
        invariant
            pairs_valid(split_lines(input.spec_bytes())),
            a@ == left(input.spec_bytes()),
            b@ == right(input.spec_bytes()),
            i <= a@.len(),
            total as nat == similarity(a@, b@, i as int),
        decreases a@.len() - i,
    {
        let x = a[i];
        let c = count_of(&b, x);
        proof {
            lemma_similarity_mono(a@, b@, i + 1, a@.len() as int);
        }
        let term = match (x as u128).checked_mul(c as u128) {
            Some(t) => t,
            None => return None,
        };
        if term > (u32::MAX - total) as u128 {
            return None;
        }
        total = total + term as u32;
        i += 1;
    }
    Some(total)
}

} // verus!
