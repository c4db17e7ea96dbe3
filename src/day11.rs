//! Stones that change on every blink: a 0 becomes 1, a number with an even count of
//! decimal digits splits into its two halves, and any other number is multiplied by
//! 2024. The number of stones after many blinks is counted per stone and depth, with
//! the counts kept in a table.
use vstd::prelude::*;
use std::collections::HashMap;
use crate::text::{numbers, parse_numbers, u32_answer, usize_answer};
use vstd::string::StringSliceAdditionalSpecFns;

verus! {

broadcast use vstd::std_specs::hash::group_hash_axioms;

/// The count of decimal digits of `v`.
pub open spec fn num_digits(v: nat) -> nat
    decreases v,
{
    if v < 10 {
        1
    } else {
        1 + num_digits(v / 10)
    }
}

pub open spec fn pow10(n: nat) -> nat
    decreases n,
{
    if n == 0 {
        1
    } else {
        10 * pow10((n - 1) as nat)
    }
}

/// Whether a stone splits in two on a blink.
pub open spec fn splits(v: nat) -> bool {
    v != 0 && num_digits(v) % 2 == 0
}

/// The left half of the digits of a stone that splits.
pub open spec fn left_half(v: nat) -> nat {
    v / pow10(num_digits(v) / 2)
}

/// The right half of the digits of a stone that splits, leading zeros dropped.
pub open spec fn right_half(v: nat) -> nat {
    v % pow10(num_digits(v) / 2)
}

/// What one stone becomes after one blink.
pub open spec fn blink_stone(v: nat) -> Seq<nat> {
    if v == 0 {
        seq![1]
    } else if splits(v) {
        seq![left_half(v), right_half(v)]
    } else {
        seq![v * 2024]
    }
}

/// One blink over a row of stones.
pub open spec fn blink(s: Seq<nat>) -> Seq<nat>
    decreases s.len(),
{
    if s.len() == 0 {
        seq![]
    } else {
        blink_stone(s[0]) + blink(s.subrange(1, s.len() as int))
    }
}

/// How many stones one stone becomes after `d` blinks.
pub open spec fn stone_count(v: nat, d: nat) -> nat
    decreases d,
{
    if d == 0 {
        1
    } else if v == 0 {
        stone_count(1, (d - 1) as nat)
    } else if splits(v) {
        stone_count(left_half(v), (d - 1) as nat) + stone_count(right_half(v), (d - 1) as nat)
    } else {
        stone_count(v * 2024, (d - 1) as nat)
    }
}

/// How many stones a row becomes after `d` blinks.
pub open spec fn row_count(s: Seq<nat>, d: nat) -> nat
    decreases s.len(),
{
    if s.len() == 0 {
        0
    } else {
        stone_count(s[0], d) + row_count(s.subrange(1, s.len() as int), d)
    }
}

/// Every stone met over `d` blinks from `v`, and every count on the way, fits in 64 bits.
pub open spec fn stone_fits(v: nat, d: nat) -> bool
    decreases d,
{
    &&& stone_count(v, d) <= u64::MAX
    &&& d > 0 ==> if v == 0 {
        stone_fits(1, (d - 1) as nat)
    } else if splits(v) {
        stone_fits(left_half(v), (d - 1) as nat) && stone_fits(right_half(v), (d - 1) as nat)
    } else {
        v * 2024 <= u64::MAX && stone_fits(v * 2024, (d - 1) as nat)
    }
}

pub open spec fn nats(s: Seq<u64>) -> Seq<nat> {
    s.map_values(|x: u64| x as nat)
}

/// The stones written in `text`, where each fits in 64 bits.
pub open spec fn stones_valid(text: Seq<u8>, d: nat) -> bool {
    &&& parse_numbers(text) is Some
    &&& forall|i: int|
        0 <= i < parse_numbers(text)->0.len() ==> #[trigger] stone_fits(
            parse_numbers(text)->0[i] as nat,
            d,
        )
}

/// How many stones those written in `text` become after `d` blinks.
pub open spec fn stones_after(text: Seq<u8>, d: nat) -> nat {
    row_count(nats(parse_numbers(text)->0), d)
}

/// A stone counts as one before any blink.
pub proof fn count_at_depth_zero(v: nat)
    ensures
        stone_count(v, 0) == 1,
{
}

proof fn lemma_row_concat(a: Seq<nat>, b: Seq<nat>, d: nat)
    ensures
        row_count(a + b, d) == row_count(a, d) + row_count(b, d),
    decreases a.len(),
{
    if a.len() == 0 {
        assert(a + b =~= b);
    } else {
        assert((a + b).subrange(1, (a + b).len() as int) =~= a.subrange(1, a.len() as int) + b);
        lemma_row_concat(a.subrange(1, a.len() as int), b, d);
    }
}

/// The count after `d + 1` blinks is the sum of the counts, after `d` blinks, of the
/// stones that one blink makes.
pub proof fn count_over_one_blink(v: nat, d: nat)
    ensures
        stone_count(v, d + 1) == row_count(blink_stone(v), d),
{
    let c = blink_stone(v);
    reveal_with_fuel(row_count, 3);
    if c.len() == 2 {
        assert(c.subrange(1, 2) =~= seq![c[1]]);
        assert(c.subrange(1, 2).subrange(1, 1) =~= Seq::<nat>::empty());
    } else {
        assert(c.subrange(1, 1) =~= Seq::<nat>::empty());
    }
}

/// Counting a row after `d + 1` blinks is counting the row after one blink, `d` blinks on.
pub proof fn row_count_over_one_blink(s: Seq<nat>, d: nat)
    ensures
        row_count(s, d + 1) == row_count(blink(s), d),
    decreases s.len(),
{
    if s.len() > 0 {
        let rest = s.subrange(1, s.len() as int);
        row_count_over_one_blink(rest, d);
        count_over_one_blink(s[0], d);
        lemma_row_concat(blink_stone(s[0]), blink(rest), d);
    }
}

/// After one blink, a row of zeros is a row of ones of the same length.
pub proof fn zeros_blink_to_ones(s: Seq<nat>)
    requires
        forall|i: int| 0 <= i < s.len() ==> s[i] == 0,
    ensures
        blink(s) == Seq::new(s.len(), |_i: int| 1nat),
    decreases s.len(),
{
    if s.len() > 0 {
        let rest = s.subrange(1, s.len() as int);
        zeros_blink_to_ones(rest);
        assert(blink(s) =~= Seq::new(s.len(), |_i: int| 1nat));
    } else {
        assert(blink(s) =~= Seq::new(s.len(), |_i: int| 1nat));
    }
}

proof fn lemma_pow10_le_value(v: nat)
    requires
        v >= 1,
    ensures
        pow10((num_digits(v) - 1) as nat) <= v,
        num_digits(v) >= 1,
    decreases v,
{
    if v >= 10 {
        lemma_pow10_le_value(v / 10);
    }
}

pub(crate) proof fn lemma_pow10_monotone(a: nat, b: nat)
    requires
        a <= b,
    ensures
        pow10(a) <= pow10(b),
    decreases b,
{
    if a < b {
        lemma_pow10_monotone(a, (b - 1) as nat);
    }
}

pub(crate) proof fn lemma_digits_bound(v: nat, k: nat)
    requires
        k >= 1,
        v < pow10(k),
    ensures
        num_digits(v) <= k,
    decreases k,
{
    if v >= 10 {
        if k == 1 {
            assert(pow10(1) == 10) by {
                reveal_with_fuel(pow10, 2);
            }
        } else {
            lemma_digits_bound(v / 10, (k - 1) as nat);
        }
    }
}

/// The count of decimal digits of `v`.
fn digit_count(v: u64) -> (r: u32)
    ensures
        r as nat == num_digits(v as nat),
        r <= 20,
{
    proof {
        assert(pow10(20) == 100000000000000000000) by {
            reveal_with_fuel(pow10, 21);
        }
        lemma_digits_bound(v as nat, 20);
    }
    let mut x: u64 = v;
    let mut n: u32 = 1;
    while x >= 10
        invariant
            n as nat + num_digits(x as nat) == num_digits(v as nat) + 1,
            1 <= n,
            num_digits(v as nat) <= 20,
        decreases x,
    {
        x = x / 10;
        n = n + 1;
    }
    n
}

/// Ten to the power `n`, for a power no larger than some 64-bit value.
fn power_of_ten(n: u32, Ghost(bound): Ghost<nat>) -> (r: u64)
    requires
        pow10(n as nat) <= bound,
        bound <= u64::MAX,
    ensures
        r as nat == pow10(n as nat),
        r >= 1,
{
    proof {
        lemma_pow10_monotone(0, n as nat);
    }
    let mut p: u64 = 1;
    let mut k: u32 = 0;
    while k < n
        invariant
            k <= n,
            p as nat == pow10(k as nat),
            pow10(n as nat) <= bound,
            bound <= u64::MAX,
        decreases n - k,
    {
        proof {
            lemma_pow10_monotone((k + 1) as nat, n as nat);
        }
        p = p * 10;
        k += 1;
    }
    p
}

pub open spec fn memo_ok(m: Map<u128, u64>) -> bool {
    forall|k: u128|
        #[trigger] m.contains_key(k) ==> stone_fits((k / 18446744073709551616) as nat, (k
            % 18446744073709551616) as nat) && m[k] as nat == stone_count(
            (k / 18446744073709551616) as nat,
            (k % 18446744073709551616) as nat,
        )
}

/// The memo key of stone `v` at depth `d`.
pub open spec fn memo_key(v: u64, d: u64) -> u128 {
    (v as nat * 18446744073709551616 + d as nat) as u128
}

/// `new` keeps every entry of `old`.
pub open spec fn keeps(old: Map<u128, u64>, new: Map<u128, u64>) -> bool {
    forall|k: u128| #[trigger] old.contains_key(k) ==> new.contains_key(k) && new[k] == old[k]
}

/// How many stones `v` becomes after `d` blinks, or `None` where a stone or count on the
/// way exceeds 64 bits; remembers what it counts in `memo`, keeping what was there.
fn count_stones(v: u64, d: u64, memo: &mut HashMap<u128, u64>) -> (r: Option<u64>)
    requires
        memo_ok(old(memo)@),
    ensures
        memo_ok(final(memo)@),
        keeps(old(memo)@, final(memo)@),
        d == 0 ==> final(memo)@ == old(memo)@,
        forall|k: u128|
            #[trigger] final(memo)@.contains_key(k) ==> old(memo)@.contains_key(k) || k
                % 18446744073709551616 <= d,
        d > 0 && r is Some ==> final(memo)@.contains_key(memo_key(v, d)) && final(memo)@[memo_key(v, d)]
            == r->0,
        match r {
            Some(c) => stone_fits(v as nat, d as nat) && c as nat == stone_count(v as nat, d as nat),
            None => !stone_fits(v as nat, d as nat),
        },
    decreases d,
{
    if d == 0 {
        return Some(1);
    }
    let ghost start = memo@;
    let key: u128 = (v as u128) * 18446744073709551616 + (d as u128);
    assert(key == memo_key(v, d));
    assert(key / 18446744073709551616 == v && key % 18446744073709551616 == d) by (nonlinear_arith)
        requires
            key == (v as u128) * 18446744073709551616 + (d as u128),
            d < 18446744073709551616,
    ;
    match memo.get(&key) {
        Some(c) => {
            return Some(*c);
        },
        None => {},
    }
    let r = if v == 0 {
        count_stones(1, d - 1, memo)
    } else {
        let nd = digit_count(v);
        if nd % 2 == 0 {
            proof {
                lemma_pow10_le_value(v as nat);
                lemma_pow10_monotone((nd / 2) as nat, (nd - 1) as nat);
            }
            let p = power_of_ten(nd / 2, Ghost(v as nat));
            let a = count_stones(v / p, d - 1, memo);
            let b = count_stones(v % p, d - 1, memo);
            match (a, b) {
                (Some(x), Some(y)) => x.checked_add(y),
                _ => None,
            }
        } else {
            match v.checked_mul(2024) {
                Some(w) => count_stones(w, d - 1, memo),
                None => None,
            }
        }
    };
    assert(keeps(start, memo@));
    assert(!memo@.contains_key(key)) by {
        assert(!start.contains_key(key));
    }
    match r {
        Some(c) => {
            memo.insert(key, c);
        },
        None => {},
    }
    r
}

/// How many stones those written in `input` become after `depth` blinks: `None` where a
/// stone or a count on the way does not fit in 64 bits or the total not in a `usize`.
pub fn part_two_with_depth(input: &str, depth: usize) -> (r: Option<usize>)
    ensures
        usize_answer(
            r,
            stones_valid(input.spec_bytes(), depth as nat),
            stones_after(input.spec_bytes(), depth as nat),
        ),
{
    let stones = match numbers(input.as_bytes()) {
        Some(s) => s,
        None => return None,
    };
    let ghost s = nats(stones@);
    let mut memo: HashMap<u128, u64> = HashMap::new();
    let mut total: usize = 0;
    let mut i: usize = stones.len();
    assert(s.subrange(s.len() as int, s.len() as int).len() == 0);
    while i > 0
        invariant
            i <= stones@.len(),
            s == nats(stones@),
            parse_numbers(input.spec_bytes()) == Some(stones@),
            memo_ok(memo@),
            forall|j: int| i <= j < stones@.len() ==> #[trigger] stone_fits(stones@[j] as nat, depth as nat),
            total as nat == row_count(s.subrange(i as int, s.len() as int), depth as nat),
        decreases i,
    {
        let ghost tail = s.subrange(i as int, s.len() as int);
        i -= 1;
        assert(s.subrange(i as int, s.len() as int).subrange(1, s.len() - i) =~= tail);
        proof {
            lemma_row_concat(s.subrange(0, i as int), s.subrange(i as int, s.len() as int), depth as nat);
            assert(s.subrange(0, i as int) + s.subrange(i as int, s.len() as int) =~= s);
        }
        match count_stones(stones[i], depth as u64, &mut memo) {
            None => {
                assert(!stone_fits(parse_numbers(input.spec_bytes())->0[i as int] as nat, depth as nat));
                return None;
            },
            Some(c) => {
                if c > usize::MAX as u64 {
                    return None;
                }
                match total.checked_add(c as usize) {
                    None => return None,
                    Some(t) => total = t,
                }
            },
        }
    }
    assert(s.subrange(0, s.len() as int) =~= s);
    Some(total)
}

/// How many stones those written in `input` become after 25 blinks.
pub fn part_one(input: &str) -> (r: Option<u32>)
    ensures
        u32_answer(r, stones_valid(input.spec_bytes(), 25), stones_after(input.spec_bytes(), 25)),
{
    match part_two_with_depth(input, 25) {
        Some(n) => if n <= u32::MAX as usize {
            Some(n as u32)
        } else {
            None
        },
        None => None,
    }
}

/// How many stones those written in `input` become after 75 blinks.
pub fn part_two(input: &str) -> (r: Option<usize>)
    ensures
        usize_answer(r, stones_valid(input.spec_bytes(), 75), stones_after(input.spec_bytes(), 75)),
{
    part_two_with_depth(input, 75)
}

} // verus!
