//! A pseudo-random generator of 24-bit numbers (three shift-and-xor steps, each
//! pruned to 24 bits), and a search for the four price changes after which selling
//! on every buyer's first occurrence earns the most.
use vstd::prelude::*;
use crate::text::{numbers, parse_numbers};
use vstd::string::StringSliceAdditionalSpecFns;

verus! {

pub const MASK: u64 = 0xffffff;

/// Mixing a value into the secret.
pub open spec fn mix_spec(a: u64, b: u64) -> u64 {
    a ^ b
}

/// Pruning the secret to 24 bits.
pub open spec fn prune_spec(a: u64) -> u64 {
    a & MASK
}

/// One step of the generator.
pub open spec fn step(x: u64) -> u64 {
    let a = prune_spec(mix_spec(x << 6u64, x));
    let b = prune_spec(mix_spec(a >> 5u64, a));
    prune_spec(mix_spec(b << 11u64, b))
}

/// The secret after `n` steps from `x`.
pub open spec fn secret(x: u64, n: nat) -> u64
    decreases n,
{
    if n == 0 {
        x
    } else {
        step(secret(x, (n - 1) as nat))
    }
}

/// Mixes `b` into the secret `a`.
pub fn mix(a: u64, b: u64) -> (r: u64)
    ensures
        r == mix_spec(a, b),
{
    a ^ b
}

/// Prunes the secret `a` to its low 24 bits.
pub fn prune(a: u64) -> (r: u64)
    ensures
        r == prune_spec(a),
        r < 16777216,
{
    let r = a & MASK;
    assert(r < 16777216) by (bit_vector)
        requires
            r == a & 0xffffffu64,
    ;
    r
}

/// The next secret.
pub fn next_secret(x: u64) -> (r: u64)
    ensures
        r == step(x),
        r < 16777216,
{
    let a = prune(mix(x << 6u64, x));
    let b = prune(mix(a >> 5u64, a));
    prune(mix(b << 11u64, b))
}

/// Undoes the first stage of a step on a 24-bit value.
pub open spec fn undo_left6(y: u64) -> u64 {
    (y ^ (y << 6u64) ^ (y << 12u64) ^ (y << 18u64)) & MASK
}

/// Undoes the second stage.
pub open spec fn undo_right5(z: u64) -> u64 {
    z ^ (z >> 5u64) ^ (z >> 10u64) ^ (z >> 15u64) ^ (z >> 20u64)
}

/// Undoes the third stage.
pub open spec fn undo_left11(w: u64) -> u64 {
    (w ^ (w << 11u64) ^ (w << 22u64)) & MASK
}

/// Each 24-bit value is the only one that steps to its successor: the step is a
/// bijection on 24-bit numbers, so a run of secrets never repeats a value early by
/// two starts merging.
pub proof fn step_is_injective(a: u64, b: u64)
    requires
        a < 16777216,
        b < 16777216,
        step(a) == step(b),
    ensures
        a == b,
{
    lemma_step_undone(a);
    lemma_step_undone(b);
}

proof fn lemma_step_undone(x: u64)
    requires
        x < 16777216,
    ensures
        undo_left6(undo_right5(undo_left11(step(x)))) == x,
{
    let a = ((x << 6u64) ^ x) & 0xffffffu64;
    let b = ((a >> 5u64) ^ a) & 0xffffffu64;
    let c = ((b << 11u64) ^ b) & 0xffffffu64;
    assert(a < 16777216) by (bit_vector)
        requires
            a == ((x << 6u64) ^ x) & 0xffffffu64,
    ;
    assert(b < 16777216) by (bit_vector)
        requires
            b == ((a >> 5u64) ^ a) & 0xffffffu64,
    ;
    assert(((c ^ (c << 11u64) ^ (c << 22u64)) & 0xffffffu64) == b) by (bit_vector)
        requires
            c == ((b << 11u64) ^ b) & 0xffffffu64,
            b < 16777216,
    ;
    assert((b ^ (b >> 5u64) ^ (b >> 10u64) ^ (b >> 15u64) ^ (b >> 20u64)) == a) by (bit_vector)
        requires
            b == ((a >> 5u64) ^ a) & 0xffffffu64,
            a < 16777216,
    ;
    assert(((a ^ (a << 6u64) ^ (a << 12u64) ^ (a << 18u64)) & 0xffffffu64) == x) by (bit_vector)
        requires
            a == ((x << 6u64) ^ x) & 0xffffffu64,
            x < 16777216,
    ;
}

/// The sum over the first `m` buyers of their secret after 2000 steps.
pub open spec fn secrets_sum(seeds: Seq<u64>, m: int) -> nat
    decreases m,
{
    if m <= 0 {
        0
    } else {
        secrets_sum(seeds, m - 1) + secret(seeds[m - 1], 2000) as nat
    }
}

fn secret_after(x: u64, n: u32) -> (r: u64)
    ensures
        r == secret(x, n as nat),
        n > 0 ==> r < 16777216,
{
    let mut cur = x;
    let mut k: u32 = 0;
    while k < n
        invariant
            k <= n,
            cur == secret(x, k as nat),
            k > 0 ==> cur < 16777216,
        decreases n - k,
    {
        cur = next_secret(cur);
        k += 1;
    }
    cur
}

/// The sum of every buyer's 2000th secret; `None` where `input` holds a number beyond
/// 64 bits or the sum does not fit in a `usize`.
pub fn part_one(input: &str) -> (r: Option<usize>)
    ensures
        match r {
            Some(v) => parse_numbers(input.spec_bytes()) is Some && v as nat == secrets_sum(
                parse_numbers(input.spec_bytes())->0,
                parse_numbers(input.spec_bytes())->0.len() as int,
            ),
            None => parse_numbers(input.spec_bytes()) is None || secrets_sum(
                parse_numbers(input.spec_bytes())->0,
                parse_numbers(input.spec_bytes())->0.len() as int,
            ) > usize::MAX,
        },
{
    let seeds = match numbers(input.as_bytes()) {
        Some(s) => s,
        None => return None,
    };
    let mut total: u128 = 0;
    let mut i: usize = 0;
    while i < seeds.len()
        invariant
            i <= seeds@.len(),
            total as nat == secrets_sum(seeds@, i as int),
            total <= i * 16777216,
        decreases seeds@.len() - i,
    {
        let s = secret_after(seeds[i], 2000);
        total = total + s as u128;
        i += 1;
    }
    if total > usize::MAX as u128 {
        return None;
    }
    Some(total as usize)
}

/// The number of four-change patterns: each change lies in -9..=9.
pub const PATTERNS: usize = 130321;

/// The ones digit of the buyer's `n`th secret: the price then.
pub open spec fn price(x: u64, n: nat) -> int {
    (secret(x, n) % 10) as int
}

/// The change of price at step `n`.
pub open spec fn change(x: u64, n: nat) -> int {
    price(x, n) - price(x, (n - 1) as nat)
}

/// The four changes that end at step `n`, as one number below `PATTERNS`.
pub open spec fn pattern_at(x: u64, n: nat) -> int {
    (change(x, (n - 3) as nat) + 9) * 6859 + (change(x, (n - 2) as nat) + 9) * 361 + (change(
        x,
        (n - 1) as nat,
    ) + 9) * 19 + (change(x, n) + 9)
}

/// What the buyer pays at the first step from `n` on, up to step 2000, where pattern
/// `k` has just been seen; 0 where it never is.
pub open spec fn first_sale(x: u64, k: int, n: nat) -> int
    decreases 2001 - n,
{
    if n > 2000 || n < 4 {
        0
    } else if pattern_at(x, n) == k {
        price(x, n)
    } else {
        first_sale(x, k, n + 1)
    }
}

/// What the first `m` buyers pay in all when selling on pattern `k`.
pub open spec fn bananas(seeds: Seq<u64>, k: int, m: int) -> int
    decreases m,
{
    if m <= 0 {
        0
    } else {
        bananas(seeds, k, m - 1) + first_sale(seeds[m - 1], k, 4)
    }
}

/// `v` is the most that some pattern earns over all buyers.
pub open spec fn is_best(seeds: Seq<u64>, v: int) -> bool {
    &&& exists|k: int| 0 <= k < PATTERNS && #[trigger] bananas(seeds, k, seeds.len() as int) == v
    &&& forall|k: int| 0 <= k < PATTERNS ==> #[trigger] bananas(seeds, k, seeds.len() as int) <= v
}

proof fn lemma_sale_bounds(x: u64, k: int, n: nat)
    ensures
        0 <= first_sale(x, k, n) <= 9,
    decreases 2001 - n,
{
    if n <= 2000 && n >= 4 && pattern_at(x, n) != k {
        lemma_sale_bounds(x, k, n + 1);
    }
}

proof fn lemma_bananas_bounds(seeds: Seq<u64>, k: int, m: int)
    requires
        m >= 0,
    ensures
        0 <= bananas(seeds, k, m) <= 9 * m,
    decreases m,
{
    if m > 0 {
        lemma_bananas_bounds(seeds, k, m - 1);
        lemma_sale_bounds(seeds[m - 1], k, 4);
    }
}

/// The prices of steps 0 to 2000.
fn prices(x: u64) -> (r: Vec<i64>)
    ensures
        r@.len() == 2001,
        forall|n: int| 0 <= n <= 2000 ==> #[trigger] r@[n] as int == price(x, n as nat),
{
    let mut r: Vec<i64> = Vec::new();
    let mut cur = x;
    let mut n: usize = 0;
    while n <= 2000
        invariant
            n <= 2001,
            r@.len() == n,
            cur == secret(x, n as nat),
            forall|j: int| 0 <= j < n ==> #[trigger] r@[j] as int == price(x, j as nat),
        decreases 2001 - n,
    {
        r.push((cur % 10) as i64);
        cur = next_secret(cur);
        n += 1;
    }
    r
}

/// The most that one pattern of four price changes earns over the buyers in `input`;
/// `None` where `input` holds a number beyond 64 bits or the most does not fit in a
/// `usize`.
pub fn part_two(input: &str) -> (r: Option<usize>)
    ensures
        match r {
            Some(v) => parse_numbers(input.spec_bytes()) is Some && is_best(
                parse_numbers(input.spec_bytes())->0,
                v as int,
            ),
            None => parse_numbers(input.spec_bytes()) is None || exists|v: int|
                v > usize::MAX && is_best(parse_numbers(input.spec_bytes())->0, v),
        },
{
    let seeds = match numbers(input.as_bytes()) {
        Some(s) => s,
        None => return None,
    };
    let ghost sv = seeds@;
    let mut totals: Vec<u128> = Vec::new();
    let mut seen: Vec<usize> = Vec::new();
    while totals.len() < PATTERNS
        invariant
            totals@.len() == seen@.len(),
            totals@.len() <= PATTERNS,
            forall|k: int| 0 <= k < totals@.len() ==> #[trigger] totals@[k] == 0,
            forall|k: int| 0 <= k < seen@.len() ==> #[trigger] seen@[k] == 0,
        decreases PATTERNS - totals@.len(),
    {
        totals.push(0);
        seen.push(0);
    }
    let mut i: usize = 0;
    while i < seeds.len()
        invariant
            sv == seeds@,
            i <= sv.len(),
            totals@.len() == PATTERNS,
            seen@.len() == PATTERNS,
            forall|k: int| 0 <= k < PATTERNS ==> #[trigger] totals@[k] as int == bananas(sv, k, i as int),
            forall|k: int| 0 <= k < PATTERNS ==> #[trigger] seen@[k] <= i,
        decreases sv.len() - i,
    {
        let x = seeds[i];
        let p = prices(x);
        let stamp = i + 1;
        let mut n: usize = 4;
        proof {
            lemma_bananas_bounds(sv, 0, i as int);
        }
        while n <= 2000
            invariant
                sv == seeds@,
                i < sv.len(),
                x == sv[i as int],
                stamp == i + 1,
                4 <= n <= 2001,
                p@.len() == 2001,
                forall|m: int| 0 <= m <= 2000 ==> #[trigger] p@[m] as int == price(x, m as nat),
                totals@.len() == PATTERNS,
                seen@.len() == PATTERNS,
                forall|k: int| 0 <= k < PATTERNS ==> #[trigger] seen@[k] <= stamp,
                forall|k: int|
                    0 <= k < PATTERNS ==> #[trigger] totals@[k] as int == bananas(sv, k, i as int) + (if seen@[k]
                        == stamp {
                        first_sale(x, k, 4)
                    } else {
                        0
                    }),
                forall|k: int|
                    0 <= k < PATTERNS && #[trigger] seen@[k] != stamp ==> first_sale(x, k, 4) == first_sale(
                        x,
                        k,
                        n as nat,
                    ),
            decreases 2001 - n,
        {
            let c1 = p[n - 3] - p[n - 4];
            let c2 = p[n - 2] - p[n - 3];
            let c3 = p[n - 1] - p[n - 2];
            let c4 = p[n] - p[n - 1];
            proof {
                assert(0 <= p@[n - 4] <= 9 && 0 <= p@[n - 3] <= 9 && 0 <= p@[n - 2] <= 9 && 0 <= p@[n - 1] <= 9 && 0 <= p@[n as int] <= 9);
            }
            let key = ((c1 + 9) * 6859 + (c2 + 9) * 361 + (c3 + 9) * 19 + (c4 + 9)) as usize;
            let ghost kk = key as int;
            assert(kk == pattern_at(x, n as nat));
            if seen[key] != stamp {
                let t = totals[key];
                proof {
                    lemma_bananas_bounds(sv, kk, i as int);
                    assert(t as int == bananas(sv, kk, i as int));
                }
                totals.set(key, t + (p[n] as u128));
                seen.set(key, stamp);
            }
            n += 1;
        }
        proof {
            assert forall|k: int| 0 <= k < PATTERNS implies #[trigger] totals@[k] as int == bananas(sv, k, i + 1) by {
                if seen@[k] != stamp {
                    assert(first_sale(x, k, 4) == first_sale(x, k, 2001));
                }
            }
        }
        i += 1;
    }
    let mut best: u128 = 0;
    let mut k: usize = 0;
    let ghost mut arg: int = 0;
    while k < PATTERNS
        invariant
            sv == seeds@,
            totals@.len() == PATTERNS,
            forall|j: int| 0 <= j < PATTERNS ==> #[trigger] totals@[j] as int == bananas(sv, j, sv.len() as int),
            k <= PATTERNS,
            0 <= arg < PATTERNS,
            k > 0 ==> best == totals@[arg],
            k == 0 ==> best == 0,
            forall|j: int| 0 <= j < k ==> #[trigger] totals@[j] <= best,
        decreases PATTERNS - k,
    {
        if k == 0 || totals[k] > best {
            best = totals[k];
            proof {
                arg = k as int;
            }
        }
        k += 1;
    }
    proof {
        assert(bananas(sv, arg, sv.len() as int) == best as int);
        assert forall|j: int| 0 <= j < PATTERNS implies #[trigger] bananas(sv, j, sv.len() as int) <= best as int by {
            assert(totals@[j] <= best);
        }
        assert(is_best(sv, best as int));
    }
    if best > usize::MAX as u128 {
        return None;
    }
    Some(best as usize)
}

} // verus!
